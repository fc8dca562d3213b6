//! The token stream, the argument iterator and the quoting helper.

use winarg::args_native;
use winarg::null_separated_list;
use winarg::null_separated_list_wide;
use winarg::quoting::quote_arg;
use winarg::Parser;
use winarg::Token;

fn wide(s: &str) -> Vec<u16> {
    s.encode_utf16().chain(Some(0)).collect()
}

#[test]
fn token_stream() {
    let cmdline = wide("EXE a");
    let mut p = Parser::from_env(&cmdline);
    let mut tokens: Vec<Token> = Vec::new();
    while let Some(t) = p.next() {
        tokens.push(t);
    }
    let units: Vec<u16> = tokens.iter().map(|t| t.as_u16()).collect();
    assert_eq!(units, vec![69, 88, 69, 0, 97]);
    assert!(tokens[3].is_next_arg());
    assert!(!tokens[0].is_next_arg());
}

#[test]
fn no_marker_after_last_argument() {
    let cmdline = wide("a b ");
    let units = null_separated_list_wide(&cmdline);
    assert_eq!(units, vec![97, 0, 98]);
}

#[test]
fn empty_line_has_no_tokens() {
    let cmdline = vec![0u16];
    assert_eq!(null_separated_list_wide(&cmdline), Vec::<u16>::new());
    let mut args = args_native(&cmdline);
    assert!(args.next().is_none());
}

#[test]
fn lone_space_opens_empty_zeroth() {
    // a leading space opens an empty zeroth argument even though the token
    // stream stays empty
    let cmdline = wide(" ");
    assert_eq!(null_separated_list_wide(&cmdline), Vec::<u16>::new());
    let mut args = args_native(&cmdline);
    let arg = args.next().expect("one argument");
    assert_eq!(arg.utf16_units(), Vec::<u16>::new());
    assert!(args.next().is_none());
}

#[test]
fn interior_nul_ends_the_line() {
    let mut cmdline = wide("a b");
    cmdline[1] = 0;
    assert_eq!(null_separated_list_wide(&cmdline), vec![97]);
}

#[test]
fn argument_views() {
    let cmdline = wide(r#"EXE "a b" c"#);
    let mut args = args_native(&cmdline);

    let zeroth = args.next().expect("zeroth");
    assert!(zeroth.eq(&[69, 88, 69]));
    let s: String = zeroth.scalars().into_iter().collect();
    assert_eq!(s, "EXE");

    let first = args.next().expect("first");
    let s: String = first.scalars().into_iter().collect();
    assert_eq!(s, "a b");
    let raw: Vec<u16> = first.raw_arg().to_vec();
    let raw_text: String = String::from_utf16(&raw).expect("valid");
    assert_eq!(raw_text, r#""a b" c"#);

    let second = args.next().expect("second");
    assert_eq!(second.utf16_units(), vec![99]);
    assert!(args.next().is_none());
}

#[test]
fn handle_equality_compares_parsed_streams() {
    // equal parsed streams from different spellings compare equal
    let cmdline = wide(r#"EXE ab "a"b"#);
    let mut args = args_native(&cmdline);
    let zeroth = args.next().expect("zeroth");
    let first = args.next().expect("first");
    let second = args.next().expect("second");
    assert!(first == second);
    assert!(zeroth != first);
}

#[test]
fn comparing_with_text() {
    let cmdline = wide(r#"EXE "a 😅""#);
    let mut args = args_native(&cmdline);
    let zeroth = args.next().expect("zeroth");
    assert!(zeroth.eq_str("EXE"));
    assert!(!zeroth.eq_str("EXEC"));
    let first = args.next().expect("first");
    assert!(first.eq_str("a 😅"));
    assert!(!first.eq_str("a "));
}

#[test]
fn scalars_and_code_points() {
    // 😅 is the surrogate pair D83D DE05
    let cmdline = wide("EXE 😅");
    let mut args = args_native(&cmdline);
    args.next().expect("zeroth");
    let arg = args.next().expect("first");
    assert_eq!(arg.utf16_units(), vec![0xD83D, 0xDE05]);
    assert_eq!(arg.code_points(), vec![0x1F605]);
    assert_eq!(arg.scalars(), vec!['😅']);
}

#[test]
fn unpaired_surrogates_are_kept_and_replaced() {
    // an unpaired high surrogate passes through the parser unchanged
    let cmdline = vec![97, 32, 0xD83D, 98, 0];
    let mut args = args_native(&cmdline);
    args.next().expect("zeroth");
    let arg = args.next().expect("first");
    assert_eq!(arg.utf16_units(), vec![0xD83D, 98]);
    assert_eq!(arg.code_points(), vec![0xD83D, 98]);
    assert_eq!(arg.scalars(), vec!['\u{FFFD}', 'b']);
}

#[test]
fn null_separated_scalars() {
    let cmdline = wide("EXE b");
    let text: String = null_separated_list(&cmdline).into_iter().collect();
    assert_eq!(text, "EXE\0b");
}

#[test]
fn argument_count_matches_markers() {
    // the number of arguments is the number of boundary markers, plus one
    // once any unit is emitted
    for line in ["EXE", "EXE a b", r#"EXE "" ada "" x"#, "a  b\tc "] {
        let cmdline = wide(line);
        let units = null_separated_list_wide(&cmdline);
        let zeros = units.iter().filter(|&&u| u == 0).count();
        let any_unit = units.iter().any(|&u| u != 0);
        let mut n = 0;
        let mut args = args_native(&cmdline);
        while args.next().is_some() {
            n += 1;
        }
        assert_eq!(n, zeros + if any_unit { 1 } else { 0 }, "for {:?}", line);
    }
}

#[test]
fn splitting_the_stream_recovers_the_arguments() {
    for line in ["EXE", r#"EXE "a b" "" c"#, " lead", "tail "] {
        let cmdline = wide(line);
        let units = null_separated_list_wide(&cmdline);
        let pieces: Vec<Vec<u16>> = units.split(|&u| u == 0).map(|p| p.to_vec()).collect();
        let mut bodies: Vec<Vec<u16>> = Vec::new();
        let mut args = args_native(&cmdline);
        while let Some(arg) = args.next() {
            bodies.push(arg.utf16_units());
        }
        assert_eq!(pieces, bodies, "for {:?}", line);
    }
}

#[test]
fn quote_arg_roundtrip() {
    for body in [
        "",
        "plain",
        "with space",
        r#"quo"te"#,
        r"trailing\",
        r"run\\\",
        r#"mix \" of\\ all" "#,
        "\ttab",
    ] {
        let body_units: Vec<u16> = body.encode_utf16().collect();
        let quoted = quote_arg(&body_units);
        // feed the quoted form as the sole argument after a program name
        let mut cmdline: Vec<u16> = "X ".encode_utf16().collect();
        cmdline.extend(quoted);
        cmdline.push(0);
        let mut args = args_native(&cmdline);
        args.next().expect("zeroth");
        let arg = args.next().expect("the quoted argument");
        assert!(arg.eq(&body_units), "round trip failed for {:?}", body);
        assert!(args.next().is_none());
    }
}

#[test]
fn quote_arg_exact_form() {
    let body: Vec<u16> = r#"a\"b"#.encode_utf16().collect();
    let quoted = quote_arg(&body);
    let text = String::from_utf16(&quoted).expect("valid");
    assert_eq!(text, r#""a\\\"b""#);
}
