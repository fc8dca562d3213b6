//! Laws of the parser, stated over the model and proved once for all
//! inputs. Each proof function's statement is the law; the executable
//! surfaces are tied to the same model by their own contracts, so what is
//! proved here holds of what they return.

use vstd::prelude::*;
use crate::model::{
    arg_end, arg_end_q, arg_scan, arg_units, args_from, clean, content, esc_next, esc_units, is_ws,
    lemma_arg_scan_bounds, lemma_args_from_clean, lemma_content, lemma_nul_index,
    lemma_nul_index_exact, lemma_skip_ws, lemma_slashes_from,
    lemma_slashes_from_exact, nul_index, null_sep, parse_cmdline, repeat_slash, run_hits_quote,
    skip_ws, slashes_from, QUOTE, SLASH,
};

verus! {

/// How many code units the arguments hold in all.
pub open spec fn total_units(args: Seq<Seq<u16>>) -> nat
    decreases args.len(),
{
    if args.len() == 0 {
        0
    } else {
        args[0].len() + total_units(args.drop_first())
    }
}

/// Number of occurrences of `u` in `s`.
pub open spec fn count_of(s: Seq<u16>, u: u16) -> nat
    decreases s.len(),
{
    if s.len() == 0 {
        0
    } else {
        (if s[0] == u {
            1nat
        } else {
            0nat
        }) + count_of(s.drop_first(), u)
    }
}

proof fn lemma_count_of_concat(a: Seq<u16>, b: Seq<u16>, u: u16)
    ensures
        count_of(a + b, u) == count_of(a, u) + count_of(b, u),
    decreases a.len(),
{
    if a.len() == 0 {
        assert(a + b =~= b);
    } else {
        assert((a + b).drop_first() =~= a.drop_first() + b);
        lemma_count_of_concat(a.drop_first(), b, u);
    }
}

proof fn lemma_count_of_clean(a: Seq<u16>)
    requires
        clean(a),
    ensures
        count_of(a, 0) == 0,
    decreases a.len(),
{
    if a.len() > 0 {
        assert forall|j: int| 0 <= j < a.drop_first().len() implies a.drop_first()[j] != 0 by {
            assert(a.drop_first()[j] == a[j + 1]);
        }
        lemma_count_of_clean(a.drop_first());
    }
}

/// Joining zero-free arguments with single zeros: the zeros count the
/// boundaries and the rest of the stream is the arguments' units.
proof fn lemma_null_sep_counts(args: Seq<Seq<u16>>)
    requires
        forall|k: int| 0 <= k < args.len() ==> clean(#[trigger] args[k]),
    ensures
        null_sep(args).len() == total_units(args) + if args.len() >= 1 {
            args.len() - 1
        } else {
            0
        },
        count_of(null_sep(args), 0) == if args.len() >= 1 {
            args.len() - 1
        } else {
            0
        },
    decreases args.len(),
{
    if args.len() == 0 {
    } else if args.len() == 1 {
        lemma_count_of_clean(args[0]);
        assert(total_units(args.drop_first()) == 0);
    } else {
        let rest = args.drop_first();
        assert(forall|k: int| 0 <= k < rest.len() ==> clean(#[trigger] rest[k]));
        lemma_null_sep_counts(rest);
        lemma_count_of_concat(args[0] + seq![0u16], null_sep(rest), 0);
        lemma_count_of_concat(args[0], seq![0u16], 0);
        lemma_count_of_clean(args[0]);
        assert(count_of(seq![0u16], 0) == 1) by {
            let z = seq![0u16];
            assert(z.len() == 1);
            assert(z[0] == 0u16);
            assert(z.drop_first() =~= Seq::<u16>::empty());
            assert(count_of(Seq::<u16>::empty(), 0) == 0);
        }
        assert(null_sep(args) == (args[0] + seq![0u16]) + null_sep(rest)) by {
            assert(args[0] + seq![0u16] + null_sep(rest) =~= (args[0] + seq![0u16]) + null_sep(
                rest,
            ));
        }
    }
}

/// The number of arguments a command line parses to is the number of
/// boundary markers in the token stream, plus one for the final argument
/// whenever any unit at all is emitted. The marker is the zero of the
/// null-separated stream. (When every argument is empty no unit is emitted
/// and the count comes from the markers alone, so such lines — a lone
/// space, say — are left out.)
pub proof fn lemma_argument_count(cmd: Seq<u16>)
    requires
        parse_cmdline(cmd).len() == 0 || total_units(parse_cmdline(cmd)) > 0,
    ensures
        parse_cmdline(cmd).len() == count_of(null_sep(parse_cmdline(cmd)), 0) + if total_units(
            parse_cmdline(cmd),
        ) > 0 {
            1int
        } else {
            0int
        },
{
    let args = parse_cmdline(cmd);
    lemma_content(cmd);
    lemma_args_from_clean(content(cmd), 0, true);
    lemma_null_sep_counts(args);
}

/// Splitting a stream on its zeros: the pieces between them, in order.
pub open spec fn split_on_zero(s: Seq<u16>) -> Seq<Seq<u16>>
    decreases s.len(),
{
    if nul_index(s) >= s.len() {
        seq![s]
    } else {
        {
            proof {
                lemma_nul_index(s);
            }
            seq![s.take(nul_index(s))] + split_on_zero(s.skip(nul_index(s) + 1))
        }
    }
}

/// Joining one or more zero-free arguments with single zeros and splitting
/// the result on zero gives the arguments back: the null-separated stream
/// loses nothing.
pub proof fn lemma_split_null_sep(args: Seq<Seq<u16>>)
    requires
        args.len() >= 1,
        forall|k: int| 0 <= k < args.len() ==> clean(#[trigger] args[k]),
    ensures
        split_on_zero(null_sep(args)) == args,
    decreases args.len(),
{
    let t = null_sep(args);
    if args.len() == 1 {
        lemma_nul_index_exact(t, t.len() as int);
        assert(split_on_zero(t) =~= args);
    } else {
        let rest = args.drop_first();
        assert(forall|k: int| 0 <= k < rest.len() ==> clean(#[trigger] rest[k]));
        lemma_split_null_sep(rest);
        assert(t == args[0] + seq![0u16] + null_sep(rest));
        assert forall|j: int| 0 <= j < args[0].len() implies t[j] != 0 by {
            assert(t[j] == args[0][j]);
        }
        assert(t[args[0].len() as int] == 0);
        lemma_nul_index_exact(t, args[0].len() as int);
        assert(t.take(args[0].len() as int) =~= args[0]);
        assert(t.skip(args[0].len() as int + 1) =~= null_sep(rest));
        assert(split_on_zero(t) =~= args);
    }
}

/// Re-assembling the parsed arguments with a synthetic zero between them
/// and splitting that stream on zero yields the same argument bodies as the
/// argument iterator, whenever the line parses to any argument at all.
pub proof fn lemma_roundtrip_split(cmd: Seq<u16>)
    requires
        parse_cmdline(cmd).len() > 0,
    ensures
        split_on_zero(null_sep(parse_cmdline(cmd))) == parse_cmdline(cmd),
{
    lemma_content(cmd);
    lemma_args_from_clean(content(cmd), 0, true);
    lemma_split_null_sep(parse_cmdline(cmd));
}

/// First position at or after `i` that holds separating whitespace, or the
/// end of the line.
pub open spec fn field_end(s: Seq<u16>, i: int) -> int
    decreases s.len() - i,
{
    if 0 <= i < s.len() && !is_ws(s[i]) {
        field_end(s, i + 1)
    } else {
        i
    }
}

pub proof fn lemma_field_end(s: Seq<u16>, i: int)
    requires
        0 <= i <= s.len(),
    ensures
        i <= field_end(s, i) <= s.len(),
    decreases s.len() - i,
{
    if 0 <= i < s.len() && !is_ws(s[i]) {
        lemma_field_end(s, i + 1);
    }
}

/// The naive whitespace split, from position `i`: fields are separated by
/// runs of spaces and tabs, a leading run opens an empty first field, a
/// trailing run adds nothing.
pub open spec fn fields_from(s: Seq<u16>, i: int) -> Seq<Seq<u16>>
    decreases s.len() - i,
{
    if !(0 <= i < s.len()) {
        Seq::empty()
    } else {
        {
            proof {
                lemma_field_end(s, i);
                if is_ws(s[i]) {
                    lemma_skip_ws(s, i + 1);
                } else {
                    lemma_field_end(s, i + 1);
                }
                lemma_skip_ws(s, field_end(s, i));
            }
            seq![s.subrange(i, field_end(s, i))] + fields_from(s, skip_ws(s, field_end(s, i)))
        }
    }
}

/// The naive whitespace split of a whole line.
pub open spec fn naive_split(s: Seq<u16>) -> Seq<Seq<u16>> {
    fields_from(s, 0)
}

/// Without backslashes and quotes, one argument is one whitespace-delimited
/// field, emitted verbatim.
proof fn lemma_plain_arg(s: Seq<u16>, i: int, z: bool)
    requires
        0 <= i <= s.len(),
        forall|j: int| 0 <= j < s.len() ==> s[j] != SLASH && s[j] != QUOTE,
    ensures
        arg_end(s, i, false, z) == field_end(s, i),
        arg_end_q(s, i, false, z) == false,
        arg_units(s, i, false, z) == s.subrange(i, field_end(s, i)),
    decreases s.len() - i,
{
    lemma_field_end(s, i);
    if !(0 <= i < s.len()) {
        assert(arg_units(s, i, false, z) =~= s.subrange(i, field_end(s, i)));
    } else if is_ws(s[i]) {
        assert(arg_units(s, i, false, z) =~= s.subrange(i, field_end(s, i)));
    } else {
        lemma_plain_arg(s, i + 1, z);
        lemma_field_end(s, i + 1);
        assert(s[i] != SLASH && s[i] != QUOTE);
        assert(arg_scan(s, i, false, z).0 == seq![s[i]] + arg_scan(s, i + 1, false, z).0);
        assert(field_end(s, i) == field_end(s, i + 1));
        assert(s.subrange(i, field_end(s, i)) =~= seq![s[i]] + s.subrange(
            i + 1,
            field_end(s, i + 1),
        ));
        assert(arg_units(s, i, false, z) =~= s.subrange(i, field_end(s, i)));
    }
}

/// Without backslashes and quotes, parsing from any position is the naive
/// whitespace split from there.
proof fn lemma_plain_args_from(s: Seq<u16>, i: int, z: bool)
    requires
        0 <= i <= s.len(),
        forall|j: int| 0 <= j < s.len() ==> s[j] != SLASH && s[j] != QUOTE,
    ensures
        args_from(s, i, z) == fields_from(s, i),
    decreases s.len() - i,
{
    if 0 <= i < s.len() {
        lemma_plain_arg(s, i, z);
        lemma_arg_scan_bounds(s, i, false, z);
        lemma_skip_ws(s, arg_end(s, i, false, z));
        lemma_plain_args_from(s, skip_ws(s, arg_end(s, i, false, z)), false);
        assert(args_from(s, i, z) =~= fields_from(s, i));
    }
}

/// A command line without backslashes and quotes parses to exactly the
/// naive whitespace split of its content: quote mode and escape handling
/// change nothing when the units they act on are absent.
pub proof fn lemma_plain_split(cmd: Seq<u16>)
    requires
        forall|j: int|
            0 <= j < content(cmd).len() ==> #[trigger] content(cmd)[j] != SLASH && content(cmd)[j]
                != QUOTE,
    ensures
        parse_cmdline(cmd) == naive_split(content(cmd)),
{
    lemma_content(cmd);
    lemma_plain_args_from(content(cmd), 0, true);
}

/// Quote mode once every argument of the line has been parsed from
/// position `i` on.
pub open spec fn line_end_q(s: Seq<u16>, i: int, q: bool, z: bool) -> bool
    decreases s.len() - i,
{
    if !(0 <= i < s.len()) {
        q
    } else {
        {
            proof {
                lemma_arg_scan_bounds(s, i, q, z);
                if is_ws(s[i]) && !q {
                    lemma_skip_ws(s, i + 1);
                }
                lemma_skip_ws(s, arg_end(s, i, q, z));
            }
            line_end_q(s, skip_ws(s, arg_end(s, i, q, z)), arg_end_q(s, i, q, z), false)
        }
    }
}

/// Number of quotes one argument consumes as quotes — toggles and paired
/// quotes, not the quote that ends an odd backslash run.
pub open spec fn arg_quotes(s: Seq<u16>, i: int, q: bool, z: bool) -> nat
    decreases s.len() - i,
{
    if !(0 <= i < s.len()) {
        0
    } else if is_ws(s[i]) && !q {
        0
    } else if s[i] == SLASH && !z {
        {
            proof {
                assert(slashes_from(s, i) >= 1);
                lemma_slashes_from(s, i);
            }
            arg_quotes(s, esc_next(s, i), q, z)
        }
    } else if s[i] == QUOTE {
        if !z && q && i + 1 < s.len() && s[i + 1] == QUOTE {
            (2 + arg_quotes(s, i + 2, q, z)) as nat
        } else {
            (1 + arg_quotes(s, i + 1, !q, z)) as nat
        }
    } else {
        arg_quotes(s, i + 1, q, z)
    }
}

/// Number of unescaped quotes of the whole line from position `i` on.
pub open spec fn line_quotes(s: Seq<u16>, i: int, q: bool, z: bool) -> nat
    decreases s.len() - i,
{
    if !(0 <= i < s.len()) {
        0
    } else {
        {
            proof {
                lemma_arg_scan_bounds(s, i, q, z);
                if is_ws(s[i]) && !q {
                    lemma_skip_ws(s, i + 1);
                }
                lemma_skip_ws(s, arg_end(s, i, q, z));
            }
            (arg_quotes(s, i, q, z) + line_quotes(
                s,
                skip_ws(s, arg_end(s, i, q, z)),
                arg_end_q(s, i, q, z),
                false,
            )) as nat
        }
    }
}

/// Within one argument, each paired quote consumes two unescaped quotes
/// and each toggle one, so the quote mode at the argument's end is the
/// starting mode flipped by the parity of the unescaped quotes.
proof fn lemma_arg_quote_parity(s: Seq<u16>, i: int, q: bool, z: bool)
    requires
        0 <= i <= s.len(),
    ensures
        arg_end_q(s, i, q, z) == (q != (arg_quotes(s, i, q, z) % 2 == 1)),
    decreases s.len() - i,
{
    if !(0 <= i < s.len()) {
    } else if is_ws(s[i]) && !q {
    } else if s[i] == SLASH && !z {
        lemma_slashes_from(s, i);
        lemma_arg_quote_parity(s, esc_next(s, i), q, z);
    } else if s[i] == QUOTE {
        if !z && q && i + 1 < s.len() && s[i + 1] == QUOTE {
            lemma_arg_quote_parity(s, i + 2, q, z);
        } else {
            lemma_arg_quote_parity(s, i + 1, !q, z);
        }
    } else {
        lemma_arg_quote_parity(s, i + 1, q, z);
    }
}

/// Chaining the per-argument parity across the whole line.
proof fn lemma_line_quote_parity(s: Seq<u16>, i: int, q: bool, z: bool)
    requires
        0 <= i <= s.len(),
    ensures
        line_end_q(s, i, q, z) == (q != (line_quotes(s, i, q, z) % 2 == 1)),
    decreases s.len() - i,
{
    if 0 <= i < s.len() {
        lemma_arg_quote_parity(s, i, q, z);
        lemma_arg_scan_bounds(s, i, q, z);
        if is_ws(s[i]) && !q {
            lemma_skip_ws(s, i + 1);
        }
        lemma_skip_ws(s, arg_end(s, i, q, z));
        lemma_line_quote_parity(s, skip_ws(s, arg_end(s, i, q, z)), arg_end_q(s, i, q, z), false);
    }
}

/// Quote toggling is balanced: the parser's final quote mode is exactly
/// the parity of the quotes it consumes as quotes (those not swallowed as
/// the end of a backslash run), so a line with an even number of unescaped
/// quotes finishes outside quote mode. The model is total, so a trailing
/// unclosed quote merely leaves the mode on and the final argument is
/// still well defined.
pub proof fn lemma_quote_balance(cmd: Seq<u16>)
    ensures
        line_end_q(content(cmd), 0, false, true) == (line_quotes(content(cmd), 0, false, true) % 2
            == 1),
        line_quotes(content(cmd), 0, false, true) % 2 == 0 ==> !line_end_q(
            content(cmd),
            0,
            false,
            true,
        ),
{
    lemma_content(cmd);
    lemma_line_quote_parity(content(cmd), 0, false, true);
}

/// A run of `k` backslashes in front of a quote, outside the zeroth
/// argument, emits `⌊k / 2⌋` backslashes. When `k` is odd the quote
/// follows them as a literal and parsing resumes behind it; when `k` is
/// even the quote is not emitted by the cluster but consumed as a quote —
/// a mode toggle, except that inside quote mode a doubled quote starts the
/// paired-quote escape instead.
pub proof fn lemma_backslash_cluster(s: Seq<u16>, i: int, k: int, q: bool)
    requires
        0 <= i,
        0 <= k,
        i + k < s.len(),
        forall|j: int| i <= j < i + k ==> s[j] == SLASH,
        s[i + k] == QUOTE,
    ensures
        k % 2 == 1 ==> arg_units(s, i, q, false) == repeat_slash((k / 2) as nat) + seq![QUOTE]
            + arg_units(s, i + k + 1, q, false),
        k % 2 == 0 ==> arg_units(s, i, q, false) == repeat_slash((k / 2) as nat) + arg_units(
            s,
            i + k,
            q,
            false,
        ),
        k % 2 == 0 && !(q && i + k + 1 < s.len() && s[i + k + 1] == QUOTE) ==> arg_units(
            s,
            i + k,
            q,
            false,
        ) == arg_units(s, i + k + 1, !q, false),
{
    lemma_slashes_from_exact(s, i, k);
    if k == 0 {
        assert(arg_units(s, i, q, false) =~= repeat_slash(0) + arg_units(s, i, q, false));
    } else {
        assert(s[i] == SLASH);
        assert(run_hits_quote(s, i));
        if k % 2 == 1 {
            assert(arg_scan(s, i, q, false).0 == esc_units(s, i) + arg_scan(
                s,
                i + k + 1,
                q,
                false,
            ).0);
            assert(esc_units(s, i) == repeat_slash((k / 2) as nat) + seq![QUOTE]);
            assert(arg_units(s, i, q, false) =~= repeat_slash((k / 2) as nat) + seq![QUOTE]
                + arg_units(s, i + k + 1, q, false));
        } else {
            assert(arg_scan(s, i, q, false).0 == esc_units(s, i) + arg_scan(s, i + k, q, false).0);
            assert(esc_units(s, i) == repeat_slash((k / 2) as nat));
        }
    }
}

} // verus!

