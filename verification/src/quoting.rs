//! Quoting an argument so that parsing gives it back.
//!
//! [`quote_arg`] wraps an argument in quotes and escapes its interior: each
//! run of `n` backslashes becomes `2n + 1` backslashes before a quote of
//! the argument (escaping the quote), `2n` at the very end (so the closing
//! quote is not escaped) and stays `n` anywhere else. The law proved here,
//! [`lemma_quote_roundtrip`], says that parsing the quoted form as a lone,
//! non-zeroth argument reproduces the original exactly. The zeroth argument
//! is excluded: its simplified rules leave backslashes alone, so no escaping
//! scheme can round-trip through it.

use vstd::prelude::*;
use crate::model::{
    arg_end, arg_end_q, arg_scan, arg_units, args_from, clean, content, esc_units, is_ws,
    lemma_content, lemma_slashes_from, lemma_slashes_from_exact, parse_cmdline, repeat_slash,
    skip_ws, slashes_from, QUOTE, SLASH, SPACE,
};

verus! {

/// The quoted body of an argument: backslash runs doubled in front of a
/// quote or at the end, quotes escaped, everything else as it stands.
pub open spec fn quote_body(b: Seq<u16>) -> Seq<u16>
    decreases b.len(),
{
    if b.len() == 0 {
        Seq::empty()
    } else {
        let n = slashes_from(b, 0) as int;
        if n >= b.len() {
            repeat_slash((2 * n) as nat)
        } else if b[n] == QUOTE {
            repeat_slash((2 * n + 1) as nat) + seq![QUOTE] + quote_body(b.skip(n + 1))
        } else {
            repeat_slash(n as nat) + seq![b[n]] + quote_body(b.skip(n + 1))
        }
    }
}

/// An argument quoted so that it re-parses to itself: the escaped body,
/// wrapped in quotes.
pub open spec fn spec_quote(b: Seq<u16>) -> Seq<u16> {
    seq![QUOTE] + quote_body(b) + seq![QUOTE]
}

/// Quote `arg` so that parsing the result as a single (non-zeroth)
/// argument yields `arg` again, whatever quotes, backslashes or whitespace
/// it holds.
pub fn quote_arg(arg: &[u16]) -> (r: Vec<u16>)
    ensures
        r@ == spec_quote(arg@),
{
    let n = arg.len();
    let mut out: Vec<u16> = Vec::new();
    out.push(QUOTE);
    let mut i: usize = 0;
    proof {
        assert(arg@.skip(0) =~= arg@);
        assert(out@ + quote_body(arg@) =~= seq![QUOTE] + quote_body(arg@));
    }
    while i < n
        invariant
            n == arg@.len(),
            0 <= i <= n,
            out@ + quote_body(arg@.skip(i as int)) == seq![QUOTE] + quote_body(arg@),
        decreases n - i,
    {
        let ghost t = arg@.skip(i as int);
        // length of the backslash run starting at `i`
        let mut k: usize = 0;
        while i + k < n && arg[i + k] == SLASH
            invariant
                n == arg@.len(),
                0 <= i <= n,
                i + k <= n,
                forall|j: int| 0 <= j < k ==> #[trigger] arg@[i + j] == SLASH,
            decreases n - i - k,
        {
            k = k + 1;
        }
        proof {
            assert forall|j: int| 0 <= j < k implies t[j] == SLASH by {
                assert(t[j] == arg@[i + j]);
            }
            if i + k < n {
                assert(t[k as int] == arg@[i + k]);
            }
            lemma_slashes_from_exact(t, 0, k as int);
        }
        if i + k == n {
            // trailing backslashes: double them, so the closing quote added
            // at the end is not escaped
            let ghost base = out@;
            let mut m: usize = 0;
            while m < k
                invariant
                    m <= k,
                    out@ == base + repeat_slash((2 * m) as nat),
                decreases k - m,
            {
                out.push(SLASH);
                out.push(SLASH);
                m = m + 1;
                proof {
                    assert(out@ =~= base + repeat_slash((2 * m) as nat));
                }
            }
            i = i + k;
            proof {
                assert(quote_body(t) == repeat_slash((2 * k) as nat));
                assert(arg@.skip(i as int) =~= Seq::<u16>::empty());
                assert(quote_body(arg@.skip(i as int)) == Seq::<u16>::empty());
                assert(out@ + quote_body(arg@.skip(i as int)) =~= base + quote_body(t));
            }
        } else if arg[i + k] == QUOTE {
            // a quote of the argument: double the run and escape the quote
            let ghost base = out@;
            let mut m: usize = 0;
            while m < k
                invariant
                    m <= k,
                    out@ == base + repeat_slash((2 * m) as nat),
                decreases k - m,
            {
                out.push(SLASH);
                out.push(SLASH);
                m = m + 1;
                proof {
                    assert(out@ =~= base + repeat_slash((2 * m) as nat));
                }
            }
            out.push(SLASH);
            out.push(QUOTE);
            i = i + k + 1;
            proof {
                assert(quote_body(t) == repeat_slash((2 * k + 1) as nat) + seq![QUOTE]
                    + quote_body(t.skip(k + 1)));
                assert(t.skip(k + 1) =~= arg@.skip(i as int));
                assert(out@ =~= base + repeat_slash((2 * k + 1) as nat) + seq![QUOTE]);
                assert(out@ + quote_body(arg@.skip(i as int)) =~= base + quote_body(t));
            }
        } else {
            // any other unit: the run stays as it is
            let c = arg[i + k];
            let ghost base = out@;
            let mut m: usize = 0;
            while m < k
                invariant
                    m <= k,
                    out@ == base + repeat_slash(m as nat),
                decreases k - m,
            {
                out.push(SLASH);
                m = m + 1;
                proof {
                    assert(out@ =~= base + repeat_slash(m as nat));
                }
            }
            out.push(c);
            i = i + k + 1;
            proof {
                assert(quote_body(t) == repeat_slash(k as nat) + seq![t[k as int]] + quote_body(
                    t.skip(k + 1),
                ));
                assert(t.skip(k + 1) =~= arg@.skip(i as int));
                assert(out@ =~= base + repeat_slash(k as nat) + seq![t[k as int]]);
                assert(out@ + quote_body(arg@.skip(i as int)) =~= base + quote_body(t));
            }
        }
    }
    out.push(QUOTE);
    proof {
        assert(arg@.skip(n as int) =~= Seq::<u16>::empty());
        assert(quote_body(Seq::<u16>::empty()) == Seq::<u16>::empty());
        assert(out@ =~= spec_quote(arg@));
    }
    out
}

/// Parsing the quoted body, from inside quote mode, emits the original
/// argument, consumes the line to its end — where the closing quote has
/// toggled quote mode off again.
proof fn lemma_quote_body_parse(s: Seq<u16>, i: int, b: Seq<u16>)
    requires
        0 <= i,
        i + quote_body(b).len() + 1 == s.len(),
        forall|j: int| 0 <= j < quote_body(b).len() ==> s[i + j] == quote_body(b)[j],
        s[s.len() - 1] == QUOTE,
    ensures
        arg_units(s, i, true, false) == b,
        arg_end(s, i, true, false) == s.len(),
        arg_end_q(s, i, true, false) == false,
    decreases b.len(),
{
    lemma_slashes_from(b, 0);
    let qb = quote_body(b);
    let len = s.len() as int;
    if b.len() == 0 {
        assert(s[i] == QUOTE);
        assert(arg_scan(s, i + 1, false, false) == (Seq::<u16>::empty(), len, false));
        assert(arg_scan(s, i, true, false) == arg_scan(s, i + 1, false, false));
        assert(arg_units(s, i, true, false) =~= b);
    } else {
        let n = slashes_from(b, 0) as int;
        if n >= b.len() {
            // the whole argument is backslashes: `2n` of them, then the
            // closing quote, which the even run leaves free to toggle
            assert(n == b.len());
            assert(qb == repeat_slash((2 * n) as nat));
            assert forall|j: int| i <= j < i + 2 * n implies s[j] == SLASH by {
                assert(s[i + (j - i)] == qb[j - i]);
            }
            assert(s[i + 2 * n] == QUOTE);
            lemma_slashes_from_exact(s, i, 2 * n);
            assert(arg_scan(s, i + 2 * n + 1, false, false) == (Seq::<u16>::empty(), len, false));
            assert(arg_scan(s, i + 2 * n, true, false) == arg_scan(s, i + 2 * n + 1, false, false));
            assert(arg_units(s, i, true, false) == esc_units(s, i) + arg_units(
                s,
                i + 2 * n,
                true,
                false,
            ));
            assert(arg_units(s, i, true, false) =~= b);
        } else if b[n] == QUOTE {
            // `2n + 1` backslashes then the escaped quote: the odd run
            // emits `n` backslashes and the quote as a literal
            let bb = b.skip(n + 1);
            assert(qb == repeat_slash((2 * n + 1) as nat) + seq![QUOTE] + quote_body(bb));
            assert forall|j: int| i <= j < i + 2 * n + 1 implies s[j] == SLASH by {
                assert(s[i + (j - i)] == qb[j - i]);
            }
            assert(s[i + (2 * n + 1)] == qb[2 * n + 1]);
            assert(s[i + 2 * n + 1] == QUOTE);
            lemma_slashes_from_exact(s, i, 2 * n + 1);
            assert forall|j: int| 0 <= j < quote_body(bb).len() implies s[i + 2 * n + 2 + j]
                == quote_body(bb)[j] by {
                assert(s[i + (2 * n + 2 + j)] == qb[2 * n + 2 + j]);
                assert(qb[2 * n + 2 + j] == quote_body(bb)[j]);
            }
            lemma_quote_body_parse(s, i + 2 * n + 2, bb);
            assert(arg_units(s, i, true, false) == esc_units(s, i) + arg_units(
                s,
                i + 2 * n + 2,
                true,
                false,
            ));
            assert forall|j: int| 0 <= j < b.len() implies b[j] == (repeat_slash(n as nat)
                + seq![QUOTE] + bb)[j] by {
                if j > n {
                    assert(bb[j - n - 1] == b[j]);
                }
            }
            assert(arg_units(s, i, true, false) =~= b);
        } else {
            // `n` backslashes then an ordinary unit: the run is literal
            let bb = b.skip(n + 1);
            let c = b[n];
            assert(qb == repeat_slash(n as nat) + seq![c] + quote_body(bb));
            assert forall|j: int| i <= j < i + n implies s[j] == SLASH by {
                assert(s[i + (j - i)] == qb[j - i]);
            }
            assert(s[i + n] == qb[n]);
            assert(qb[n] == c);
            assert(c != SLASH && c != QUOTE);
            assert forall|j: int| 0 <= j < quote_body(bb).len() implies s[i + n + 1 + j]
                == quote_body(bb)[j] by {
                assert(s[i + (n + 1 + j)] == qb[n + 1 + j]);
                assert(qb[n + 1 + j] == quote_body(bb)[j]);
            }
            lemma_quote_body_parse(s, i + n + 1, bb);
            assert(arg_units(s, i + n, true, false) == seq![c] + arg_units(
                s,
                i + n + 1,
                true,
                false,
            ));
            assert(arg_end(s, i + n, true, false) == len);
            assert(arg_end_q(s, i + n, true, false) == false);
            assert forall|j: int| 0 <= j < b.len() implies b[j] == (repeat_slash(n as nat)
                + seq![c] + bb)[j] by {
                if j > n {
                    assert(bb[j - n - 1] == b[j]);
                }
            }
            if n == 0 {
                assert(arg_units(s, i, true, false) =~= b);
            } else {
                lemma_slashes_from_exact(s, i, n);
                assert(arg_units(s, i, true, false) == esc_units(s, i) + arg_units(
                    s,
                    i + n,
                    true,
                    false,
                ));
                assert(arg_units(s, i, true, false) =~= b);
            }
        }
    }
}

/// Quoting any argument and parsing the result as a command line holding a
/// single, non-zeroth argument reproduces the argument exactly: whatever
/// backslashes, quotes or whitespace the argument holds, the round trip is
/// the identity.
pub proof fn lemma_quote_roundtrip(b: Seq<u16>)
    ensures
        args_from(spec_quote(b), 0, false) == seq![b],
{
    let s = spec_quote(b);
    assert(s[0] == QUOTE);
    assert(s[s.len() - 1] == QUOTE);
    assert forall|j: int| 0 <= j < quote_body(b).len() implies s[1 + j] == quote_body(b)[j] by {
        assert((seq![QUOTE] + quote_body(b))[1 + j] == quote_body(b)[j]);
    }
    lemma_quote_body_parse(s, 1, b);
    assert(arg_scan(s, 0, false, false) == arg_scan(s, 1, true, false));
    assert(arg_units(s, 0, false, false) == b);
    assert(arg_end(s, 0, false, false) == s.len());
    assert(skip_ws(s, s.len() as int) == s.len());
    assert(args_from(s, s.len() as int, false) =~= Seq::<Seq<u16>>::empty());
    assert(args_from(s, 0, false) =~= seq![b]);
}

/// Up to the separating whitespace, the zeroth argument is emitted
/// verbatim: its simplified rules leave backslashes alone, and without
/// quotes nothing else is special.
proof fn lemma_zeroth_prefix(s: Seq<u16>, i: int, m: int)
    requires
        0 <= i <= m < s.len(),
        forall|j: int| 0 <= j < m ==> !is_ws(#[trigger] s[j]) && s[j] != QUOTE,
        is_ws(s[m]),
    ensures
        arg_end(s, i, false, true) == m,
        arg_end_q(s, i, false, true) == false,
        arg_units(s, i, false, true) == s.subrange(i, m),
    decreases m - i,
{
    if i == m {
        assert(arg_units(s, i, false, true) =~= s.subrange(i, m));
    } else {
        lemma_zeroth_prefix(s, i + 1, m);
        assert(arg_units(s, i, false, true) =~= s.subrange(i, m));
    }
}

/// A whole command line made of a program name, a space and the quoted
/// argument parses to exactly those two arguments. The program name may
/// hold backslashes — the zeroth argument takes them literally — but no
/// whitespace, quotes or zeros.
pub proof fn lemma_quote_roundtrip_line(p: Seq<u16>, b: Seq<u16>)
    requires
        clean(p),
        p.len() > 0,
        forall|j: int| 0 <= j < p.len() ==> !is_ws(#[trigger] p[j]) && p[j] != QUOTE,
        clean(b),
    ensures
        parse_cmdline(p + seq![SPACE] + spec_quote(b)) == seq![p, b],
{
    let s = p + seq![SPACE] + spec_quote(b);
    let m = p.len() as int;
    let qb = quote_body(b);
    lemma_quote_body_clean(b);
    assert(clean(s));
    lemma_content(s);
    assert(forall|j: int| 0 <= j < m ==> s[j] == p[j]);
    assert(s[m] == SPACE);
    lemma_zeroth_prefix(s, 0, m);
    assert(arg_units(s, 0, false, true) =~= p);
    // the single space separates; the quoted argument starts right after
    assert(s[m + 1] == QUOTE) by {
        assert(s[m + 1] == spec_quote(b)[0]);
    }
    assert(skip_ws(s, m + 1) == m + 1);
    assert(skip_ws(s, m) == m + 1);
    // the opening quote toggles, and the body parses back to `b`
    assert forall|j: int| 0 <= j < qb.len() implies s[m + 2 + j] == qb[j] by {
        assert(s[m + 2 + j] == spec_quote(b)[1 + j]);
        assert(spec_quote(b)[1 + j] == qb[j]);
    }
    assert(s[s.len() - 1] == QUOTE) by {
        assert(s[s.len() - 1] == spec_quote(b)[spec_quote(b).len() - 1]);
    }
    lemma_quote_body_parse(s, m + 2, b);
    assert(arg_scan(s, m + 1, false, false) == arg_scan(s, m + 2, true, false));
    assert(arg_units(s, m + 1, false, false) == b);
    assert(arg_end(s, m + 1, false, false) == s.len());
    assert(skip_ws(s, s.len() as int) == s.len());
    assert(args_from(s, s.len() as int, false) =~= Seq::<Seq<u16>>::empty());
    assert(args_from(s, m + 1, false) =~= seq![b]);
    assert(args_from(s, 0, true) =~= seq![p, b]);
}

/// With no zero unit in the argument, the quoted form is its own content,
/// so the round trip holds of the null-terminated line as well.
pub proof fn lemma_quote_roundtrip_cmdline(b: Seq<u16>)
    requires
        clean(b),
    ensures
        args_from(content(spec_quote(b)), 0, false) == seq![b],
{
    lemma_quote_clean(b);
    lemma_content(spec_quote(b));
    lemma_quote_roundtrip(b);
}

/// The quoted form of a zero-free argument is zero-free.
proof fn lemma_quote_clean(b: Seq<u16>)
    requires
        clean(b),
    ensures
        clean(spec_quote(b)),
    decreases b.len(),
{
    lemma_quote_body_clean(b);
}

/// The quoted body of a zero-free argument is zero-free.
proof fn lemma_quote_body_clean(b: Seq<u16>)
    requires
        clean(b),
    ensures
        clean(quote_body(b)),
    decreases b.len(),
{
    if b.len() == 0 {
    } else {
        let n = slashes_from(b, 0) as int;
        lemma_slashes_from(b, 0);
        if n >= b.len() {
        } else {
            assert(clean(b.skip(n + 1)));
            lemma_quote_body_clean(b.skip(n + 1));
        }
    }
}

} // verus!
