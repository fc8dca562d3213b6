//! The mathematical model of command-line splitting.
//!
//! Everything here is specification: the executable parser's contracts are
//! stated against these functions. The model works on the *content* of a
//! line — the code units before the first zero — and describes one argument
//! at a time. [`arg_scan`] walks the units of a single argument and returns
//! the units it emits, the position where it ends and the quote mode there;
//! [`args_from`] chains arguments together; [`parse_cmdline`] applies the
//! whole thing to a raw null-terminated line.

use vstd::prelude::*;

verus! {

/// Code unit of the space character.
pub const SPACE: u16 = 32;

/// Code unit of the horizontal tab character.
pub const TAB: u16 = 9;

/// Code unit of the double-quote character.
pub const QUOTE: u16 = 34;

/// Code unit of the backslash character.
pub const SLASH: u16 = 92;

/// Whitespace that separates arguments outside quote mode.
pub open spec fn is_ws(u: u16) -> bool {
    u == SPACE || u == TAB
}

/// Index of the first zero unit of `s`, or `s.len()` when none occurs.
pub open spec fn nul_index(s: Seq<u16>) -> int
    decreases s.len(),
{
    if s.len() == 0 {
        0
    } else if s[0] == 0 {
        0
    } else {
        1 + nul_index(s.drop_first())
    }
}

/// `nul_index` is the first zero: everything before it is nonzero, and it
/// lands on a zero unless it is the length.
pub proof fn lemma_nul_index(s: Seq<u16>)
    ensures
        0 <= nul_index(s) <= s.len(),
        forall|j: int| 0 <= j < nul_index(s) ==> s[j] != 0,
        nul_index(s) < s.len() ==> s[nul_index(s)] == 0,
    decreases s.len(),
{
    if s.len() == 0 {
    } else if s[0] == 0 {
    } else {
        lemma_nul_index(s.drop_first());
        assert forall|j: int| 0 <= j < nul_index(s) implies s[j] != 0 by {
            if j > 0 {
                assert(s.drop_first()[j - 1] == s[j]);
            }
        }
        if nul_index(s) < s.len() {
            assert(s.drop_first()[nul_index(s) - 1] == s[nul_index(s)]);
        }
    }
}

/// A position before which everything is nonzero, and which holds a zero
/// unless it is the length, is the first zero.
pub proof fn lemma_nul_index_exact(s: Seq<u16>, m: int)
    requires
        0 <= m <= s.len(),
        forall|j: int| 0 <= j < m ==> s[j] != 0,
        m < s.len() ==> s[m] == 0,
    ensures
        nul_index(s) == m,
{
    lemma_nul_index(s);
    if nul_index(s) < m {
        assert(s[nul_index(s)] != 0);
    }
}

/// The units of `s` before its first zero: what the parser reads.
pub open spec fn content(s: Seq<u16>) -> Seq<u16> {
    s.take(nul_index(s))
}

/// True when no unit of `s` is zero.
pub open spec fn clean(s: Seq<u16>) -> bool {
    forall|j: int| 0 <= j < s.len() ==> s[j] != 0
}

/// The content of a line never holds a zero, and taking the content of a
/// zero-free line changes nothing.
pub proof fn lemma_content(s: Seq<u16>)
    ensures
        content(s).len() == nul_index(s) <= s.len(),
        clean(content(s)),
        forall|j: int| 0 <= j < nul_index(s) ==> content(s)[j] == s[j],
        clean(s) ==> content(s) == s,
{
    lemma_nul_index(s);
    if clean(s) {
        assert(nul_index(s) == s.len());
        assert(content(s) =~= s);
    }
}

/// Number of consecutive backslashes starting at position `i`.
pub open spec fn slashes_from(s: Seq<u16>, i: int) -> nat
    decreases s.len() - i,
{
    if 0 <= i < s.len() && s[i] == SLASH {
        (1 + slashes_from(s, i + 1)) as nat
    } else {
        0
    }
}

/// The run of backslashes starting at `i` lies within `s`, consists of
/// backslashes only, and is maximal to the right.
pub proof fn lemma_slashes_from(s: Seq<u16>, i: int)
    requires
        0 <= i <= s.len(),
    ensures
        i + slashes_from(s, i) <= s.len(),
        forall|j: int| i <= j < i + slashes_from(s, i) ==> s[j] == SLASH,
        i + slashes_from(s, i) < s.len() ==> s[i + slashes_from(s, i)] != SLASH,
    decreases s.len() - i,
{
    if 0 <= i < s.len() && s[i] == SLASH {
        lemma_slashes_from(s, i + 1);
    }
}

/// A run of `k` backslashes at `i` that stops at `i + k` is exactly what
/// `slashes_from` counts.
pub proof fn lemma_slashes_from_exact(s: Seq<u16>, i: int, k: int)
    requires
        0 <= i,
        0 <= k,
        i + k <= s.len(),
        forall|j: int| i <= j < i + k ==> s[j] == SLASH,
        i + k == s.len() || s[i + k] != SLASH,
    ensures
        slashes_from(s, i) == k,
{
    lemma_slashes_from(s, i);
    if slashes_from(s, i) > k {
        assert(s[i + k] == SLASH);
    }
    if slashes_from(s, i) < k {
        assert(s[i + slashes_from(s, i)] == SLASH);
    }
}

/// `n` backslashes in a row.
pub open spec fn repeat_slash(n: nat) -> Seq<u16> {
    Seq::new(n, |j: int| SLASH)
}

/// True when the backslash run starting at `i` is followed by a quote.
pub open spec fn run_hits_quote(s: Seq<u16>, i: int) -> bool {
    let j = i + slashes_from(s, i);
    j < s.len() && s[j] == QUOTE
}

/// Units that the backslash run starting at `i` contributes to the argument:
/// `k` backslashes before a quote collapse to `k / 2`, plus a literal quote
/// when `k` is odd; a run not followed by a quote is emitted verbatim.
pub open spec fn esc_units(s: Seq<u16>, i: int) -> Seq<u16> {
    let k = slashes_from(s, i);
    if run_hits_quote(s, i) {
        if k % 2 == 1 {
            repeat_slash((k / 2) as nat) + seq![QUOTE]
        } else {
            repeat_slash((k / 2) as nat)
        }
    } else {
        repeat_slash(k)
    }
}

/// Position of the next unit the parser inspects after the run at `i`: past
/// the run, and also past the quote when the run's length is odd (the quote
/// was emitted as a literal).
pub open spec fn esc_next(s: Seq<u16>, i: int) -> int {
    let k = slashes_from(s, i);
    if run_hits_quote(s, i) && k % 2 == 1 {
        i + k + 1
    } else {
        i + k
    }
}

/// One argument, scanned from position `i` with quote mode `q`; `z` tells
/// whether this is the zeroth argument (backslashes literal, no paired-quote
/// escape). Returns the units the argument emits, the position at which it
/// ends (a separating whitespace, or the end of the line) and the quote mode
/// there.
pub open spec fn arg_scan(s: Seq<u16>, i: int, q: bool, z: bool) -> (Seq<u16>, int, bool)
    decreases s.len() - i,
{
    if !(0 <= i < s.len()) {
        (Seq::empty(), s.len() as int, q)
    } else if is_ws(s[i]) && !q {
        (Seq::empty(), i, q)
    } else if s[i] == SLASH && !z {
        {
            proof {
                assert(slashes_from(s, i) >= 1);
                lemma_slashes_from(s, i);
            }
            let rest = arg_scan(s, esc_next(s, i), q, z);
            (esc_units(s, i) + rest.0, rest.1, rest.2)
        }
    } else if s[i] == QUOTE {
        if !z && q && i + 1 < s.len() && s[i + 1] == QUOTE {
            let rest = arg_scan(s, i + 2, q, z);
            (seq![QUOTE] + rest.0, rest.1, rest.2)
        } else {
            arg_scan(s, i + 1, !q, z)
        }
    } else {
        let rest = arg_scan(s, i + 1, q, z);
        (seq![s[i]] + rest.0, rest.1, rest.2)
    }
}

/// The units one argument emits, starting at `i`.
pub open spec fn arg_units(s: Seq<u16>, i: int, q: bool, z: bool) -> Seq<u16> {
    arg_scan(s, i, q, z).0
}

/// The position at which the argument starting at `i` ends.
pub open spec fn arg_end(s: Seq<u16>, i: int, q: bool, z: bool) -> int {
    arg_scan(s, i, q, z).1
}

/// The quote mode when the argument starting at `i` ends.
pub open spec fn arg_end_q(s: Seq<u16>, i: int, q: bool, z: bool) -> bool {
    arg_scan(s, i, q, z).2
}

/// First position at or after `i` that does not hold separating whitespace.
pub open spec fn skip_ws(s: Seq<u16>, i: int) -> int
    decreases s.len() - i,
{
    if 0 <= i < s.len() && is_ws(s[i]) {
        skip_ws(s, i + 1)
    } else {
        i
    }
}

/// `skip_ws` moves forward over whitespace only and stops at the first
/// position that holds none.
pub proof fn lemma_skip_ws(s: Seq<u16>, i: int)
    requires
        0 <= i <= s.len(),
    ensures
        i <= skip_ws(s, i) <= s.len(),
        forall|j: int| i <= j < skip_ws(s, i) ==> is_ws(s[j]),
        skip_ws(s, i) < s.len() ==> !is_ws(s[skip_ws(s, i)]),
    decreases s.len() - i,
{
    if 0 <= i < s.len() && is_ws(s[i]) {
        lemma_skip_ws(s, i + 1);
    }
}

/// An argument's scan never moves backwards, stays within the line, makes
/// progress unless it starts on separating whitespace, and stops either at
/// the end of the line or on separating whitespace with quote mode off.
pub proof fn lemma_arg_scan_bounds(s: Seq<u16>, i: int, q: bool, z: bool)
    requires
        0 <= i <= s.len(),
    ensures
        i <= arg_end(s, i, q, z) <= s.len(),
        !(i < s.len() && is_ws(s[i]) && !q) && i < s.len() ==> arg_end(s, i, q, z) >= i + 1,
        arg_end(s, i, q, z) < s.len() ==> is_ws(s[arg_end(s, i, q, z)]) && !arg_end_q(s, i, q, z),
    decreases s.len() - i,
{
    if !(0 <= i < s.len()) {
    } else if is_ws(s[i]) && !q {
    } else if s[i] == SLASH && !z {
        lemma_slashes_from(s, i);
        lemma_arg_scan_bounds(s, esc_next(s, i), q, z);
    } else if s[i] == QUOTE {
        if !z && q && i + 1 < s.len() && s[i + 1] == QUOTE {
            lemma_arg_scan_bounds(s, i + 2, q, z);
        } else {
            lemma_arg_scan_bounds(s, i + 1, !q, z);
        }
    } else {
        lemma_arg_scan_bounds(s, i + 1, q, z);
    }
}

/// On a zero-free line an argument emits no zero unit.
pub proof fn lemma_arg_scan_clean(s: Seq<u16>, i: int, q: bool, z: bool)
    requires
        clean(s),
        0 <= i <= s.len(),
    ensures
        clean(arg_units(s, i, q, z)),
    decreases s.len() - i,
{
    if !(0 <= i < s.len()) {
    } else if is_ws(s[i]) && !q {
    } else if s[i] == SLASH && !z {
        lemma_slashes_from(s, i);
        lemma_arg_scan_clean(s, esc_next(s, i), q, z);
        assert forall|j: int| 0 <= j < arg_units(s, i, q, z).len() implies arg_units(s, i, q, z)[j]
            != 0 by {
            let e = esc_units(s, i);
            if j < e.len() {
                assert(e[j] == SLASH || e[j] == QUOTE);
            }
        }
    } else if s[i] == QUOTE {
        if !z && q && i + 1 < s.len() && s[i + 1] == QUOTE {
            lemma_arg_scan_clean(s, i + 2, q, z);
        } else {
            lemma_arg_scan_clean(s, i + 1, !q, z);
        }
    } else {
        lemma_arg_scan_clean(s, i + 1, q, z);
    }
}

/// All arguments from position `i` on, `z` telling whether the first of them
/// is the zeroth. Each argument starts with quote mode off; after it ends,
/// the separating whitespace is skipped.
pub open spec fn args_from(s: Seq<u16>, i: int, z: bool) -> Seq<Seq<u16>>
    decreases s.len() - i,
{
    if !(0 <= i < s.len()) {
        Seq::empty()
    } else {
        {
            proof {
                lemma_arg_scan_bounds(s, i, false, z);
                lemma_skip_ws(s, arg_end(s, i, false, z));
            }
            seq![arg_units(s, i, false, z)] + args_from(s, skip_ws(s, arg_end(s, i, false, z)), false)
        }
    }
}

/// The raw tails of the arguments from position `i` on: for each argument,
/// the unparsed rest of the line from the argument's first unit.
pub open spec fn raw_tails(s: Seq<u16>, i: int, z: bool) -> Seq<Seq<u16>>
    decreases s.len() - i,
{
    if !(0 <= i < s.len()) {
        Seq::empty()
    } else {
        {
            proof {
                lemma_arg_scan_bounds(s, i, false, z);
                lemma_skip_ws(s, arg_end(s, i, false, z));
            }
            seq![s.skip(i)] + raw_tails(s, skip_ws(s, arg_end(s, i, false, z)), false)
        }
    }
}

/// The arguments of a raw null-terminated command line.
pub open spec fn parse_cmdline(s: Seq<u16>) -> Seq<Seq<u16>> {
    args_from(content(s), 0, true)
}

/// Arguments joined by a single zero unit, with no trailing zero.
pub open spec fn null_sep(args: Seq<Seq<u16>>) -> Seq<u16>
    decreases args.len(),
{
    if args.len() == 0 {
        Seq::empty()
    } else if args.len() == 1 {
        args[0]
    } else {
        args[0] + seq![0u16] + null_sep(args.drop_first())
    }
}

/// On a zero-free line every parsed argument is zero-free.
pub proof fn lemma_args_from_clean(s: Seq<u16>, i: int, z: bool)
    requires
        clean(s),
        0 <= i <= s.len(),
    ensures
        forall|k: int|
            0 <= k < args_from(s, i, z).len() ==> clean(#[trigger] args_from(s, i, z)[k]),
    decreases s.len() - i,
{
    if 0 <= i < s.len() {
        lemma_arg_scan_clean(s, i, false, z);
        lemma_arg_scan_bounds(s, i, false, z);
        lemma_skip_ws(s, arg_end(s, i, false, z));
        lemma_args_from_clean(s, skip_ws(s, arg_end(s, i, false, z)), false);
        assert forall|k: int| 0 <= k < args_from(s, i, z).len() implies clean(
            #[trigger] args_from(s, i, z)[k],
        ) by {
            if k > 0 {
                assert(args_from(s, i, z)[k] == args_from(
                    s,
                    skip_ws(s, arg_end(s, i, false, z)),
                    false,
                )[k - 1]);
            }
        }
    }
}

/// Unfolding `null_sep` at the front: the first argument, then — when more
/// remain — a zero and the rest.
pub proof fn lemma_null_sep_unfold(args: Seq<Seq<u16>>)
    requires
        args.len() >= 1,
    ensures
        null_sep(args) == args[0] + if args.len() > 1 {
            seq![0u16] + null_sep(args.drop_first())
        } else {
            Seq::<u16>::empty()
        },
{
    if args.len() == 1 {
        assert(null_sep(args) =~= args[0] + Seq::<u16>::empty());
    }
}

} // verus!
