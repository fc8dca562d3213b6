//! Argument handles and the argument iterator.
//!
//! [`ArgsNative`] walks the command line one argument at a time. Each call
//! of [`ArgsNative::next`] snapshots the position where the next argument
//! starts into an [`Argument`] handle and moves the internal parser past
//! that argument. A handle is independent of the iterator: it re-parses its
//! argument on demand, as 16-bit code units, code points or scalar values,
//! and can also hand out the raw, unparsed rest of the line.

use vstd::prelude::*;
use crate::cursor::Cursor;
use crate::decode::{code_points, encode_wide, scalars, utf16_code_points, utf16_encode, utf16_scalars};
use crate::model::{arg_units, content, parse_cmdline, raw_tails};
use crate::parse::ParseArgs;

verus! {

/// One command-line argument, captured as the position where it starts.
#[derive(Clone, Copy)]
pub struct Argument<'a> {
    arg: Cursor<'a>,
    is_arg0: bool,
}

impl<'a> Argument<'a> {
    /// The snapshotted cursor stands within the line; every handle the
    /// library creates satisfies this.
    #[verifier::type_invariant]
    closed spec fn wf(self) -> bool {
        self.arg.wf()
    }

    /// The parsed 16-bit units of this argument.
    pub closed spec fn units(self) -> Seq<u16> {
        arg_units(self.arg.line(), self.arg.pos(), false, self.is_arg0)
    }

    /// The unparsed rest of the line from this argument's first unit, up to
    /// (and not including) the terminating zero.
    pub closed spec fn raw(self) -> Seq<u16> {
        self.arg.line().skip(self.arg.pos())
    }

    /// The argument's UTF-16 code units, as parsed. May contain unpaired
    /// surrogates.
    pub fn utf16_units(&self) -> (r: Vec<u16>)
        ensures
            r@ == self.units(),
    {
        proof {
            use_type_invariant(&*self);
        }
        let mut p = ParseArgs::new(self.arg, self.is_arg0);
        let mut out: Vec<u16> = Vec::new();
        proof {
            assert(out@ + p.cur_units() =~= self.units());
        }
        loop
            invariant
                p.wf(),
                out@ + p.cur_units() == self.units(),
            ensures
                out@ == self.units(),
            decreases p.cur_units().len(),
        {
            match p.next() {
                Some(u) => {
                    out.push(u);
                    proof {
                        assert(out@ + p.cur_units() =~= self.units());
                    }
                },
                None => {
                    proof {
                        assert(out@ =~= self.units());
                    }
                    break;
                },
            }
        }
        out
    }

    /// The argument's code points: surrogate pairs combined, unpaired
    /// surrogates kept as their own value widened to 32 bits.
    pub fn code_points(&self) -> (r: Vec<u32>)
        ensures
            r@ == utf16_code_points(self.units()),
    {
        let units = self.utf16_units();
        code_points(units.as_slice())
    }

    /// The argument's scalar values: unpaired surrogates replaced with
    /// U+FFFD.
    pub fn scalars(&self) -> (r: Vec<char>)
        ensures
            r@ == utf16_scalars(self.units()),
    {
        let units = self.utf16_units();
        scalars(units.as_slice())
    }

    /// The rest of the command line from this argument on, as written: a
    /// single unparsed slice that still holds quotes and backslashes.
    pub fn raw_arg(&self) -> (r: &'a [u16])
        ensures
            r@ == self.raw(),
    {
        proof {
            use_type_invariant(&*self);
        }
        self.arg.as_slice()
    }

    /// True when this argument's parsed units are exactly `other`.
    pub fn eq(&self, other: &[u16]) -> (r: bool)
        ensures
            r <==> self.units() == other@,
    {
        let units = self.utf16_units();
        units_eq(units.as_slice(), other)
    }

    /// True when this argument's parsed units are the UTF-16 encoding of
    /// the text `other`.
    pub fn eq_str(&self, other: &str) -> (r: bool)
        ensures
            r <==> self.units() == utf16_encode(other@),
    {
        let units = self.utf16_units();
        let theirs = encode_wide(other);
        units_eq(units.as_slice(), theirs.as_slice())
    }
}

impl<'a> PartialEq for Argument<'a> {
    /// Two handles are equal when their parsed 16-bit streams are equal,
    /// wherever in the line they stand.
    fn eq(&self, other: &Argument<'a>) -> (r: bool) {
        let a = self.utf16_units();
        let b = other.utf16_units();
        units_eq(a.as_slice(), b.as_slice())
    }
}

impl<'a> vstd::std_specs::cmp::PartialEqSpecImpl for Argument<'a> {
    open spec fn obeys_eq_spec() -> bool {
        true
    }

    open spec fn eq_spec(&self, other: &Argument<'a>) -> bool {
        self.units() == other.units()
    }
}

/// Element-wise equality of two unit slices.
fn units_eq(a: &[u16], b: &[u16]) -> (r: bool)
    ensures
        r <==> a@ == b@,
{
    if a.len() != b.len() {
        return false;
    }
    let n = a.len();
    let mut i: usize = 0;
    while i < n
        invariant
            n == a@.len() == b@.len(),
            0 <= i <= n,
            forall|j: int| 0 <= j < i ==> a@[j] == b@[j],
        decreases n - i,
    {
        if a[i] != b[i] {
            return false;
        }
        i = i + 1;
    }
    proof {
        assert(a@ =~= b@);
    }
    true
}

/// An iterator over the command line's [`Argument`]s.
pub struct ArgsNative<'a> {
    inner: ParseArgs<'a>,
}

impl<'a> ArgsNative<'a> {
    pub closed spec fn wf(self) -> bool {
        self.inner.wf() && self.inner.at_start()
    }

    /// The arguments not yet handed out.
    pub closed spec fn remaining(self) -> Seq<Seq<u16>> {
        self.inner.args()
    }

    /// The raw tails of the arguments not yet handed out.
    pub closed spec fn remaining_raw(self) -> Seq<Seq<u16>> {
        self.inner.raw_args()
    }

    /// An iterator over the arguments of the command line `cmdline`, the
    /// zeroth argument first.
    pub fn from_env(cmdline: &'a [u16]) -> (r: ArgsNative<'a>)
        ensures
            r.wf(),
            r.remaining() == parse_cmdline(cmdline@),
            r.remaining_raw() == raw_tails(content(cmdline@), 0, true),
    {
        ArgsNative { inner: ParseArgs::from_env(cmdline) }
    }

    /// The next argument: a handle on its start, with the iterator moved
    /// past it. `None` once the line is exhausted.
    pub fn next(&mut self) -> (r: Option<Argument<'a>>)
        requires
            old(self).wf(),
        ensures
            final(self).wf(),
            r is Some <==> old(self).remaining().len() > 0,
            r matches Some(a) ==> a.units() == old(self).remaining()[0] && a.raw() == old(
                self,
            ).remaining_raw()[0] && final(self).remaining() == old(self).remaining().drop_first()
                && final(self).remaining_raw() == old(self).remaining_raw().drop_first(),
            r is None ==> final(self).remaining().len() == 0,
    {
        let current = Argument { arg: self.inner.snapshot(), is_arg0: self.inner.in_zeroth() };
        if self.inner.finished() {
            None
        } else {
            let ghost args0 = self.inner.args();
            let ghost raw0 = self.inner.raw_args();
            proof {
                self.inner.lemma_args_unfold();
            }
            self.inner.move_to_next_arg();
            proof {
                assert(args0.drop_first() =~= self.inner.args());
                assert(raw0.drop_first() =~= self.inner.raw_args());
            }
            Some(current)
        }
    }
}

/// An iterator over the arguments of the command line `cmdline`.
pub fn args_native(cmdline: &[u16]) -> (r: ArgsNative<'_>)
    ensures
        r.wf(),
        r.remaining() == parse_cmdline(cmdline@),
        r.remaining_raw() == raw_tails(content(cmdline@), 0, true),
{
    ArgsNative::from_env(cmdline)
}

} // verus!
