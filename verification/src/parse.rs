//! The parsing state machine.
//!
//! [`ParseArgs`] drives a [`Cursor`] and yields the 16-bit code units of the
//! *current* argument, one per call of [`ParseArgs::next`]; a separate
//! operation, [`ParseArgs::move_to_next_arg`], fast-forwards over whatever
//! is left of the current argument, skips the separating whitespace and
//! clears the zeroth-argument flag. Its state is the cursor, the quote mode,
//! an optional pending escape run (always drained before the cursor is read
//! again) and the zeroth-argument flag.
//!
//! Every operation is specified against the model: the units still owed for
//! the current argument are [`ParseArgs::cur_units`], and the arguments
//! after it are [`ParseArgs::rest_args`].

use vstd::prelude::*;
use crate::cursor::Cursor;
use crate::escape::EscapeIter;
use crate::model::{
    arg_end, arg_end_q, arg_units, args_from, content, lemma_arg_scan_bounds,
    lemma_null_sep_unfold, null_sep, raw_tails, skip_ws, QUOTE, SLASH, SPACE, TAB,
};

verus! {

/// The parser state: a cursor, the quote mode, an optional pending escape
/// run and the zeroth-argument flag.
#[derive(Clone, Copy)]
pub struct ParseArgs<'a> {
    cursor: Cursor<'a>,
    quote_mode: bool,
    escape_iter: Option<EscapeIter>,
    is_arg0: bool,
}

impl<'a> ParseArgs<'a> {
    /// The content of the line being parsed.
    pub closed spec fn line(self) -> Seq<u16> {
        self.cursor.line()
    }

    /// The cursor's position within the content.
    pub closed spec fn pos(self) -> int {
        self.cursor.pos()
    }

    /// The quote mode: inside quotes, whitespace does not end the argument.
    pub closed spec fn quote(self) -> bool {
        self.quote_mode
    }

    /// Whether the parser is still within the zeroth argument.
    pub closed spec fn zeroth(self) -> bool {
        self.is_arg0
    }

    /// The units still queued from a backslash/quote cluster.
    pub closed spec fn pending(self) -> Seq<u16> {
        match self.escape_iter {
            Some(e) => e.pending(),
            None => Seq::<u16>::empty(),
        }
    }

    /// The cursor is within the content and a stored escape run is never
    /// empty.
    pub closed spec fn wf(self) -> bool {
        &&& self.cursor.wf()
        &&& match self.escape_iter {
            Some(e) => e.pending().len() > 0,
            None => true,
        }
    }

    /// The units the current argument still emits.
    pub closed spec fn cur_units(self) -> Seq<u16> {
        self.pending() + arg_units(self.line(), self.pos(), self.quote(), self.zeroth())
    }

    /// The position at which the current argument ends.
    pub closed spec fn bound(self) -> int {
        arg_end(self.line(), self.pos(), self.quote(), self.zeroth())
    }

    /// The quote mode at the current argument's end.
    pub closed spec fn bound_q(self) -> bool {
        arg_end_q(self.line(), self.pos(), self.quote(), self.zeroth())
    }

    /// The arguments after the current one.
    pub closed spec fn rest_args(self) -> Seq<Seq<u16>> {
        args_from(self.line(), skip_ws(self.line(), self.bound()), false)
    }

    /// The raw tails of the arguments after the current one.
    pub closed spec fn rest_raw(self) -> Seq<Seq<u16>> {
        raw_tails(self.line(), skip_ws(self.line(), self.bound()), false)
    }

    /// True at an argument boundary: no pending run, and quote mode off
    /// unless the whole line is consumed.
    pub closed spec fn at_start(self) -> bool {
        &&& self.pending().len() == 0
        &&& self.pos() == self.line().len() || !self.quote()
    }

    /// The arguments from the current position on; meaningful at a boundary.
    pub closed spec fn args(self) -> Seq<Seq<u16>> {
        args_from(self.line(), self.pos(), self.zeroth())
    }

    /// The raw tails of the arguments from the current position on.
    pub closed spec fn raw_args(self) -> Seq<Seq<u16>> {
        raw_tails(self.line(), self.pos(), self.zeroth())
    }

    /// A parser over `arg`'s line from `arg`'s position, with quote mode off
    /// and no pending run.
    pub fn new(arg: Cursor<'a>, is_arg0: bool) -> (r: ParseArgs<'a>)
        requires
            arg.wf(),
        ensures
            r.wf(),
            r.line() == arg.line(),
            r.pos() == arg.pos(),
            r.quote() == false,
            r.zeroth() == is_arg0,
            r.pending() == Seq::<u16>::empty(),
            r.at_start(),
            r.cur_units() == arg_units(arg.line(), arg.pos(), false, is_arg0),
            r.args() == args_from(arg.line(), arg.pos(), is_arg0),
            r.raw_args() == raw_tails(arg.line(), arg.pos(), is_arg0),
    {
        ParseArgs { cursor: arg, quote_mode: false, escape_iter: None, is_arg0 }
    }

    /// A parser at the start of `cmdline`'s content, in the zeroth argument.
    pub fn from_env(cmdline: &'a [u16]) -> (r: ParseArgs<'a>)
        ensures
            r.wf(),
            r.at_start(),
            r.line() == content(cmdline@),
            r.pos() == 0,
            r.zeroth() == true,
            r.args() == args_from(content(cmdline@), 0, true),
            r.raw_args() == raw_tails(content(cmdline@), 0, true),
            r.cur_units() == arg_units(content(cmdline@), 0, false, true),
    {
        ParseArgs::new(Cursor::new(cmdline), true)
    }

    /// A copy of the cursor, for snapshotting the current position.
    pub fn snapshot(&self) -> (c: Cursor<'a>)
        requires
            self.wf(),
        ensures
            c.wf(),
            c.line() == self.line(),
            c.pos() == self.pos(),
    {
        self.cursor
    }

    /// Whether the parser is still within the zeroth argument.
    pub fn in_zeroth(&self) -> (r: bool)
        ensures
            r == self.zeroth(),
    {
        self.is_arg0
    }

    /// True when the whole line has been consumed.
    pub fn finished(&self) -> (r: bool)
        requires
            self.wf(),
        ensures
            r <==> self.pos() == self.line().len(),
            r <==> self.args().len() == 0,
    {
        proof {
            self.cursor.lemma_wf();
        }
        self.cursor.peek().is_none()
    }

    /// Yield the next code unit of the current argument, or `None` at the
    /// argument's end. The argument's end, the quote mode there and the
    /// arguments after it never change; after `None` the cursor stands at
    /// the argument's end.
    #[verifier::loop_isolation(false)]
    pub fn next(&mut self) -> (r: Option<u16>)
        requires
            old(self).wf(),
        ensures
            final(self).wf(),
            final(self).line() == old(self).line(),
            final(self).zeroth() == old(self).zeroth(),
            final(self).bound() == old(self).bound(),
            final(self).bound_q() == old(self).bound_q(),
            final(self).rest_args() == old(self).rest_args(),
            final(self).rest_raw() == old(self).rest_raw(),
            old(self).pos() <= final(self).pos(),
            r is Some <==> old(self).cur_units().len() > 0,
            r matches Some(u) ==> u == old(self).cur_units()[0] && u != 0
                && final(self).cur_units() == old(self).cur_units().drop_first(),
            r is None ==> final(self).cur_units().len() == 0
                && final(self).pos() == old(self).bound()
                && final(self).quote() == old(self).bound_q()
                && final(self).pending().len() == 0,
    {
        let ghost s = self.line();
        let ghost z = self.is_arg0;
        let ghost c0 = self.cur_units();
        let ghost b0 = self.bound();
        let ghost bq0 = self.bound_q();
        let ghost p0 = self.pos();
        proof {
            self.cursor.lemma_wf();
        }
        loop
            invariant
                self.wf(),
                self.line() == s,
                self.zeroth() == z,
                self.cur_units() == c0,
                self.bound() == b0,
                self.bound_q() == bq0,
                p0 <= self.pos() <= s.len(),
            decreases s.len() - self.pos(),
        {
            // Serve any queued escape-run units first.
            let mut served: Option<u16> = None;
            let mut drained = false;
            match &mut self.escape_iter {
                Some(e) => {
                    served = e.next();
                    drained = e.exhausted();
                },
                None => {},
            }
            if let Some(u) = served {
                if drained {
                    self.escape_iter = None;
                }
                proof {
                    assert(c0[0] == u);
                    assert(self.cur_units() =~= c0.drop_first());
                }
                return Some(u);
            }
            // No pending run: inspect the cursor.
            let u = match self.cursor.peek() {
                None => {
                    // End of the line ends the argument.
                    return None;
                },
                Some(u) => u,
            };
            if (u == SPACE || u == TAB) && !self.quote_mode {
                // Separating whitespace ends the argument; it is not consumed.
                return None;
            } else if u == SLASH && !self.is_arg0 {
                // A backslash run: consume it whole and queue its output.
                self.cursor.advance();
                let e = EscapeIter::new(&mut self.cursor);
                self.escape_iter = Some(e);
                proof {
                    self.cursor.lemma_wf();
                    assert(self.cur_units() =~= c0);
                }
            } else if u == QUOTE {
                self.cursor.advance();
                let second_quote = match self.cursor.peek() {
                    Some(w) => w == QUOTE,
                    None => false,
                };
                if !self.is_arg0 && self.quote_mode && second_quote {
                    // A doubled quote inside quotes emits one literal quote.
                    self.cursor.advance();
                    proof {
                        assert(c0[0] == QUOTE);
                        assert(self.cur_units() =~= c0.drop_first());
                    }
                    return Some(QUOTE);
                } else {
                    // The quote toggles quote mode and emits nothing.
                    self.quote_mode = !self.quote_mode;
                    proof {
                        self.cursor.lemma_wf();
                    }
                }
            } else {
                // An ordinary unit is emitted as it stands.
                self.cursor.advance();
                proof {
                    assert(c0[0] == u);
                    assert(self.cur_units() =~= c0.drop_first());
                }
                return Some(u);
            }
        }
    }

    /// At an argument boundary the units still owed for the current argument,
    /// followed by a zero and the later arguments when any remain, are
    /// exactly the remaining arguments joined by zeros.
    pub proof fn lemma_stream_at_start(self)
        requires
            self.wf(),
            self.at_start(),
        ensures
            self.cur_units() + if self.rest_args().len() > 0 {
                seq![0u16] + null_sep(self.rest_args())
            } else {
                Seq::<u16>::empty()
            } == null_sep(self.args()),
            self.rest_args().len() > 0 ==> self.args().len() > 1,
            self.args().len() == 0 ==> self.cur_units().len() == 0 && self.rest_args().len() == 0,
    {
        let s = self.line();
        let i = self.pos();
        let z = self.zeroth();
        self.cursor.lemma_wf();
        if i == s.len() {
            assert(self.cur_units() =~= Seq::<u16>::empty());
            assert(self.cur_units() + Seq::<u16>::empty() =~= null_sep(self.args()));
        } else {
            // quote mode is off, so the argument starting here is the head
            // of `args` and the ones after the boundary are its tail
            assert(self.args() == seq![arg_units(s, i, false, z)] + args_from(
                s,
                skip_ws(s, arg_end(s, i, false, z)),
                false,
            ));
            assert(self.args().drop_first() =~= self.rest_args());
            lemma_null_sep_unfold(self.args());
            assert(self.cur_units() =~= arg_units(s, i, false, z));
            if self.rest_args().len() > 0 {
                assert(self.cur_units() + (seq![0u16] + null_sep(self.rest_args())) =~= null_sep(
                    self.args(),
                ));
            } else {
                assert(self.cur_units() + Seq::<u16>::empty() =~= null_sep(self.args()));
            }
        }
    }

    /// At a boundary before the end of the line, the head of the remaining
    /// arguments is the argument starting at the current position, its raw
    /// tail is the unparsed rest of the line, and the later arguments
    /// follow the separating whitespace after its end.
    pub proof fn lemma_args_unfold(self)
        requires
            self.wf(),
            self.at_start(),
            self.args().len() > 0,
        ensures
            self.pos() < self.line().len(),
            self.args().len() >= 1,
            self.args()[0] == arg_units(self.line(), self.pos(), false, self.zeroth()),
            self.args().drop_first() == self.rest_args(),
            self.raw_args().len() >= 1,
            self.raw_args()[0] == self.line().skip(self.pos()),
            self.raw_args().drop_first() == self.rest_raw(),
    {
        let s = self.line();
        let i = self.pos();
        let z = self.zeroth();
        self.cursor.lemma_wf();
        assert(self.args() == seq![arg_units(s, i, false, z)] + args_from(
            s,
            skip_ws(s, arg_end(s, i, false, z)),
            false,
        ));
        assert(self.args().drop_first() =~= self.rest_args());
        assert(self.raw_args() == seq![s.skip(i)] + raw_tails(
            s,
            skip_ws(s, arg_end(s, i, false, z)),
            false,
        ));
        assert(self.raw_args().drop_first() =~= self.rest_raw());
    }

    /// Skip whatever is left of the current argument, then the separating
    /// whitespace, and leave the zeroth argument behind: afterwards the
    /// parser stands at the start of the next argument, if any is left.
    #[verifier::loop_isolation(false)]
    pub fn move_to_next_arg(&mut self)
        requires
            old(self).wf(),
        ensures
            final(self).wf(),
            final(self).at_start(),
            final(self).line() == old(self).line(),
            final(self).zeroth() == false,
            final(self).pos() == skip_ws(old(self).line(), old(self).bound()),
            final(self).args() == old(self).rest_args(),
            final(self).raw_args() == old(self).rest_raw(),
    {
        let ghost s = self.line();
        let ghost b0 = self.bound();
        let ghost bq0 = self.bound_q();
        let ghost z0 = self.zeroth();
        let ghost p0 = self.pos();
        let ghost q0 = self.quote();
        proof {
            self.cursor.lemma_wf();
        }
        let mut more = true;
        while more
            invariant
                self.wf(),
                self.line() == s,
                self.bound() == b0,
                self.bound_q() == bq0,
                self.zeroth() == z0,
                !more ==> self.cur_units().len() == 0 && self.pending().len() == 0 && self.pos()
                    == b0 && self.quote() == bq0,
            decreases self.cur_units().len() + (if more { 1int } else { 0 }),
        {
            more = self.next().is_some();
        }
        proof {
            lemma_arg_scan_bounds(s, p0, q0, z0);
        }
        self.cursor.skip_whitespace();
        self.is_arg0 = false;
        proof {
            // At the boundary: if the argument ended before the end of the
            // line, quote mode is off there and the position advanced over
            // whitespace only.
            assert(self.at_start());
        }
    }
}

} // verus!
