//! The backslash/quote cluster: a tiny queue of code units.
//!
//! When the parser meets a backslash outside the zeroth argument it consumes
//! the whole run of backslashes at once and decides, from the unit that
//! follows, what the run emits: `2n` backslashes before a quote collapse to
//! `n` (the quote is left to toggle quote mode); `2n + 1` collapse to `n`
//! plus a literal quote; a run not followed by a quote is emitted verbatim.
//! The resulting units are queued here and drained one at a time, always
//! before the parser reads the cursor again.

use vstd::prelude::*;
use crate::cursor::Cursor;
use crate::model::{
    esc_next, esc_units, lemma_slashes_from, repeat_slash, run_hits_quote, slashes_from, QUOTE,
    SLASH,
};

verus! {

/// Whether the queued run ends in a literal quote.
#[derive(Clone, Copy, Debug, PartialEq, Eq, Structural)]
pub enum EscapeMode {
    Unescaped,
    LiteralQuote,
}

/// The queued output of one backslash/quote cluster: `counter` backslashes,
/// then a literal quote when the mode says so.
#[derive(Clone, Copy)]
pub struct EscapeIter {
    counter: usize,
    mode: EscapeMode,
}

impl EscapeIter {
    /// The units still to be drained, backslashes first.
    pub closed spec fn pending(self) -> Seq<u16> {
        repeat_slash(self.counter as nat) + if self.mode is LiteralQuote {
            seq![QUOTE]
        } else {
            Seq::<u16>::empty()
        }
    }

    /// Consume the backslash run whose first backslash stands just before
    /// `cursor`'s position (already consumed by the caller), decide what it
    /// emits, and leave the cursor on the next unit the parser should read.
    pub fn new(cursor: &mut Cursor) -> (e: EscapeIter)
        requires
            old(cursor).wf(),
            1 <= old(cursor).pos() <= old(cursor).line().len(),
            old(cursor).line()[old(cursor).pos() - 1] == SLASH,
        ensures
            final(cursor).wf(),
            final(cursor).line() == old(cursor).line(),
            final(cursor).pos() == esc_next(old(cursor).line(), old(cursor).pos() - 1),
            e.pending() == esc_units(old(cursor).line(), old(cursor).pos() - 1),
            e.pending().len() > 0,
    {
        let ghost s = cursor.line();
        let ghost i = cursor.pos() - 1;
        let mut counter: usize = 1;
        proof {
            cursor.lemma_wf();
        }
        loop
            invariant
                cursor.wf(),
                cursor.line() == s,
                0 <= i < s.len(),
                i + counter == cursor.pos(),
                cursor.pos() <= s.len(),
                1 <= counter,
                forall|j: int| i <= j < cursor.pos() ==> s[j] == SLASH,
            ensures
                cursor.wf(),
                cursor.line() == s,
                cursor.pos() == i + counter,
                counter == slashes_from(s, i),
            decreases s.len() - cursor.pos(),
        {
            let more = match cursor.peek() {
                Some(u) => u == SLASH,
                None => false,
            };
            if !more {
                proof {
                    lemma_slashes_from(s, i);
                    // the run from `i` is exactly the units walked so far:
                    // everything before the cursor is a backslash and the
                    // unit at the cursor, if any, is not
                    assert(slashes_from(s, i) <= counter) by {
                        if slashes_from(s, i) > counter {
                            assert(s[i + counter] == SLASH);
                        }
                    }
                    assert(counter <= slashes_from(s, i)) by {
                        if counter > slashes_from(s, i) {
                            assert(s[i + slashes_from(s, i)] == SLASH);
                        }
                    }
                }
                break;
            }
            cursor.advance();
            proof {
                cursor.lemma_wf();
            }
            counter = counter + 1;
        }
        let ghost k = slashes_from(s, i);
        let quote_follows = match cursor.peek() {
            Some(u) => u == QUOTE,
            None => false,
        };
        proof {
            assert(quote_follows == run_hits_quote(s, i));
        }
        let mode;
        if quote_follows {
            if counter % 2 == 1 {
                cursor.advance();
                mode = EscapeMode::LiteralQuote;
            } else {
                mode = EscapeMode::Unescaped;
            }
            counter = counter / 2;
        } else {
            mode = EscapeMode::Unescaped;
        }
        let e = EscapeIter { counter, mode };
        proof {
            assert(e.pending() =~= esc_units(s, i));
        }
        e
    }

    /// Pop the next queued unit, if any is left.
    pub fn next(&mut self) -> (r: Option<u16>)
        ensures
            old(self).pending().len() == 0 ==> r is None && *final(self) == *old(self),
            old(self).pending().len() > 0 ==> r == Some(old(self).pending()[0])
                && final(self).pending() == old(self).pending().drop_first(),
            r matches Some(u) ==> u != 0,
    {
        if self.counter >= 1 {
            self.counter = self.counter - 1;
            proof {
                assert(old(self).pending()[0] == SLASH);
                assert(self.pending() =~= old(self).pending().drop_first());
            }
            Some(SLASH)
        } else {
            match self.mode {
                EscapeMode::LiteralQuote => {
                    self.mode = EscapeMode::Unescaped;
                    proof {
                        assert(old(self).pending() =~= seq![QUOTE]);
                        assert(self.pending() =~= old(self).pending().drop_first());
                    }
                    Some(QUOTE)
                },
                EscapeMode::Unescaped => {
                    proof {
                        assert(old(self).pending() =~= Seq::<u16>::empty());
                    }
                    None
                },
            }
        }
    }

    /// True when nothing is left to drain.
    pub fn exhausted(&self) -> (r: bool)
        ensures
            r <==> self.pending().len() == 0,
    {
        let r = self.counter == 0 && match self.mode {
            EscapeMode::LiteralQuote => false,
            EscapeMode::Unescaped => true,
        };
        proof {
            if self.counter == 0 && self.mode is Unescaped {
                assert(self.pending() =~= Seq::<u16>::empty());
            }
        }
        r
    }
}

} // verus!
