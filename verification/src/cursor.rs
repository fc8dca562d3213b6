//! A non-owning position over a null-terminated line of 16-bit code units.
//!
//! The cursor reads the line through a shared slice and never moves past the
//! first zero unit, so every operation is total. Its specification speaks of
//! [`crate::model::content`]: the units before that first zero.

use vstd::prelude::*;
use crate::model::{content, nul_index, lemma_nul_index, lemma_content, skip_ws, SPACE, TAB};
use vstd::slice::slice_subrange;

verus! {

/// A position within a null-terminated line of code units.
///
/// Copied freely; two cursors over the same line differ only in position.
#[derive(Clone, Copy)]
pub struct Cursor<'a> {
    buf: &'a [u16],
    pos: usize,
}

impl<'a> Cursor<'a> {
    /// The content of the line: its units before the first zero.
    pub closed spec fn line(self) -> Seq<u16> {
        content(self.buf@)
    }

    /// The current position within the content.
    pub closed spec fn pos(self) -> int {
        self.pos as int
    }

    /// The cursor never stands past the first zero.
    pub closed spec fn wf(self) -> bool {
        self.pos as int <= nul_index(self.buf@)
    }

    /// A well-formed cursor stands within the content.
    pub proof fn lemma_wf(self)
        requires
            self.wf(),
        ensures
            0 <= self.pos() <= self.line().len(),
            self.pos() <= usize::MAX,
    {
        lemma_content(self.buf@);
    }

    /// A cursor at the start of `buf`'s content.
    pub fn new(buf: &'a [u16]) -> (c: Cursor<'a>)
        ensures
            c.wf(),
            c.line() == content(buf@),
            c.pos() == 0,
    {
        proof {
            lemma_nul_index(buf@);
        }
        Cursor { buf, pos: 0 }
    }

    /// The current unit, or `None` at the end of the content.
    pub fn peek(&self) -> (r: Option<u16>)
        requires
            self.wf(),
        ensures
            r is None <==> self.pos() == self.line().len(),
            r matches Some(u) ==> self.pos() < self.line().len() && u == self.line()[self.pos()]
                && u != 0,
    {
        proof {
            lemma_nul_index(self.buf@);
            lemma_content(self.buf@);
        }
        if self.pos < self.buf.len() {
            let u = self.buf[self.pos];
            if u == 0 {
                None
            } else {
                Some(u)
            }
        } else {
            None
        }
    }

    /// Move one unit forward; only allowed before the end of the content.
    pub fn advance(&mut self)
        requires
            old(self).wf(),
            old(self).pos() < old(self).line().len(),
        ensures
            final(self).wf(),
            final(self).line() == old(self).line(),
            final(self).pos() == old(self).pos() + 1,
    {
        proof {
            lemma_content(self.buf@);
        }
        let len = self.buf.len();
        assert(self.pos < len);
        self.pos = self.pos + 1;
    }

    /// Move forward while the current unit is a space or a tab.
    pub fn skip_whitespace(&mut self)
        requires
            old(self).wf(),
        ensures
            final(self).wf(),
            final(self).line() == old(self).line(),
            final(self).pos() == skip_ws(old(self).line(), old(self).pos()),
    {
        let ghost s = self.line();
        let ghost p0 = self.pos();
        proof {
            self.lemma_wf();
        }
        loop
            invariant
                self.wf(),
                self.line() == s,
                p0 <= self.pos() <= s.len(),
                skip_ws(s, p0) == skip_ws(s, self.pos()),
            ensures
                self.wf(),
                self.line() == s,
                self.pos() == skip_ws(s, p0),
            decreases s.len() - self.pos(),
        {
            let stop = match self.peek() {
                Some(u) => u != SPACE && u != TAB,
                None => true,
            };
            if stop {
                break;
            }
            self.advance();
        }
    }

    /// Count of content units from the current position to the end.
    pub fn max_len(&self) -> (r: usize)
        requires
            self.wf(),
        ensures
            r == self.line().len() - self.pos(),
    {
        let ghost s = self.line();
        let mut c = *self;
        let mut n: usize = 0;
        proof {
            c.lemma_wf();
        }
        loop
            invariant
                c.wf(),
                c.line() == s,
                self.pos() <= c.pos() <= s.len(),
                n == c.pos() - self.pos(),
            ensures
                n == s.len() - self.pos(),
            decreases s.len() - c.pos(),
        {
            if c.peek().is_none() {
                break;
            }
            c.advance();
            n = n + 1;
        }
        n
    }

    /// The rest of the content, from the current position up to (and not
    /// including) the terminating zero.
    pub fn as_slice(&self) -> (r: &'a [u16])
        requires
            self.wf(),
        ensures
            r@ == self.line().skip(self.pos()),
    {
        proof {
            lemma_nul_index(self.buf@);
            lemma_content(self.buf@);
        }
        let len = self.buf.len();
        let n = self.max_len();
        assert(self.pos + n <= len);
        let r = slice_subrange(self.buf, self.pos, self.pos + n);
        proof {
            assert(r@ =~= self.line().skip(self.pos()));
        }
        r
    }
}

} // verus!
