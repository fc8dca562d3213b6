//! The token view of the parser, and the flat null-separated streams.
//!
//! A [`Parser`] wraps the state machine and yields [`Token`]s: the code
//! units of the arguments, with a [`Token::NextArg`] marker between
//! consecutive arguments and never after the last one. Mapping every token
//! to a `u16` — the marker to zero — therefore gives the arguments joined
//! by single zeros, which is what [`null_separated_list_wide`] collects;
//! [`null_separated_list`] decodes that stream into scalar values.

use vstd::prelude::*;
use crate::decode::{scalars, utf16_scalars};
use crate::model::{content, null_sep, parse_cmdline};
use crate::parse::ParseArgs;

verus! {

/// One element of the token stream.
#[derive(Clone, Copy, Debug, PartialEq, Eq, Structural)]
pub enum Token {
    /// A UTF-16 code unit of the current argument; never zero.
    Unit(u16),
    /// The end of the previous argument and the beginning of a new one.
    /// Never produced after the final argument.
    NextArg,
}

impl Token {
    /// The token as a `u16`: a unit is its own value, the boundary marker
    /// is zero. Units are never zero, so the mapping loses nothing.
    pub fn as_u16(self) -> (r: u16)
        ensures
            self matches Token::Unit(u) ==> r == u,
            self is NextArg ==> r == 0,
    {
        match self {
            Token::Unit(u) => u,
            Token::NextArg => 0,
        }
    }

    /// True for the boundary marker.
    pub fn is_next_arg(self) -> (r: bool)
        ensures
            r <==> self is NextArg,
    {
        match self {
            Token::NextArg => true,
            Token::Unit(_) => false,
        }
    }
}

/// A parsing iterator over the whole command line, producing [`Token`]s.
pub struct Parser<'a> {
    iter: ParseArgs<'a>,
}

impl<'a> Parser<'a> {
    pub closed spec fn wf(self) -> bool {
        self.iter.wf()
    }

    /// The tokens still to come, as `u16` values with zero standing for the
    /// boundary marker: the units owed for the current argument, then the
    /// later arguments joined by zeros.
    pub closed spec fn remaining(self) -> Seq<u16> {
        self.iter.cur_units() + if self.iter.rest_args().len() > 0 {
            seq![0u16] + null_sep(self.iter.rest_args())
        } else {
            Seq::<u16>::empty()
        }
    }

    /// A parser over the command line `cmdline`, positioned at the start of
    /// the zeroth argument: it will yield exactly the parsed arguments,
    /// joined by boundary markers.
    pub fn from_env(cmdline: &'a [u16]) -> (r: Parser<'a>)
        ensures
            r.wf(),
            r.remaining() == null_sep(parse_cmdline(cmdline@)),
    {
        let iter = ParseArgs::from_env(cmdline);
        proof {
            iter.lemma_stream_at_start();
        }
        Parser { iter }
    }

    /// The next token: the next unit of the current argument, or a boundary
    /// marker when an argument ended and another follows, or `None` at the
    /// end of the stream.
    pub fn next(&mut self) -> (r: Option<Token>)
        requires
            old(self).wf(),
        ensures
            final(self).wf(),
            r is Some <==> old(self).remaining().len() > 0,
            r matches Some(t) ==> ({
                let h = old(self).remaining()[0];
                &&& final(self).remaining() == old(self).remaining().drop_first()
                &&& (h == 0 <==> t is NextArg)
                &&& (h != 0 ==> t == Token::Unit(h))
            }),
            r is None ==> final(self).remaining().len() == 0,
    {
        let ghost rem0 = self.remaining();
        match self.iter.next() {
            Some(u) => {
                proof {
                    assert(rem0[0] == u);
                    assert(self.remaining() =~= rem0.drop_first());
                }
                Some(Token::Unit(u))
            },
            None => {
                self.iter.move_to_next_arg();
                proof {
                    self.iter.lemma_stream_at_start();
                }
                if self.iter.finished() {
                    proof {
                        assert(rem0.len() == 0);
                        assert(self.remaining().len() == 0);
                    }
                    None
                } else {
                    proof {
                        assert(rem0 =~= seq![0u16] + null_sep(self.iter.args()));
                        assert(self.remaining() == null_sep(self.iter.args()));
                        assert(self.remaining() =~= rem0.drop_first());
                    }
                    Some(Token::NextArg)
                }
            },
        }
    }
}

/// A parser over the command line `cmdline`: the free-function spelling of
/// [`Parser::from_env`].
#[allow(nonstandard_style)]
pub fn Parser(cmdline: &[u16]) -> (r: Parser<'_>)
    ensures
        r.wf(),
        r.remaining() == null_sep(parse_cmdline(cmdline@)),
{
    Parser::from_env(cmdline)
}

/// The parsed arguments of `cmdline` as one flat sequence of UTF-16 code
/// units, consecutive arguments separated by a single zero, with no zero
/// after the last argument.
pub fn null_separated_list_wide(cmdline: &[u16]) -> (r: Vec<u16>)
    ensures
        r@ == null_sep(parse_cmdline(cmdline@)),
{
    let mut p = Parser::from_env(cmdline);
    let mut out: Vec<u16> = Vec::new();
    let ghost whole = null_sep(parse_cmdline(cmdline@));
    proof {
        assert(out@ + p.remaining() =~= whole);
    }
    loop
        invariant
            p.wf(),
            out@ + p.remaining() == whole,
        ensures
            out@ == whole,
        decreases p.remaining().len(),
    {
        let ghost rem0 = p.remaining();
        match p.next() {
            Some(t) => {
                out.push(t.as_u16());
                proof {
                    assert(out@ + p.remaining() =~= whole);
                }
            },
            None => {
                proof {
                    assert(out@ + p.remaining() =~= whole);
                    assert(out@ =~= whole);
                }
                break;
            },
        }
    }
    out
}

/// The parsed arguments of `cmdline` as one flat sequence of scalar values,
/// consecutive arguments separated by a single `'\0'`: splitting the result
/// on `'\0'` recovers the arguments.
pub fn null_separated_list(cmdline: &[u16]) -> (r: Vec<char>)
    ensures
        r@ == utf16_scalars(null_sep(parse_cmdline(cmdline@))),
{
    let wide = null_separated_list_wide(cmdline);
    scalars(wide.as_slice())
}

} // verus!
