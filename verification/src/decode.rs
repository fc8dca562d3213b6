//! Decoding parsed UTF-16 code units into code points and scalar values,
//! and encoding text back into code units.
//!
//! The parser works on 16-bit units and passes ill-formed UTF-16 through
//! unchanged; decoding is a view concern, applied to the units an argument
//! emits. [`code_points`] combines surrogate pairs and keeps an unpaired
//! surrogate as its own value widened to 32 bits; [`scalars`] replaces
//! unpaired surrogates with U+FFFD. The other direction, [`encode_wide`],
//! turns text into the code units an argument would have to emit to equal
//! it.

use vstd::prelude::*;
use vstd::string::StrSliceExecFns;
use vstd::utf8::{char_is_scalar, char_u32_cast};

verus! {

/// True for a leading (high) surrogate code unit.
pub open spec fn is_high_surrogate(u: u16) -> bool {
    0xD800 <= u < 0xDC00
}

/// True for a trailing (low) surrogate code unit.
pub open spec fn is_low_surrogate(u: u16) -> bool {
    0xDC00 <= u < 0xE000
}

/// True for any surrogate code unit.
pub open spec fn is_surrogate(u: u16) -> bool {
    0xD800 <= u < 0xE000
}

/// The code point encoded by a surrogate pair.
pub open spec fn combine_surrogates(hi: u16, lo: u16) -> u32
    recommends
        is_high_surrogate(hi),
        is_low_surrogate(lo),
{
    (0x10000 + (hi - 0xD800) * 0x400 + (lo - 0xDC00)) as u32
}

/// The code points of a UTF-16 sequence: surrogate pairs are combined and
/// an unpaired surrogate is kept as its own value widened to 32 bits.
pub open spec fn utf16_code_points(s: Seq<u16>) -> Seq<u32>
    decreases s.len(),
{
    if s.len() == 0 {
        Seq::empty()
    } else if is_high_surrogate(s[0]) && s.len() >= 2 && is_low_surrogate(s[1]) {
        seq![combine_surrogates(s[0], s[1])] + utf16_code_points(s.skip(2))
    } else {
        seq![s[0] as u32] + utf16_code_points(s.skip(1))
    }
}

/// The scalar values of a UTF-16 sequence: surrogate pairs are combined and
/// an unpaired surrogate becomes U+FFFD.
pub open spec fn utf16_scalars(s: Seq<u16>) -> Seq<char>
    decreases s.len(),
{
    if s.len() == 0 {
        Seq::empty()
    } else if is_high_surrogate(s[0]) && s.len() >= 2 && is_low_surrogate(s[1]) {
        seq![combine_surrogates(s[0], s[1]) as char] + utf16_scalars(s.skip(2))
    } else if is_surrogate(s[0]) {
        seq!['\u{FFFD}'] + utf16_scalars(s.skip(1))
    } else {
        seq![(s[0] as u32) as char] + utf16_scalars(s.skip(1))
    }
}

/// Relies on `char::from_u32` of the standard library: it returns `Some`
/// exactly for Unicode scalar values (everything up to U+10FFFF except the
/// surrogate range), and the character it returns carries that value.
#[verifier::external_body]
fn char_from_u32(u: u32) -> (r: Option<char>)
    ensures
        r is Some <==> (u < 0xD800 || (0xE000 <= u && u <= 0x10FFFF)),
        r matches Some(c) ==> c as u32 == u,
{
    char::from_u32(u)
}

/// Decode `units` as UTF-16 into code points, keeping unpaired surrogates.
pub fn code_points(units: &[u16]) -> (r: Vec<u32>)
    ensures
        r@ == utf16_code_points(units@),
{
    let n = units.len();
    let mut out: Vec<u32> = Vec::new();
    let mut i: usize = 0;
    proof {
        assert(units@.skip(0) =~= units@);
        assert(out@ + utf16_code_points(units@) =~= utf16_code_points(units@));
    }
    while i < n
        invariant
            n == units@.len(),
            0 <= i <= n,
            out@ + utf16_code_points(units@.skip(i as int)) == utf16_code_points(units@),
        decreases n - i,
    {
        let u = units[i];
        let ghost tail = units@.skip(i as int);
        proof {
            assert(tail[0] == units@[i as int]);
        }
        if 0xD800 <= u && u < 0xDC00 && i + 1 < n && 0xDC00 <= units[i + 1] && units[i + 1]
            < 0xE000 {
            let w = units[i + 1];
            let v: u32 = 0x10000 + ((u as u32) - 0xD800) * 0x400 + ((w as u32) - 0xDC00);
            out.push(v);
            proof {
                assert(tail[1] == units@[i + 1]);
                assert(tail.skip(2) =~= units@.skip(i + 2));
                assert(out@ + utf16_code_points(units@.skip(i + 2)) =~= utf16_code_points(
                    units@,
                ));
            }
            i = i + 2;
        } else {
            out.push(u as u32);
            proof {
                assert(tail.skip(1) =~= units@.skip(i + 1));
                assert(out@ + utf16_code_points(units@.skip(i + 1)) =~= utf16_code_points(
                    units@,
                ));
            }
            i = i + 1;
        }
    }
    proof {
        assert(units@.skip(n as int) =~= Seq::<u16>::empty());
        assert(out@ =~= utf16_code_points(units@));
    }
    out
}

/// Decode `units` as UTF-16 into scalar values, replacing unpaired
/// surrogates with U+FFFD.
pub fn scalars(units: &[u16]) -> (r: Vec<char>)
    ensures
        r@ == utf16_scalars(units@),
{
    let n = units.len();
    let mut out: Vec<char> = Vec::new();
    let mut i: usize = 0;
    proof {
        assert(units@.skip(0) =~= units@);
        assert(out@ + utf16_scalars(units@) =~= utf16_scalars(units@));
    }
    while i < n
        invariant
            n == units@.len(),
            0 <= i <= n,
            out@ + utf16_scalars(units@.skip(i as int)) == utf16_scalars(units@),
        decreases n - i,
    {
        let u = units[i];
        let ghost tail = units@.skip(i as int);
        proof {
            assert(tail[0] == units@[i as int]);
        }
        if 0xD800 <= u && u < 0xDC00 && i + 1 < n && 0xDC00 <= units[i + 1] && units[i + 1]
            < 0xE000 {
            let w = units[i + 1];
            let v: u32 = 0x10000 + ((u as u32) - 0xD800) * 0x400 + ((w as u32) - 0xDC00);
            let c = char_from_u32(v).unwrap();
            out.push(c);
            proof {
                char_u32_cast(c, v);
                assert(tail[1] == units@[i + 1]);
                assert(tail.skip(2) =~= units@.skip(i + 2));
                assert(out@ + utf16_scalars(units@.skip(i + 2)) =~= utf16_scalars(units@));
            }
            i = i + 2;
        } else if 0xD800 <= u && u < 0xE000 {
            out.push('\u{FFFD}');
            proof {
                assert(tail.skip(1) =~= units@.skip(i + 1));
                assert(out@ + utf16_scalars(units@.skip(i + 1)) =~= utf16_scalars(units@));
            }
            i = i + 1;
        } else {
            let c = char_from_u32(u as u32).unwrap();
            out.push(c);
            proof {
                char_u32_cast(c, u as u32);
                assert(tail.skip(1) =~= units@.skip(i + 1));
                assert(out@ + utf16_scalars(units@.skip(i + 1)) =~= utf16_scalars(units@));
            }
            i = i + 1;
        }
    }
    proof {
        assert(units@.skip(n as int) =~= Seq::<u16>::empty());
        assert(out@ =~= utf16_scalars(units@));
    }
    out
}

/// The UTF-16 encoding of one scalar value: itself, or a surrogate pair.
pub open spec fn encode_char(c: char) -> Seq<u16> {
    let v = c as u32;
    if v < 0x10000 {
        seq![v as u16]
    } else {
        seq![
            (0xD800 + ((v - 0x10000) / 0x400)) as u16,
            (0xDC00 + ((v - 0x10000) % 0x400)) as u16,
        ]
    }
}

/// The UTF-16 encoding of a sequence of scalar values.
pub open spec fn utf16_encode(cs: Seq<char>) -> Seq<u16>
    decreases cs.len(),
{
    if cs.len() == 0 {
        Seq::empty()
    } else {
        encode_char(cs[0]) + utf16_encode(cs.drop_first())
    }
}

/// Extending the encoded prefix by one character appends that character's
/// encoding.
proof fn lemma_encode_take_step(cs: Seq<char>, i: int)
    requires
        0 <= i < cs.len(),
    ensures
        utf16_encode(cs.take(i + 1)) == utf16_encode(cs.take(i)) + encode_char(cs[i]),
    decreases i,
{
    if i == 0 {
        assert(cs.take(0) =~= Seq::<char>::empty());
        assert(cs.take(1).len() == 1);
        assert(cs.take(1)[0] == cs[0]);
        assert(cs.take(1).drop_first() =~= Seq::<char>::empty());
        assert(utf16_encode(cs.take(1)) =~= utf16_encode(cs.take(0)) + encode_char(cs[0]));
    } else {
        let rest = cs.drop_first();
        lemma_encode_take_step(rest, i - 1);
        assert(cs.take(i + 1)[0] == cs[0]);
        assert(cs.take(i)[0] == cs[0]);
        assert(cs.take(i + 1).drop_first() =~= rest.take(i));
        assert(cs.take(i).drop_first() =~= rest.take(i - 1));
        assert(rest[i - 1] == cs[i]);
        assert(utf16_encode(cs.take(i + 1)) == encode_char(cs[0]) + utf16_encode(rest.take(i)));
        assert(utf16_encode(cs.take(i)) == encode_char(cs[0]) + utf16_encode(rest.take(i - 1)));
        assert(encode_char(cs[0]) + (utf16_encode(rest.take(i - 1)) + encode_char(cs[i])) =~= (
        encode_char(cs[0]) + utf16_encode(rest.take(i - 1))) + encode_char(cs[i]));
    }
}

/// Encode text as UTF-16 code units: characters of the basic plane as
/// themselves, the rest as surrogate pairs.
pub fn encode_wide(s: &str) -> (r: Vec<u16>)
    ensures
        r@ == utf16_encode(s@),
{
    let n = s.unicode_len();
    let mut out: Vec<u16> = Vec::new();
    let mut i: usize = 0;
    proof {
        assert(s@.take(0) =~= Seq::<char>::empty());
    }
    while i < n
        invariant
            n == s@.len(),
            0 <= i <= n,
            out@ == utf16_encode(s@.take(i as int)),
        decreases n - i,
    {
        let c = s.get_char(i);
        let v = c as u32;
        proof {
            char_is_scalar(c);
        }
        if v < 0x10000 {
            out.push(v as u16);
            proof {
                lemma_encode_take_step(s@, i as int);
                assert(out@ =~= utf16_encode(s@.take(i as int)) + encode_char(c));
            }
        } else {
            out.push((0xD800 + ((v - 0x10000) / 0x400)) as u16);
            out.push((0xDC00 + ((v - 0x10000) % 0x400)) as u16);
            proof {
                lemma_encode_take_step(s@, i as int);
                assert(out@ =~= utf16_encode(s@.take(i as int)) + encode_char(c));
            }
        }
        i = i + 1;
    }
    proof {
        assert(s@.take(n as int) =~= s@);
    }
    out
}

} // verus!
