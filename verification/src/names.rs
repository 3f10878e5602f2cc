//! Decoding of key and value names.
//!
//! A name is stored either in an 8-bit extended encoding (one byte per
//! character, selected by the compressed-name flag) or in UTF-16LE (two
//! bytes per code unit, surrogate pairs allowed).  An invalid code unit is
//! a recoverable string-encoding error.

use vstd::prelude::*;
use vstd::string::StrSliceExecFns;

use crate::bytes::{le16, read_le16};
use crate::errors::HiveError;

verus! {

broadcast use vstd::std_specs::vec::axiom_spec_len;

/// Relies on char::from_u32: `Some` exactly for the valid Unicode scalar
/// values (everything up to 0x10FFFF that is not a surrogate), and the
/// returned character carries exactly that code point.
pub assume_specification[ char::from_u32 ](v: u32) -> (r: Option<char>)
    ensures
        r is Some <==> (v < 0xD800 || (0xE000 <= v && v <= 0x10FFFF)),
        r is Some ==> r.unwrap() as u32 == v,
;

/// Relies on String::push: appends the given character to the string.
pub assume_specification[ String::push ](s: &mut String, c: char)
    ensures
        final(s)@ == old(s)@.push(c),
;

/// The code points that a sequence of characters spells.
pub open spec fn points(s: Seq<char>) -> Seq<u32> {
    Seq::new(s.len(), |i: int| s[i] as u32)
}

/// Code points of a name in the 8-bit extended encoding: each byte is the
/// code point of the same value.
pub open spec fn latin1_points(b: Seq<u8>) -> Seq<u32> {
    Seq::new(b.len(), |i: int| b[i] as u32)
}

/// The 16-bit code units of UTF-16LE bytes (an even byte count).
pub open spec fn utf16_units(b: Seq<u8>) -> Seq<u16> {
    Seq::new(b.len() / 2, |i: int| le16(b, 2 * i))
}

/// Code points named by UTF-16 code units; `None` on a lone or
/// wrongly-ordered surrogate.
pub open spec fn utf16_points(u: Seq<u16>) -> Option<Seq<u32>>
    decreases u.len(),
{
    if u.len() == 0 {
        Some(Seq::empty())
    } else if !(0xD800 <= u[0] <= 0xDFFF) {
        match utf16_points(u.skip(1)) {
            Some(rest) => Some(seq![u[0] as u32] + rest),
            None => None,
        }
    } else if u[0] <= 0xDBFF && u.len() >= 2 && 0xDC00 <= u[1] <= 0xDFFF {
        match utf16_points(u.skip(2)) {
            Some(rest) => Some(
                seq![((0x10000 + (u[0] - 0xD800) * 0x400 + (u[1] - 0xDC00)) as u32)] + rest,
            ),
            None => None,
        }
    } else {
        None
    }
}

/// Code points of a stored name: `compressed` selects the 8-bit encoding,
/// which cannot fail; otherwise the bytes are UTF-16LE, where an odd byte
/// count or an invalid surrogate makes the name undecodable.
pub open spec fn name_points(b: Seq<u8>, compressed: bool) -> Option<Seq<u32>> {
    if compressed {
        Some(latin1_points(b))
    } else if b.len() % 2 == 0 {
        utf16_points(utf16_units(b))
    } else {
        None
    }
}

proof fn lemma_utf16_step_bmp(u: Seq<u16>, i: int)
    requires
        0 <= i < u.len(),
        !(0xD800 <= u[i] <= 0xDFFF),
    ensures
        utf16_points(u.skip(i)) == (match utf16_points(u.skip(i + 1)) {
            Some(rest) => Some(seq![u[i] as u32] + rest),
            None => None,
        }),
{
    assert(u.skip(i).len() == u.len() - i);
    assert(u.skip(i)[0] == u[i]);
    assert(u.skip(i).skip(1) =~= u.skip(i + 1));
}

proof fn lemma_utf16_step_pair(u: Seq<u16>, i: int)
    requires
        0 <= i,
        i + 2 <= u.len(),
        0xD800 <= u[i] <= 0xDBFF,
        0xDC00 <= u[i + 1] <= 0xDFFF,
    ensures
        utf16_points(u.skip(i)) == (match utf16_points(u.skip(i + 2)) {
            Some(rest) => Some(
                seq![((0x10000 + (u[i] - 0xD800) * 0x400 + (u[i + 1] - 0xDC00)) as u32)] + rest,
            ),
            None => None,
        }),
{
    assert(u.skip(i).len() == u.len() - i);
    assert(u.skip(i)[0] == u[i]);
    assert(u.skip(i)[1] == u[i + 1]);
    assert(u.skip(i).skip(2) =~= u.skip(i + 2));
}

proof fn lemma_utf16_stuck(u: Seq<u16>, i: int)
    requires
        0 <= i < u.len(),
        0xD800 <= u[i] <= 0xDFFF,
        0xDC00 <= u[i] || i + 1 >= u.len() || !(0xDC00 <= u[i + 1] <= 0xDFFF),
    ensures
        utf16_points(u.skip(i)) is None,
{
    assert(u.skip(i)[0] == u[i]);
    if 0xD800 <= u[i] <= 0xDBFF && i + 1 < u.len() {
        assert(u.skip(i)[1] == u[i + 1]);
    }
}

/// Decodes the name bytes `d[start .. start + len]`.  Exactly the byte
/// sequences whose `name_points` exist decode, to a string spelling those
/// code points; the rest are a string-encoding error.
pub fn decode_name(d: &Vec<u8>, start: usize, len: usize, compressed: bool) -> (r: Result<
    String,
    HiveError,
>)
    requires
        start + len <= d@.len(),
    ensures
        ({
            let b = d@.subrange(start as int, start as int + len as int);
            match name_points(b, compressed) {
                Some(cps) => r is Ok && points(r.unwrap()@) == cps,
                None => r == Err::<String, HiveError>(HiveError::StringEncoding),
            }
        }),
{
    let ghost b = d@.subrange(start as int, start as int + len as int);
    let _n: usize = d.len();
    if compressed {
        let mut s = String::new();
        let mut i: usize = 0;
        while i < len
            invariant
                start + len <= d@.len(),
                d@.len() <= usize::MAX,
                i <= len,
                s@.len() == i,
                forall|j: int| 0 <= j < i ==> s@[j] as u32 == d@[start + j] as u32,
            decreases len - i,
        {
            let c = d[start + i] as char;
            s.push(c);
            i += 1;
        }
        proof {
            assert(points(s@) =~= latin1_points(b));
        }
        Ok(s)
    } else if len % 2 != 0 {
        Err(HiveError::StringEncoding)
    } else {
        let nu = len / 2;
        let mut units: Vec<u16> = Vec::new();
        let mut i: usize = 0;
        while i < nu
            invariant
                start + len <= d@.len(),
                d@.len() <= usize::MAX,
                nu == len / 2,
                len % 2 == 0,
                i <= nu,
                units@.len() == i,
                forall|j: int| 0 <= j < i ==> units@[j] == le16(d@, start + 2 * j),
            decreases nu - i,
        {
            units.push(read_le16(d, start + 2 * i));
            i += 1;
        }
        proof {
            assert forall|j: int| 0 <= j < nu implies units@[j] == utf16_units(b)[j] by {
                assert(b[2 * j] == d@[start + 2 * j]);
                assert(b[2 * j + 1] == d@[start + 2 * j + 1]);
            }
            assert(units@ =~= utf16_units(b));
        }
        let ghost all = units@;
        let mut s = String::new();
        proof {
            assert(all.skip(0) =~= all);
            if utf16_points(all) is Some {
                assert(points(s@) + utf16_points(all).unwrap() =~= utf16_points(all).unwrap());
            }
        }
        let mut i: usize = 0;
        while i < nu
            invariant
                i <= nu,
                units@ == all,
                units@.len() == nu,
                b == d@.subrange(start as int, start as int + len as int),
                b.len() % 2 == 0,
                all == utf16_units(b),
                !compressed,
                utf16_points(all) == (match utf16_points(all.skip(i as int)) {
                    Some(rest) => Some(points(s@) + rest),
                    None => None,
                }),
            decreases nu - i,
        {
            let u0 = units[i];
            if !(0xD800 <= u0 && u0 <= 0xDFFF) {
                let c = match char::from_u32(u0 as u32) {
                    Some(c) => c,
                    None => {
                        proof {
                            assert(false);
                        }
                        return Err(HiveError::StringEncoding);
                    },
                };
                proof {
                    lemma_utf16_step_bmp(all, i as int);
                    assert(points(s@.push(c)) =~= points(s@) + seq![u0 as u32]);
                    if utf16_points(all.skip(i as int + 1)) is Some {
                        let rest = utf16_points(all.skip(i as int + 1)).unwrap();
                        assert((points(s@) + (seq![u0 as u32] + rest)) =~= ((points(s@)
                            + seq![u0 as u32]) + rest));
                    }
                }
                s.push(c);
                i += 1;
            } else if u0 <= 0xDBFF && i + 1 < nu && {
                let u1 = units[i + 1];
                0xDC00 <= u1 && u1 <= 0xDFFF
            } {
                let u1 = units[i + 1];
                let cp = 0x10000u32 + ((u0 - 0xD800) as u32) * 0x400 + ((u1 - 0xDC00) as u32);
                let c = match char::from_u32(cp) {
                    Some(c) => c,
                    None => {
                        proof {
                            assert(false);
                        }
                        return Err(HiveError::StringEncoding);
                    },
                };
                proof {
                    lemma_utf16_step_pair(all, i as int);
                    assert(points(s@.push(c)) =~= points(s@) + seq![cp]);
                    if utf16_points(all.skip(i as int + 2)) is Some {
                        let rest = utf16_points(all.skip(i as int + 2)).unwrap();
                        assert((points(s@) + (seq![cp] + rest)) =~= ((points(s@) + seq![cp])
                            + rest));
                    }
                }
                s.push(c);
                i += 2;
            } else {
                proof {
                    lemma_utf16_stuck(all, i as int);
                }
                return Err(HiveError::StringEncoding);
            }
        }
        proof {
            assert(all.skip(nu as int) =~= Seq::<u16>::empty());
            assert(points(s@) + Seq::<u32>::empty() =~= points(s@));
        }
        Ok(s)
    }
}

/// Law: a sequence of characters is determined by its code points.
pub proof fn lemma_points_injective(a: Seq<char>, b: Seq<char>)
    requires
        points(a) == points(b),
    ensures
        a == b,
{
    assert(a.len() == points(a).len());
    assert(b.len() == points(b).len());
    assert forall|i: int| 0 <= i < a.len() implies a[i] == b[i] by {
        assert(a[i] as u32 == points(a)[i]);
        assert(b[i] as u32 == points(b)[i]);
        vstd::utf8::char_u32_cast(a[i], a[i] as u32);
        vstd::utf8::char_u32_cast(b[i], b[i] as u32);
        assert((a[i] as u32) as char == a[i]);
        assert((b[i] as u32) as char == b[i]);
    }
    assert(a =~= b);
}

/// Exact character-for-character equality of two strings; no case folding.
pub fn str_eq(a: &str, b: &str) -> (r: bool)
    ensures
        r == (a@ == b@),
{
    let la = a.unicode_len();
    let lb = b.unicode_len();
    if la != lb {
        return false;
    }
    let mut i: usize = 0;
    while i < la
        invariant
            la == a@.len(),
            lb == b@.len(),
            la == lb,
            i <= la,
            forall|j: int| 0 <= j < i ==> a@[j] == b@[j],
        decreases la - i,
    {
        if a.get_char(i) != b.get_char(i) {
            return false;
        }
        i += 1;
    }
    proof {
        assert(a@ =~= b@);
    }
    true
}

} // verus!
