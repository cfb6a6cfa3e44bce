//! Canonical byte serialization used for hashing chain records.
//!
//! Every variable-sized field is length-prefixed, so that the concatenation
//! of the encoded fields determines the fields themselves.

use vstd::prelude::*;
use vstd::bytes::lemma_auto_spec_u32_to_from_le_bytes;
use vstd::bytes::spec_u32_from_le_bytes;
use vstd::bytes::spec_u32_to_le_bytes;
use vstd::bytes::spec_u64_to_le_bytes;
use vstd::bytes::u32_to_le_bytes;
use vstd::bytes::u64_to_le_bytes;
use vstd::string::StrSliceExecFns;

verus! {

/// Four little-endian bytes holding a character's code point.
pub open spec fn char_bytes(c: char) -> Seq<u8> {
    spec_u32_to_le_bytes(c as u32)
}

/// The characters of `s` encoded one after another, four bytes each.
pub open spec fn chars_bytes(s: Seq<char>) -> Seq<u8>
    decreases s.len(),
{
    if s.len() == 0 {
        Seq::empty()
    } else {
        chars_bytes(s.drop_last()) + char_bytes(s.last())
    }
}

/// A string encoded as its character count followed by its characters.
pub open spec fn string_bytes(s: Seq<char>) -> Seq<u8> {
    spec_u64_to_le_bytes(s.len() as u64) + chars_bytes(s)
}

/// A byte blob encoded as its length followed by its bytes.
pub open spec fn blob_bytes(b: Seq<u8>) -> Seq<u8> {
    spec_u64_to_le_bytes(b.len() as u64) + b
}

pub proof fn lemma_chars_bytes_len(s: Seq<char>)
    ensures
        chars_bytes(s).len() == 4 * s.len(),
    decreases s.len(),
{
    lemma_auto_spec_u32_to_from_le_bytes();
    if s.len() > 0 {
        lemma_chars_bytes_len(s.drop_last());
    }
}

pub proof fn lemma_chars_bytes_push(s: Seq<char>, c: char)
    ensures
        chars_bytes(s.push(c)) == chars_bytes(s) + char_bytes(c),
{
    assert(s.push(c).drop_last() =~= s);
    assert(s.push(c).last() == c);
}

/// Equal concatenations with equally long heads have equal parts.
pub proof fn lemma_concat_split(x1: Seq<u8>, y1: Seq<u8>, x2: Seq<u8>, y2: Seq<u8>)
    requires
        x1 + y1 == x2 + y2,
        x1.len() == x2.len(),
    ensures
        x1 == x2,
        y1 == y2,
{
    assert(x1 =~= (x1 + y1).subrange(0, x1.len() as int));
    assert(x2 =~= (x2 + y2).subrange(0, x2.len() as int));
    assert(y1 =~= (x1 + y1).subrange(x1.len() as int, (x1 + y1).len() as int));
    assert(y2 =~= (x2 + y2).subrange(x2.len() as int, (x2 + y2).len() as int));
}

/// Character sequences of equal length with equal encodings are equal: the
/// character encoding is injective.
pub proof fn lemma_chars_bytes_injective(s1: Seq<char>, s2: Seq<char>)
    requires
        chars_bytes(s1) == chars_bytes(s2),
        s1.len() == s2.len(),
    ensures
        s1 == s2,
    decreases s1.len(),
{
    lemma_auto_spec_u32_to_from_le_bytes();
    if s1.len() == 0 {
        assert(s1 =~= s2);
    } else {
        lemma_chars_bytes_len(s1.drop_last());
        lemma_chars_bytes_len(s2.drop_last());
        lemma_concat_split(
            chars_bytes(s1.drop_last()),
            char_bytes(s1.last()),
            chars_bytes(s2.drop_last()),
            char_bytes(s2.last()),
        );
        assert(spec_u32_from_le_bytes(spec_u32_to_le_bytes(s1.last() as u32)) == s1.last()
            as u32);
        assert(s1.last() as u32 == s2.last() as u32);
        vstd::utf8::char_u32_cast(s1.last(), s1.last() as u32);
        vstd::utf8::char_u32_cast(s2.last(), s2.last() as u32);
        assert(s1.last() == s2.last());
        lemma_chars_bytes_injective(s1.drop_last(), s2.drop_last());
        assert(s1 =~= s1.drop_last().push(s1.last()));
        assert(s2 =~= s2.drop_last().push(s2.last()));
    }
}

/// Appends the eight little-endian bytes of `x` to `out`.
pub fn push_u64(out: &mut Vec<u8>, x: u64)
    ensures
        final(out)@ == old(out)@ + spec_u64_to_le_bytes(x),
{
    let mut bytes = u64_to_le_bytes(x);
    out.append(&mut bytes);
}

/// Appends the four little-endian bytes of `x` to `out`.
pub fn push_u32(out: &mut Vec<u8>, x: u32)
    ensures
        final(out)@ == old(out)@ + spec_u32_to_le_bytes(x),
{
    let mut bytes = u32_to_le_bytes(x);
    out.append(&mut bytes);
}

/// Appends a copy of the bytes of `b` to `out`.
pub fn push_bytes(out: &mut Vec<u8>, b: &Vec<u8>)
    ensures
        final(out)@ == old(out)@ + b@,
{
    proof {
        assert(out@ =~= old(out)@ + b@.subrange(0, 0));
    }
    let mut i: usize = 0;
    while i < b.len()
        invariant
            i <= b@.len(),
            out@ == old(out)@ + b@.subrange(0, i as int),
        decreases b@.len() - i,
    {
        out.push(b[i]);
        proof {
            assert(out@ =~= old(out)@ + b@.subrange(0, i + 1));
        }
        i += 1;
    }
    proof {
        assert(b@.subrange(0, b@.len() as int) =~= b@);
    }
}

/// Appends the four-byte encodings of the characters of `s` to `out`.
pub fn push_chars(out: &mut Vec<u8>, s: &str)
    ensures
        final(out)@ == old(out)@ + chars_bytes(s@),
{
    proof {
        assert(s@.subrange(0, 0) =~= Seq::<char>::empty());
        assert(out@ =~= old(out)@ + chars_bytes(s@.subrange(0, 0)));
    }
    let n: usize = s.unicode_len();
    let mut i: usize = 0;
    while i < n
        invariant
            n == s@.len(),
            i <= n,
            out@ == old(out)@ + chars_bytes(s@.subrange(0, i as int)),
        decreases n - i,
    {
        let c = s.get_char(i);
        push_u32(out, c as u32);
        proof {
            assert(s@.subrange(0, i as int).push(c) =~= s@.subrange(0, i + 1));
            lemma_chars_bytes_push(s@.subrange(0, i as int), c);
            assert(out@ =~= old(out)@ + chars_bytes(s@.subrange(0, i + 1)));
        }
        i += 1;
    }
    proof {
        assert(s@.subrange(0, n as int) =~= s@);
    }
}

} // verus!
