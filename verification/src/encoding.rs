//! How the characters of a text and the bytes of its UTF-8 encoding
//! correspond: cutting a text between two characters cuts its bytes at a
//! character boundary, a byte below 0x80 is always one whole character, and
//! one text occurs in another exactly when its bytes occur in the other's.
use vstd::prelude::*;
use vstd::utf8::*;
use crate::scan::{lemma_first_index, lemma_first_index_is};
use crate::text::{first_break, first_index, occurs_at, occurs_in};

verus! {

/// The byte that encodes a line feed.
pub const LINE_FEED: u8 = 0x0a;

/// The byte that encodes a carriage return.
pub const CARRIAGE_RETURN: u8 = 0x0d;

/// A number below 0x80 fits in one byte, which is the number itself.
proof fn lemma_one_byte(v: u32)
    by (bit_vector)
    requires
        v <= 0x7f,
    ensures
        (v & 0x7f) as u8 == v as u8,
        (v as u8) < 0x80,
        (v as u8) as u32 == v,
{
}

/// Every leading byte and continuation byte of an encoding of two or more
/// bytes is 0x80 or above.
proof fn lemma_high_bytes(v: u32)
    by (bit_vector)
    ensures
        0xC0u8 | ((v >> 6) & 0x1F) as u8 >= 0x80,
        0xE0u8 | ((v >> 12) & 0x0F) as u8 >= 0x80,
        0xF0u8 | ((v >> 18) & 0x7) as u8 >= 0x80,
        0x80u8 | (v & 0x3F) as u8 >= 0x80,
        0x80u8 | ((v >> 6) & 0x3F) as u8 >= 0x80,
        0x80u8 | ((v >> 12) & 0x3F) as u8 >= 0x80,
{
}

/// A character below 0x80 is encoded as the one byte of the same value; every
/// byte that encodes another character is 0x80 or above.
pub proof fn lemma_scalar_bytes(c: char)
    ensures
        1 <= encode_scalar(c as u32).len() <= 4,
        (c as u32) < 0x80 ==> {
            &&& encode_scalar(c as u32) == seq![c as u8]
            &&& (c as u8) < 0x80
            &&& (c as u8) as u32 == c as u32
        },
        (c as u32) >= 0x80 ==> forall|j: int|
            0 <= j < encode_scalar(c as u32).len() ==> #[trigger] encode_scalar(c as u32)[j]
                >= 0x80,
{
    let v: u32 = c as u32;
    char_is_scalar(c);
    lemma_high_bytes(v);
    if has_width_1_encoding(v) {
        lemma_one_byte(v);
        assert(encode_scalar(v) =~= seq![c as u8]);
    }
}

/// The encoding of one character alone.
pub proof fn lemma_encode_single(c: char)
    ensures
        encode_utf8(seq![c]) == encode_scalar(c as u32),
{
    let one = seq![c];
    assert(one.drop_first() =~= Seq::<char>::empty());
    assert(encode_utf8(one.drop_first()) =~= Seq::<u8>::empty());
    assert(encode_utf8(one) =~= encode_scalar(c as u32));
}

/// Encoding distributes over concatenation.
pub proof fn lemma_encode_concat(a: Seq<char>, b: Seq<char>)
    ensures
        encode_utf8(a + b) == encode_utf8(a) + encode_utf8(b),
    decreases a.len(),
{
    if a.len() == 0 {
        assert(a + b =~= b);
        assert(encode_utf8(a) + encode_utf8(b) =~= encode_utf8(b));
    } else {
        assert((a + b).drop_first() =~= a.drop_first() + b);
        lemma_encode_concat(a.drop_first(), b);
        assert(encode_utf8(a + b) =~= encode_utf8(a) + encode_utf8(b));
    }
}

/// Two texts with the same encoding are the same text.
pub proof fn lemma_encode_injective(a: Seq<char>, b: Seq<char>)
    requires
        encode_utf8(a) == encode_utf8(b),
    ensures
        a == b,
{
    encode_utf8_decode_utf8(a);
    encode_utf8_decode_utf8(b);
}

/// Two characters with the same number are the same character.
pub proof fn lemma_same_char(c: char, d: char)
    requires
        c as u32 == d as u32,
    ensures
        c == d,
{
    char_u32_cast(c, d as u32);
    char_u32_cast(d, d as u32);
}

/// An encoding that is not empty starts with a byte that is no continuation
/// byte.
proof fn lemma_starts_with_leading_byte(s: Seq<char>)
    requires
        s.len() > 0,
    ensures
        encode_utf8(s).len() > 0,
        !is_continuation_byte(encode_utf8(s)[0]),
{
    encode_utf8_first_scalar(s);
}

/// Cutting a text after its first `k` characters cuts its encoding at a
/// character boundary, into the encodings of the two parts.
pub proof fn lemma_encode_split(s: Seq<char>, k: int)
    requires
        0 <= k <= s.len(),
    ensures
        encode_utf8(s.take(k)).len() <= encode_utf8(s).len(),
        is_char_boundary(encode_utf8(s), encode_utf8(s.take(k)).len() as int),
        encode_utf8(s).subrange(0, encode_utf8(s.take(k)).len() as int) == encode_utf8(s.take(k)),
        encode_utf8(s).subrange(
            encode_utf8(s.take(k)).len() as int,
            encode_utf8(s).len() as int,
        ) == encode_utf8(s.skip(k)),
{
    let head = s.take(k);
    let tail = s.skip(k);
    let bytes = encode_utf8(s);
    let m: int = encode_utf8(head).len() as int;
    assert(s =~= head + tail);
    lemma_encode_concat(head, tail);
    assert(bytes.subrange(0, m) =~= encode_utf8(head));
    assert(bytes.subrange(m, bytes.len() as int) =~= encode_utf8(tail));
    encode_utf8_valid_utf8(s);
    if tail.len() == 0 {
        assert(encode_utf8(tail).len() == 0);
        is_char_boundary_start_end_of_seq(bytes);
    } else {
        lemma_starts_with_leading_byte(tail);
        assert(bytes[m] == encode_utf8(tail)[0]);
        is_char_boundary_iff_not_is_continuation_byte(bytes, m);
    }
}

/// Where a run without `mark` is put before a sequence, the first `mark`
/// moves back by the length of the run.
proof fn lemma_first_index_after<T>(run: Seq<T>, rest: Seq<T>, mark: T)
    requires
        forall|j: int| 0 <= j < run.len() ==> run[j] != mark,
    ensures
        first_index(run + rest, mark) == run.len() + first_index(rest, mark),
{
    lemma_first_index(rest, mark);
    lemma_first_index_is(run + rest, mark, (run.len() + first_index(rest, mark)) as int);
}

/// The first line-feed byte of an encoding stands where the encoding of the
/// characters before the first line feed ends.
pub proof fn lemma_first_break_encoded(s: Seq<char>)
    ensures
        first_break(s) <= s.len(),
        first_index(encode_utf8(s), LINE_FEED) == encode_utf8(s.take(first_break(s) as int)).len(),
    decreases s.len(),
{
    lemma_first_index(s, '\n');
    if s.len() == 0 {
        assert(s.take(0) =~= s);
    } else if s[0] == '\n' {
        lemma_scalar_bytes('\n');
        assert(s.take(0) =~= Seq::<char>::empty());
        assert(encode_utf8(s)[0] == LINE_FEED);
    } else {
        let rest = s.drop_first();
        let first = encode_scalar(s[0] as u32);
        let k: int = first_break(rest) as int;
        lemma_scalar_bytes(s[0]);
        lemma_first_break_encoded(rest);
        assert forall|j: int| 0 <= j < first.len() implies first[j] != LINE_FEED by {
            if (s[0] as u32) < 0x80 {
                assert(first[j] == s[0] as u8);
                if s[0] as u32 == 0x0a {
                    char_u32_cast(s[0], 0x0a);
                    char_u32_cast('\n', 0x0a);
                }
            } else {
                assert(first[j] >= 0x80);
            }
        }
        lemma_first_index_after(first, encode_utf8(rest), LINE_FEED);
        assert(s.take(1 + k) =~= seq![s[0]] + rest.take(k));
        lemma_encode_concat(seq![s[0]], rest.take(k));
        lemma_encode_single(s[0]);
    }
}

/// The last byte of an encoding is below 0x80 exactly when the last character
/// is, and is then that character; without it the encoding is one byte
/// shorter.
pub proof fn lemma_last_byte(s: Seq<char>)
    requires
        s.len() > 0,
    ensures
        encode_utf8(s).len() > 0,
        encode_utf8(s).last() < 0x80 <==> (s.last() as u32) < 0x80,
        (s.last() as u32) < 0x80 ==> {
            &&& encode_utf8(s).last() as u32 == s.last() as u32
            &&& encode_utf8(s.drop_last()).len() == encode_utf8(s).len() - 1
        },
{
    let c = s.last();
    assert(s =~= s.drop_last() + seq![c]);
    lemma_encode_concat(s.drop_last(), seq![c]);
    lemma_encode_single(c);
    lemma_scalar_bytes(c);
    let tail = encode_scalar(c as u32);
    assert(encode_utf8(s).last() == tail.last());
}

/// Where one valid encoding begins another, it ends at a character boundary
/// of the other.
proof fn lemma_prefix_ends_at_boundary(part: Seq<u8>, whole: Seq<u8>)
    requires
        valid_utf8(part),
        valid_utf8(whole),
        part.len() <= whole.len(),
        whole.subrange(0, part.len() as int) == part,
    ensures
        is_char_boundary(whole, part.len() as int),
    decreases part.len(),
{
    if part.len() > 0 {
        assert(whole[0] == part[0]);
        let n: int = length_of_first_scalar(part);
        assert(n == length_of_first_scalar(whole));
        assert(n <= part.len());
        assert forall|j: int| 0 <= j < n implies whole[j] == part[j] by {
            assert(whole.subrange(0, part.len() as int)[j] == part[j]);
        }
        assert(valid_first_scalar(whole));
        assert(pop_first_scalar(whole).subrange(0, part.len() - n) =~= pop_first_scalar(part)) by {
            assert forall|j: int| 0 <= j < part.len() - n implies pop_first_scalar(whole)[j]
                == pop_first_scalar(part)[j] by {
                assert(whole.subrange(0, part.len() as int)[j + n] == part[j + n]);
            }
        }
        lemma_prefix_ends_at_boundary(pop_first_scalar(part), pop_first_scalar(whole));
    }
}

/// Where the characters of `needle` stand in `hay`, its bytes stand in the
/// bytes of `hay`.
proof fn lemma_occurs_to_bytes(needle: Seq<char>, hay: Seq<char>, at: int)
    requires
        occurs_at(needle, hay, at),
    ensures
        occurs_at(encode_utf8(needle), encode_utf8(hay), encode_utf8(hay.take(at)).len() as int),
{
    let before = hay.take(at);
    let after = hay.skip(at + needle.len());
    assert(hay =~= before + needle + after);
    lemma_encode_concat(before + needle, after);
    lemma_encode_concat(before, needle);
    let bytes = encode_utf8(hay);
    let m: int = encode_utf8(before).len() as int;
    assert(bytes.subrange(m, m + encode_utf8(needle).len()) =~= encode_utf8(needle));
}

/// Where the bytes of `needle` stand in the bytes of `hay`, its characters
/// stand in `hay`.
proof fn lemma_occurs_from_bytes(needle: Seq<char>, hay: Seq<char>, m: int)
    requires
        occurs_at(encode_utf8(needle), encode_utf8(hay), m),
    ensures
        occurs_in(needle, hay),
{
    let part = encode_utf8(needle);
    let bytes = encode_utf8(hay);
    encode_utf8_valid_utf8(needle);
    encode_utf8_valid_utf8(hay);
    if needle.len() == 0 {
        assert(hay.subrange(0, 0) =~= needle);
        assert(occurs_at(needle, hay, 0));
    } else {
        lemma_starts_with_leading_byte(needle);
        assert(bytes.subrange(m, m + part.len())[0] == part[0]);
        is_char_boundary_iff_not_is_continuation_byte(bytes, m);
        valid_utf8_split(bytes, m);
        decode_utf8_split(bytes, m);
        let front = bytes.subrange(0, m);
        let back = bytes.subrange(m, bytes.len() as int);
        assert(back.subrange(0, part.len() as int) =~= part);
        lemma_prefix_ends_at_boundary(part, back);
        valid_utf8_split(back, part.len() as int);
        decode_utf8_split(back, part.len() as int);
        encode_utf8_decode_utf8(needle);
        encode_utf8_decode_utf8(hay);
        let before = decode_utf8(front);
        let after = decode_utf8(back.subrange(part.len() as int, back.len() as int));
        assert(hay =~= before + (needle + after));
        assert(hay.subrange(before.len() as int, before.len() as int + needle.len()) =~= needle);
        assert(occurs_at(needle, hay, before.len() as int));
    }
}

/// One text occurs in another exactly when its encoding occurs in the
/// encoding of the other.
pub proof fn lemma_occurs_encoded(needle: Seq<char>, hay: Seq<char>)
    ensures
        occurs_in(encode_utf8(needle), encode_utf8(hay)) <==> occurs_in(needle, hay),
{
    if occurs_in(needle, hay) {
        let at: int = choose|at: int| occurs_at(needle, hay, at);
        lemma_occurs_to_bytes(needle, hay, at);
    }
    if occurs_in(encode_utf8(needle), encode_utf8(hay)) {
        let m: int = choose|m: int| occurs_at(encode_utf8(needle), encode_utf8(hay), m);
        lemma_occurs_from_bytes(needle, hay, m);
    }
}

} // verus!
