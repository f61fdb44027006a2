//! Executable UTF-8 encoding and decoding of single codepoints, proved
//! against the specification functions in `vstd::utf8`.

use vstd::prelude::*;
use vstd::utf8::*;

verus! {

/// The UTF-8 encoding of a single character.
pub open spec fn char_utf8(c: char) -> Seq<u8> {
    encode_scalar(c as u32)
}

/// `char_utf8` agrees with `encode_utf8` on a one-character sequence.
pub broadcast proof fn lemma_char_utf8_is_encode_utf8(c: char)
    ensures
        #[trigger] encode_utf8(seq![c]) == char_utf8(c),
{
    assert(seq![c].drop_first() =~= Seq::<char>::empty());
    assert(encode_utf8(seq![c].drop_first()) =~= Seq::<u8>::empty());
    assert(encode_utf8(seq![c]) =~= encode_scalar(seq![c][0] as u32));
}

/// The byte-level ASCII lower-casing map: `A`..`Z` shifted to `a`..`z`,
/// every other byte unchanged.
pub open spec fn ascii_lower(b: u8) -> u8 {
    if 0x41 <= b <= 0x5A {
        (b + 0x20) as u8
    } else {
        b
    }
}

/// The byte-level ASCII upper-casing map: `a`..`z` shifted to `A`..`Z`,
/// every other byte unchanged.
pub open spec fn ascii_upper(b: u8) -> u8 {
    if 0x61 <= b <= 0x7A {
        (b - 0x20) as u8
    } else {
        b
    }
}

/// A byte map that permutes the ASCII range and leaves all other bytes
/// alone preserves UTF-8 well-formedness.
pub proof fn lemma_ascii_byte_map_valid(s: Seq<u8>, f: spec_fn(u8) -> u8)
    requires
        valid_utf8(s),
        forall|b: u8| b < 0x80 ==> #[trigger] f(b) < 0x80,
        forall|b: u8| b >= 0x80 ==> #[trigger] f(b) == b,
    ensures
        valid_utf8(s.map_values(f)),
    decreases s.len(),
{
    let m = s.map_values(f);
    if s.len() == 0 {
        assert(m.len() == 0);
    } else {
        let w = length_of_first_scalar(s);
        let rest = pop_first_scalar(s);
        let mrest = m.subrange(w, m.len() as int);
        assert(m[0] == f(s[0]));
        if is_leading_byte_width_1(s[0]) {
            assert(is_leading_byte_width_1(m[0]));
            assert(valid_first_scalar(m));
            assert(length_of_first_scalar(m) == 1);
        } else {
            assert(s[0] >= 0x80);
            assert(m[0] == s[0]);
            assert(forall|j: int|
                1 <= j < w ==> #[trigger] m[j] == s[j] && is_continuation_byte(s[j]));
            assert(valid_leading_and_continuation_bytes_first_codepoint(m));
            assert(length_of_first_codepoint(m) == w);
            assert(decode_first_codepoint(m) == decode_first_codepoint(s));
            assert(valid_first_scalar(m));
        }
        assert(mrest =~= rest.map_values(f));
        lemma_ascii_byte_map_valid(rest, f);
        assert(pop_first_scalar(m) == mrest);
    }
}

/// The decoded value of a well-formed first scalar is itself a Unicode
/// scalar.
pub proof fn lemma_first_scalar_is_scalar(bytes: Seq<u8>)
    requires
        valid_first_scalar(bytes),
    ensures
        is_scalar(decode_first_scalar(bytes)),
{
    let b0 = bytes[0];
    if is_leading_byte_width_1(b0) {
        assert(codepoint_width_1(b0) <= 0x7F) by (bit_vector)
            requires
                0x00 <= b0 <= 0x7f,
        ;
    } else if is_leading_byte_width_2(b0) {
        let b1 = bytes[1];
        assert(codepoint_width_2(b0, b1) <= 0x7FF) by (bit_vector);
    } else if is_leading_byte_width_3(b0) {
        let b1 = bytes[1];
        let b2 = bytes[2];
        assert(codepoint_width_3(b0, b1, b2) <= 0xFFFF) by (bit_vector);
    }
}

/// Builds the character with the given scalar value.
///
/// Relies on `char::from_u32`: it returns `Some` exactly on values that are
/// at most `0x10FFFF` and outside the surrogate range, and the character it
/// returns carries that value.
#[verifier::external_body]
fn char_from_u32(v: u32) -> (r: char)
    requires
        is_scalar(v),
    ensures
        r as u32 == v,
{
    char::from_u32(v).unwrap()
}

/// A codepoint boundary within a well-formed byte sequence is followed by
/// another boundary one whole encoding later.
pub proof fn lemma_boundary_after_scalar(bytes: Seq<u8>, i: int)
    requires
        valid_utf8(bytes),
        is_char_boundary(bytes, i),
        0 <= i < bytes.len(),
    ensures
        valid_first_scalar(bytes.subrange(i, bytes.len() as int)),
        is_char_boundary(
            bytes,
            i + length_of_first_scalar(bytes.subrange(i, bytes.len() as int)),
        ),
    decreases bytes.len(),
{
    broadcast use vstd::seq_lib::group_seq_lib_default;

    let tail = bytes.subrange(i, bytes.len() as int);
    if i == 0 {
        assert(tail =~= bytes);
        let w = length_of_first_scalar(bytes);
        let rest = pop_first_scalar(bytes);
        assert(is_char_boundary(rest, 0));
        assert(is_char_boundary(bytes, w));
    } else {
        let w1 = length_of_first_scalar(bytes);
        let rest = pop_first_scalar(bytes);
        assert(is_char_boundary(rest, i - w1));
        lemma_boundary_after_scalar(rest, i - w1);
        assert(rest.subrange(i - w1, rest.len() as int) =~= tail);
        let w = length_of_first_scalar(tail);
        assert(is_char_boundary(rest, i - w1 + w));
        assert(is_char_boundary(bytes, i + w));
    }
}

/// Decides whether the bytes are a well-formed UTF-8 encoding, scanning
/// one codepoint at a time: each scalar must carry a sound leading byte,
/// its continuation bytes, no overlong encoding, and no surrogate value.
pub fn validate_utf8(bytes: &[u8]) -> (r: bool)
    ensures
        r == valid_utf8(bytes@),
{
    let n = bytes.len();
    let mut i: usize = 0;
    while i < n
        invariant
            i <= n,
            n == bytes@.len(),
            partial_valid_utf8(bytes@, i as int),
        decreases n - i,
    {
        let ghost tail = bytes@.subrange(i as int, n as int);
        let b0 = bytes[i];
        proof {
            assert(tail[0] == b0);
        }
        if b0 < 0x80 {
            proof {
                assert(codepoint_width_1(b0) < 0xD800 && codepoint_width_1(b0) >= 0) by (bit_vector)
                    requires
                        b0 < 0x80,
                ;
                assert(valid_first_scalar(tail));
                partial_valid_utf8_extend(bytes@, i as int);
            }
            i += 1;
        } else if 0xC2 <= b0 && b0 <= 0xDF {
            if n - i < 2 {
                proof {
                    assert(!valid_first_scalar(tail));
                    partial_valid_partial_invalid_utf8(bytes@, i as int);
                }
                return false;
            }
            let b1 = bytes[i + 1];
            proof {
                assert(tail[1] == b1);
            }
            if !(0x80 <= b1 && b1 <= 0xBF) {
                proof {
                    assert(!valid_first_scalar(tail));
                    partial_valid_partial_invalid_utf8(bytes@, i as int);
                }
                return false;
            }
            proof {
                assert(0x80 <= codepoint_width_2(b0, b1) <= 0x7FF) by (bit_vector)
                    requires
                        0xC2 <= b0 <= 0xDF,
                ;
                assert(valid_first_scalar(tail));
                partial_valid_utf8_extend(bytes@, i as int);
            }
            i += 2;
        } else if 0xE0 <= b0 && b0 <= 0xEF {
            if n - i < 3 {
                proof {
                    assert(!valid_first_scalar(tail));
                    partial_valid_partial_invalid_utf8(bytes@, i as int);
                }
                return false;
            }
            let b1 = bytes[i + 1];
            let b2 = bytes[i + 2];
            proof {
                assert(tail[1] == b1);
                assert(tail[2] == b2);
            }
            if !(0x80 <= b1 && b1 <= 0xBF) || !(0x80 <= b2 && b2 <= 0xBF) {
                proof {
                    assert(!valid_first_scalar(tail));
                    partial_valid_partial_invalid_utf8(bytes@, i as int);
                }
                return false;
            }
            let v = (((b0 & 0x0F) as u32) << 12) | (((b1 & 0x3F) as u32) << 6) | ((b2
                & 0x3F) as u32);
            proof {
                assert(v == codepoint_width_3(b0, b1, b2));
            }
            if v < 0x800 || (0xD800 <= v && v <= 0xDFFF) {
                proof {
                    assert(!valid_first_scalar(tail));
                    partial_valid_partial_invalid_utf8(bytes@, i as int);
                }
                return false;
            }
            proof {
                assert(valid_first_scalar(tail));
                partial_valid_utf8_extend(bytes@, i as int);
            }
            i += 3;
        } else if 0xF0 <= b0 && b0 <= 0xF7 {
            if n - i < 4 {
                proof {
                    assert(!valid_first_scalar(tail));
                    partial_valid_partial_invalid_utf8(bytes@, i as int);
                }
                return false;
            }
            let b1 = bytes[i + 1];
            let b2 = bytes[i + 2];
            let b3 = bytes[i + 3];
            proof {
                assert(tail[1] == b1);
                assert(tail[2] == b2);
                assert(tail[3] == b3);
            }
            if !(0x80 <= b1 && b1 <= 0xBF) || !(0x80 <= b2 && b2 <= 0xBF) || !(0x80 <= b3 && b3
                <= 0xBF) {
                proof {
                    assert(!valid_first_scalar(tail));
                    partial_valid_partial_invalid_utf8(bytes@, i as int);
                }
                return false;
            }
            let v = (((b0 & 0x07) as u32) << 18) | (((b1 & 0x3F) as u32) << 12) | (((b2
                & 0x3F) as u32) << 6) | ((b3 & 0x3F) as u32);
            proof {
                assert(v == codepoint_width_4(b0, b1, b2, b3));
            }
            if v < 0x10000 || v > 0x10FFFF {
                proof {
                    assert(!valid_first_scalar(tail));
                    partial_valid_partial_invalid_utf8(bytes@, i as int);
                }
                return false;
            }
            proof {
                assert(0x10000 <= v <= 0x10FFFF ==> !(0xD800 <= v <= 0xDFFF));
                assert(valid_first_scalar(tail));
                partial_valid_utf8_extend(bytes@, i as int);
            }
            i += 4;
        } else {
            proof {
                if 0xC0 <= b0 && b0 <= 0xC1 && tail.len() >= 2 && is_continuation_byte(tail[1]) {
                    let b1 = tail[1];
                    assert(codepoint_width_2(b0, b1) < 0x80) by (bit_vector)
                        requires
                            0xC0 <= b0 <= 0xC1,
                    ;
                }
                assert(!valid_first_scalar(tail));
                partial_valid_partial_invalid_utf8(bytes@, i as int);
            }
            return false;
        }
    }
    proof {
        assert(bytes@.subrange(0, n as int) =~= bytes@);
    }
    true
}

/// Reads the codepoint whose UTF-8 encoding starts at boundary `i`,
/// returning the character and the byte width of its encoding.
pub fn decode_char_at(bytes: &[u8], i: usize) -> (r: (char, usize))
    requires
        valid_utf8(bytes@),
        i < bytes@.len(),
        is_char_boundary(bytes@, i as int),
    ensures
        ({
            let tail = bytes@.subrange(i as int, bytes@.len() as int);
            &&& 1 <= r.1 <= 4
            &&& i + r.1 <= bytes@.len()
            &&& r.1 == length_of_first_scalar(tail)
            &&& char_utf8(r.0) == tail.take(r.1 as int)
            &&& r.0 as u32 == decode_first_scalar(tail)
            &&& is_char_boundary(bytes@, i + r.1)
        }),
{
    let ghost tail = bytes@.subrange(i as int, bytes@.len() as int);
    proof {
        broadcast use vstd::utf8::valid_utf8_split, vstd::utf8::char_u32_cast;

        lemma_boundary_after_scalar(bytes@, i as int);
        lemma_first_scalar_is_scalar(tail);
        decode_utf8_first_scalar(tail);
        assert(take_first_scalar(tail) =~= tail.take(length_of_first_scalar(tail)));
    }
    let b0 = bytes[i];
    proof {
        assert(tail[0] == bytes@[i as int]);
    }
    if b0 < 0x80 {
        let v = b0 as u32;
        proof {
            assert(b0 & 0x7F == b0) by (bit_vector)
                requires
                    b0 < 0x80,
            ;
            assert(v == decode_first_scalar(tail));
        }
        (char_from_u32(v), 1)
    } else if b0 < 0xE0 {
        let b1 = bytes[i + 1];
        let v = (((b0 & 0x1F) as u32) << 6) | ((b1 & 0x3F) as u32);
        proof {
            assert(tail[1] == bytes@[i + 1]);
            assert(v == decode_first_scalar(tail));
        }
        (char_from_u32(v), 2)
    } else if b0 < 0xF0 {
        let b1 = bytes[i + 1];
        let b2 = bytes[i + 2];
        let v = (((b0 & 0x0F) as u32) << 12) | (((b1 & 0x3F) as u32) << 6) | ((b2 & 0x3F) as u32);
        proof {
            assert(tail[1] == bytes@[i + 1]);
            assert(tail[2] == bytes@[i + 2]);
            assert(v == decode_first_scalar(tail));
        }
        (char_from_u32(v), 3)
    } else {
        let b1 = bytes[i + 1];
        let b2 = bytes[i + 2];
        let b3 = bytes[i + 3];
        let v = (((b0 & 0x07) as u32) << 18) | (((b1 & 0x3F) as u32) << 12) | (((b2
            & 0x3F) as u32) << 6) | ((b3 & 0x3F) as u32);
        proof {
            assert(tail[1] == bytes@[i + 1]);
            assert(tail[2] == bytes@[i + 2]);
            assert(tail[3] == bytes@[i + 3]);
            assert(v == decode_first_scalar(tail));
        }
        (char_from_u32(v), 4)
    }
}

/// Writes the UTF-8 encoding of `c` into a 4-byte buffer and returns the
/// buffer together with the number of bytes used.
pub fn encode_char(c: char) -> (r: ([u8; 4], usize))
    ensures
        1 <= r.1 <= 4,
        r.0@.take(r.1 as int) == char_utf8(c),
        r.1 == char_utf8(c).len(),
{
    let v = c as u32;
    proof {
        broadcast use vstd::utf8::char_is_scalar;

    }
    let mut buf: [u8; 4] = [0u8; 4];
    if v < 0x80 {
        buf[0] = v as u8;
        proof {
            assert(v as u8 == leading_byte_width_1(v)) by (bit_vector)
                requires
                    v < 0x80,
            ;
            assert(buf@.take(1) =~= char_utf8(c));
        }
        (buf, 1)
    } else if v < 0x800 {
        buf[0] = (0xC0 | (v >> 6)) as u8;
        buf[1] = (0x80 | (v & 0x3F)) as u8;
        proof {
            assert((0xC0 | (v >> 6)) as u8 == leading_byte_width_2(v) && (0x80 | (v & 0x3F)) as u8
                == last_continuation_byte(v)) by (bit_vector)
                requires
                    0x80 <= v < 0x800,
            ;
            assert(buf@.take(2) =~= char_utf8(c));
        }
        (buf, 2)
    } else if v < 0x10000 {
        buf[0] = (0xE0 | (v >> 12)) as u8;
        buf[1] = (0x80 | ((v >> 6) & 0x3F)) as u8;
        buf[2] = (0x80 | (v & 0x3F)) as u8;
        proof {
            assert((0xE0 | (v >> 12)) as u8 == leading_byte_width_3(v) && (0x80 | ((v >> 6)
                & 0x3F)) as u8 == second_last_continuation_byte(v) && (0x80 | (v & 0x3F)) as u8
                == last_continuation_byte(v)) by (bit_vector)
                requires
                    0x800 <= v < 0x10000,
            ;
            assert(buf@.take(3) =~= char_utf8(c));
        }
        (buf, 3)
    } else {
        buf[0] = (0xF0 | (v >> 18)) as u8;
        buf[1] = (0x80 | ((v >> 12) & 0x3F)) as u8;
        buf[2] = (0x80 | ((v >> 6) & 0x3F)) as u8;
        buf[3] = (0x80 | (v & 0x3F)) as u8;
        proof {
            assert((0xF0 | (v >> 18)) as u8 == leading_byte_width_4(v) && (0x80 | ((v >> 12)
                & 0x3F)) as u8 == third_last_continuation_byte(v) && (0x80 | ((v >> 6)
                & 0x3F)) as u8 == second_last_continuation_byte(v) && (0x80 | (v & 0x3F)) as u8
                == last_continuation_byte(v)) by (bit_vector)
                requires
                    0x10000 <= v <= 0x10FFFF,
            ;
            assert(buf@.take(4) =~= char_utf8(c));
        }
        (buf, 4)
    }
}

} // verus!
