//! Laws relating the contracts of the text buffer's operations.

use crate::encoding::char_utf8;
use crate::encoding::lemma_char_utf8_is_encode_utf8;
use vstd::prelude::*;
use vstd::std_specs::cmp::PartialEqSpec;
use vstd::utf8::*;

verus! {

broadcast use vstd::utf8::group_utf8_lib;

/// The UTF-8 encoding is injective: two character sequences with the same
/// encoding are the same sequence. Hence building a buffer from a string
/// and reading the logical text back yields exactly that string, for any
/// string whose encoding fits the capacity: `from` leaves the buffer's
/// bytes at `encode_utf8(s@)`, and `as_str` returns the text those bytes
/// decode to.
pub proof fn lemma_encode_utf8_injective(a: Seq<char>, b: Seq<char>)
    requires
        encode_utf8(a) == encode_utf8(b),
    ensures
        a == b,
{
    assert(decode_utf8(encode_utf8(a)) == a);
    assert(decode_utf8(encode_utf8(b)) == b);
}

/// A well-formed byte sequence equal to the encoding of `s` decodes to
/// `s`: the byte-level round trip of `from` followed by `as_str`.
pub proof fn lemma_round_trip(bytes: Seq<u8>, s: Seq<char>)
    requires
        bytes == encode_utf8(s),
    ensures
        valid_utf8(bytes),
        decode_utf8(bytes) == s,
{
}

/// Equality on text buffers compares exactly the occupied bytes: two
/// well-formed buffers compare equal precisely when their logical byte
/// contents are the same sequence, whatever the unused tails hold.
pub proof fn lemma_string_eq_is_content_eq<const N: usize>(a: crate::String<N>, b: crate::String<
    N,
>)
    requires
        a.wf(),
        b.wf(),
    ensures
        a.eq_spec(&b) <==> (a@ == b@),
{
    if a.eq_spec(&b) {
        assert(a@ =~= b@);
    }
    if a@ == b@ {
        assert(a@.len() == b@.len());
        assert forall|t: int|
            0 <= t < (if a.len < N {
                a.len as int
            } else {
                N as int
            }) implies #[trigger] a.storage@[t] == b.storage@[t] by {
            assert(a@[t] == a.storage@[t]);
            assert(b@[t] == b.storage@[t]);
        }
    }
}

/// Equality on sequence buffers compares exactly the occupied elements:
/// two well-formed buffers compare equal precisely when they hold the
/// same number of elements and the elements compare equal pairwise,
/// whatever the unused tails hold.
pub proof fn lemma_vec_eq_is_content_eq<T: Copy + PartialEq, const N: usize>(
    a: crate::Vec<T, N>,
    b: crate::Vec<T, N>,
)
    requires
        a.wf(),
        b.wf(),
    ensures
        a.eq_spec(&b) <==> (a@.len() == b@.len() && forall|t: int|
            0 <= t < a@.len() ==> #[trigger] a@[t].eq_spec(&b@[t])),
{
    if a.eq_spec(&b) {
        assert forall|t: int| 0 <= t < a@.len() implies #[trigger] a@[t].eq_spec(&b@[t]) by {
            assert(a.storage@[t].eq_spec(&b.storage@[t]));
        }
    }
    if a@.len() == b@.len() && (forall|t: int| 0 <= t < a@.len() ==> #[trigger] a@[t].eq_spec(
        &b@[t],
    )) {
        assert forall|t: int|
            0 <= t < (if a.len < N {
                a.len as int
            } else {
                N as int
            }) implies #[trigger] a.storage@[t].eq_spec(&b.storage@[t]) by {
            assert(a@[t].eq_spec(&b@[t]));
        }
    }
}

/// Inserting the encoding of a codepoint `c` at a codepoint boundary `i`
/// of a well-formed byte sequence, as `insert` does, yields a well-formed
/// sequence in which the only codepoint whose encoding starts at `i` is
/// `c`, and removing that encoding again, as `remove` does, restores the
/// original bytes.
pub proof fn lemma_insert_then_remove_restores(b: Seq<u8>, c: char, i: int)
    requires
        valid_utf8(b),
        is_char_boundary(b, i),
        0 <= i <= b.len(),
    ensures
        ({
            let b2 = b.take(i) + char_utf8(c) + b.skip(i);
            &&& valid_utf8(b2)
            &&& is_char_boundary(b2, i)
            &&& i + char_utf8(c).len() <= b2.len()
            &&& b2.subrange(i, i + char_utf8(c).len() as int) == char_utf8(c)
            &&& b2.take(i) + b2.skip(i + char_utf8(c).len()) == b
            &&& forall|c2: char|
                i + char_utf8(c2).len() <= b2.len() && #[trigger] char_utf8(c2) == b2.subrange(
                    i,
                    i + char_utf8(c2).len() as int,
                ) ==> c2 == c
        }),
{
    let e = char_utf8(c);
    let b2 = b.take(i) + e + b.skip(i);
    lemma_char_utf8_is_encode_utf8(c);
    assert(valid_utf8(e));
    assert(b.take(i) =~= b.subrange(0, i));
    assert(b.skip(i) =~= b.subrange(i, b.len() as int));
    assert(valid_utf8(b.subrange(0, i)));
    assert(valid_utf8(b.subrange(i, b.len() as int)));
    assert(valid_utf8(e + b.skip(i))) by {
        valid_utf8_concat(e, b.subrange(i, b.len() as int));
    }
    assert(valid_utf8(b2)) by {
        valid_utf8_concat(b.subrange(0, i), e + b.subrange(i, b.len() as int));
        assert(b2 =~= b.subrange(0, i) + (e + b.subrange(i, b.len() as int)));
    }
    let t = e + b.skip(i);
    assert(b2.skip(i) =~= t);
    assert(b2.take(i) =~= b.take(i));
    crate::search::lemma_valid_prefix_boundary(b2, b.take(i));
    assert(is_char_boundary(b2, i));
    assert(b2.subrange(i, i + e.len() as int) =~= e);
    assert(b2.take(i) + b2.skip(i + e.len()) =~= b);
    // Uniqueness: any codepoint whose encoding stands at `i` is `c` itself.
    assert(valid_utf8(t)) by {
        valid_utf8_concat(e, b.subrange(i, b.len() as int));
    }
    assert forall|c2: char|
        i + char_utf8(c2).len() <= b2.len() && #[trigger] char_utf8(c2) == b2.subrange(
            i,
            i + char_utf8(c2).len() as int,
        ) implies c2 == c by {
        let e2 = char_utf8(c2);
        lemma_char_utf8_is_encode_utf8(c2);
        assert(t.take(e2.len() as int) =~= b2.subrange(i, i + e2.len() as int));
        assert(valid_utf8(e2));
        crate::search::lemma_valid_prefix_boundary(t, e2);
        let rest2 = t.subrange(e2.len() as int, t.len() as int);
        assert(valid_utf8(rest2));
        let chars2 = seq![c2] + decode_utf8(rest2);
        assert(encode_utf8(chars2) == encode_scalar(chars2[0] as u32) + encode_utf8(
            chars2.drop_first(),
        ));
        assert(chars2.drop_first() =~= decode_utf8(rest2));
        assert(encode_utf8(decode_utf8(rest2)) == rest2);
        assert(encode_utf8(chars2) =~= t);
        let rest1 = t.subrange(e.len() as int, t.len() as int);
        assert(rest1 =~= b.skip(i));
        let chars1 = seq![c] + decode_utf8(rest1);
        assert(encode_utf8(chars1) == encode_scalar(chars1[0] as u32) + encode_utf8(
            chars1.drop_first(),
        ));
        assert(chars1.drop_first() =~= decode_utf8(rest1));
        assert(encode_utf8(decode_utf8(rest1)) == rest1);
        assert(encode_utf8(chars1) =~= t);
        lemma_encode_utf8_injective(chars1, chars2);
        assert(chars1[0] == chars2[0]);
    }
}

} // verus!
