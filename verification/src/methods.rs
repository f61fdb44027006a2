//! Construction, growth and in-place mutation of the bounded text buffer.

use crate::encoding::char_utf8;
use crate::encoding::decode_char_at;
use crate::encoding::encode_char;
use crate::encoding::lemma_char_utf8_is_encode_utf8;
use crate::ContainerError;
use crate::String;
use vstd::prelude::*;
use vstd::string::StringSliceAdditionalSpecFns;
use vstd::utf8::*;

verus! {

broadcast use vstd::utf8::group_utf8_lib;

/// `s` repeated `n` times, as bytes.
pub open spec fn repeated(s: Seq<u8>, n: nat) -> Seq<u8>
    decreases n,
{
    if n == 0 {
        Seq::empty()
    } else {
        repeated(s, (n - 1) as nat) + s
    }
}

/// The largest codepoint boundary of `b` that is at most `m`.
pub open spec fn boundary_floor(b: Seq<u8>, m: int) -> int
    recommends
        vstd::utf8::valid_utf8(b),
        m <= b.len(),
    decreases m,
{
    if m <= 0 {
        0
    } else if is_char_boundary(b, m) {
        m
    } else {
        boundary_floor(b, m - 1)
    }
}

/// The UTF-8 encoding of the characters of `cs` at the positions marked
/// `true` in `keep`, in order.
pub open spec fn kept_text(cs: Seq<char>, keep: Seq<bool>) -> Seq<u8>
    recommends
        keep.len() == cs.len(),
    decreases cs.len(),
{
    if cs.len() == 0 {
        Seq::empty()
    } else {
        (if keep[0] {
            char_utf8(cs[0])
        } else {
            Seq::empty()
        }) + kept_text(cs.drop_first(), keep.drop_first())
    }
}

proof fn lemma_kept_text_snoc(cs: Seq<char>, keep: Seq<bool>, c: char, b: bool)
    requires
        keep.len() == cs.len(),
    ensures
        kept_text(cs.push(c), keep.push(b)) == kept_text(cs, keep) + (if b {
            char_utf8(c)
        } else {
            Seq::empty()
        }),
    decreases cs.len(),
{
    if cs.len() == 0 {
        reveal_with_fuel(kept_text, 3);
        assert(cs.push(c)[0] == c);
        assert(keep.push(b)[0] == b);
        assert(cs.push(c).drop_first() =~= Seq::<char>::empty());
        assert(keep.push(b).drop_first() =~= Seq::<bool>::empty());
        assert(kept_text(cs.push(c), keep.push(b)) =~= kept_text(cs, keep) + (if b {
            char_utf8(c)
        } else {
            Seq::empty()
        }));
    } else {
        assert(cs.push(c)[0] == cs[0]);
        assert(keep.push(b)[0] == keep[0]);
        assert(cs.push(c).drop_first() =~= cs.drop_first().push(c));
        assert(keep.push(b).drop_first() =~= keep.drop_first().push(b));
        lemma_kept_text_snoc(cs.drop_first(), keep.drop_first(), c, b);
        assert(kept_text(cs.push(c), keep.push(b)) =~= kept_text(cs, keep) + (if b {
            char_utf8(c)
        } else {
            Seq::empty()
        }));
    }
}

proof fn lemma_kept_text_valid(cs: Seq<char>, keep: Seq<bool>)
    requires
        keep.len() == cs.len(),
    ensures
        valid_utf8(kept_text(cs, keep)),
    decreases cs.len(),
{
    broadcast use vstd::utf8::valid_utf8_concat, vstd::utf8::encode_utf8_valid_utf8;

    if cs.len() == 0 {
    } else {
        lemma_kept_text_valid(cs.drop_first(), keep.drop_first());
        if keep[0] {
            lemma_char_utf8_is_encode_utf8(cs[0]);
            assert(valid_utf8(char_utf8(cs[0])));
        } else {
            assert(Seq::<u8>::empty() + kept_text(cs.drop_first(), keep.drop_first())
                =~= kept_text(cs.drop_first(), keep.drop_first()));
        }
    }
}

/// Re-asserts a byte slice as text.
///
/// Relies on `core::str::from_utf8`: on bytes that are a valid UTF-8
/// encoding it returns `Ok` with the string slice viewing exactly those
/// bytes.
#[verifier::external_body]
fn str_from_bytes(bytes: &[u8]) -> (r: &str)
    requires
        valid_utf8(bytes@),
    ensures
        r.spec_bytes() == bytes@,
{
    core::str::from_utf8(bytes).unwrap()
}

impl<const N: usize> String<N> {
    /// Creates an empty text buffer with a capacity of `N` bytes.
    ///
    /// `N` bounds the byte length, not the character count: a single
    /// character may occupy up to four bytes.
    pub fn new() -> (r: Self)
        ensures
            r.wf(),
            r@ == Seq::<u8>::empty(),
    {
        let r = String { storage: [0u8; N], len: 0 };
        proof {
            assert(r@ =~= Seq::<u8>::empty());
        }
        r
    }

    /// The fixed byte capacity `N`.
    pub fn capacity(&self) -> (r: usize)
        ensures
            r == N,
    {
        N
    }

    /// Empties the buffer.
    pub fn clear(&mut self)
        ensures
            final(self).wf(),
            final(self)@ == Seq::<u8>::empty(),
    {
        self.len = 0;
        proof {
            assert(self@ =~= Seq::<u8>::empty());
        }
    }

    /// Shortens the text to `new_len` bytes; a no-op when `new_len` is not
    /// below the current length. The caller must name a codepoint boundary:
    /// cutting inside a multi-byte encoding is left out by contract rather
    /// than checked at run time.
    pub fn truncate(&mut self, new_len: usize)
        requires
            old(self).wf(),
            new_len < old(self)@.len() ==> is_char_boundary(old(self)@, new_len as int),
        ensures
            final(self).wf(),
            new_len >= old(self)@.len() ==> final(self)@ == old(self)@,
            new_len < old(self)@.len() ==> final(self)@ == old(self)@.take(new_len as int),
    {
        if new_len < self.len {
            proof {
                assert(old(self)@.subrange(0, new_len as int) =~= old(self)@.take(new_len as int));
            }
            self.len = new_len;
            proof {
                assert(self@ =~= old(self)@.take(new_len as int));
            }
        }
    }

    /// The logical text, borrowed as a string slice.
    pub fn as_str(&self) -> (r: &str)
        requires
            self.wf(),
        ensures
            r.spec_bytes() == self@,
            r@ == self.text(),
    {
        let s = str_from_bytes(&self.storage[0..self.len]);
        proof {
            assert(self.storage@.subrange(0, self.len as int) =~= self@);
        }
        s
    }

    /// The logical text, borrowed as a mutable string slice. Writing
    /// through the slice replaces bytes one for one; the occupied length
    /// does not change.
    ///
    /// Relies on `core::str::from_utf8_mut`: on bytes that are a valid
    /// UTF-8 encoding it returns `Ok` with the mutable string slice
    /// viewing exactly those bytes, and safe callers can only leave valid
    /// UTF-8 of the same byte length behind.
    #[verifier::external_body]
    pub fn as_mut_str(&mut self) -> (r: &mut str)
        requires
            old(self).wf(),
        ensures
            r.spec_bytes() == old(self)@,
            final(r).spec_bytes().len() == old(self)@.len(),
            final(self)@ == final(r).spec_bytes(),
            final(self).wf(),
    {
        core::str::from_utf8_mut(&mut self.storage[0..self.len]).unwrap()
    }

    /// Copies the bytes of `src` over the storage cells starting at `at`.
    /// The occupied length is not touched; callers adjust it themselves.
    pub(crate) fn write_at(&mut self, at: usize, src: &[u8])
        requires
            at + src@.len() <= N,
        ensures
            final(self).len == old(self).len,
            final(self).storage@ =~= old(self).storage@.take(at as int) + src@ + old(
                self,
            ).storage@.skip(at + src@.len()),
    {
        let ghost pstore = self.storage@;
        let ghost plen = self.len;
        let m = src.len();
        let mut j: usize = 0;
        while j < m
            invariant
                j <= m,
                m == src@.len(),
                at + m <= N,
                self.len == plen,
                self.storage@.len() == N,
                pstore.len() == N,
                self.storage@ =~= pstore.take(at as int) + src@.take(j as int) + pstore.skip(
                    at + j,
                ),
            decreases m - j,
        {
            self.storage[at + j] = src[j];
            proof {
                assert(self.storage@ =~= pstore.take(at as int) + src@.take(j + 1) + pstore.skip(
                    at + j + 1,
                ));
            }
            j += 1;
        }
        proof {
            assert(src@.take(m as int) =~= src@);
        }
    }

    /// Moves the bytes at `[from, len)` down to start at `to`, part of
    /// removing the range `[to, from)`. The occupied length is not touched.
    fn shift_tail_left(&mut self, to: usize, from: usize)
        requires
            to <= from <= old(self).len <= N,
        ensures
            final(self).len == old(self).len,
            final(self).storage@.len() == N,
            forall|t: int|
                0 <= t < to ==> #[trigger] final(self).storage@[t] == old(self).storage@[t],
            forall|t: int|
                to <= t < to + (old(self).len - from) ==> #[trigger] final(self).storage@[t]
                    == old(self).storage@[t + (from - to)],
    {
        let ghost pstore = self.storage@;
        let ghost plen = self.len;
        let mut k: usize = 0;
        while from + k < self.len
            invariant
                to <= from <= plen <= N,
                self.len == plen,
                from + k <= plen,
                self.storage@.len() == N,
                pstore.len() == N,
                forall|t: int|
                    0 <= t < to ==> #[trigger] self.storage@[t] == pstore[t],
                forall|t: int|
                    to <= t < to + k ==> #[trigger] self.storage@[t] == pstore[t + (from - to)],
                forall|t: int|
                    to + k <= t < N ==> #[trigger] self.storage@[t] == pstore[t],
            decreases plen - k,
        {
            self.storage[to + k] = self.storage[from + k];
            k += 1;
        }
    }

    /// Moves the bytes at `[from, len)` up by `w` cells, opening a gap of
    /// `w` bytes at `from`. The occupied length is not touched.
    fn shift_tail_right(&mut self, from: usize, w: usize)
        requires
            from <= old(self).len,
            old(self).len + w <= N,
        ensures
            final(self).len == old(self).len,
            final(self).storage@.len() == N,
            forall|t: int|
                0 <= t < from ==> #[trigger] final(self).storage@[t] == old(self).storage@[t],
            forall|t: int|
                from + w <= t < old(self).len + w ==> #[trigger] final(self).storage@[t] == old(
                    self,
                ).storage@[t - w],
    {
        let ghost pstore = self.storage@;
        let ghost plen = self.len;
        let mut k: usize = self.len;
        while k > from
            invariant
                from <= k <= plen,
                plen + w <= N,
                self.len == plen,
                self.storage@.len() == N,
                pstore.len() == N,
                forall|t: int|
                    0 <= t < k + w ==> #[trigger] self.storage@[t] == pstore[t],
                forall|t: int|
                    k + w <= t < plen + w ==> #[trigger] self.storage@[t] == pstore[t - w],
            decreases k,
        {
            k -= 1;
            self.storage[k + w] = self.storage[k];
        }
    }

    /// Removes and returns the last codepoint, or `None` on an empty
    /// buffer.
    pub fn pop(&mut self) -> (r: Option<char>)
        requires
            old(self).wf(),
        ensures
            final(self).wf(),
            old(self)@.len() == 0 ==> r is None && final(self)@ == old(self)@,
            old(self)@.len() > 0 ==> match r {
                Some(c) => old(self)@ == final(self)@ + char_utf8(c),
                None => false,
            },
    {
        if self.len == 0 {
            return None;
        }
        let ghost s = self@;
        let mut p: usize = self.len - 1;
        while p > 0 && (self.storage[p] & 0xC0) == 0x80
            invariant
                old(self) == self,
                old(self).wf(),
                self.len > 0,
                p < self.len,
                s == self@,
                forall|j: int| p < j < self.len ==> is_continuation_byte(#[trigger] s[j]),
            decreases p,
        {
            proof {
                assert(is_continuation_byte(s[p as int]));
            }
            p -= 1;
        }
        proof {
            if p > 0 {
                assert(!is_continuation_byte(s[p as int]));
            } else {
                assert(is_char_boundary(s, 0));
                assert(!is_continuation_byte(s[0]));
            }
            assert(is_char_boundary(s, p as int));
        }
        let (c, w) = decode_char_at(&self.storage[0..self.len], p);
        let ghost tail = s.subrange(p as int, s.len() as int);
        proof {
            assert(self.storage@.subrange(0, self.len as int) =~= s);
            let rest = pop_first_scalar(tail);
            if rest.len() > 0 {
                assert(valid_utf8(tail));
                assert(valid_first_scalar(rest));
                assert(!is_continuation_byte(rest[0]));
                assert(rest[0] == s[p + w]);
                assert(is_continuation_byte(s[p + w]));
                assert(false);
            }
            assert(p + w == self.len);
        }
        self.len = p;
        proof {
            assert(self@ =~= s.subrange(0, p as int));
            assert(char_utf8(c) =~= tail);
            assert(s =~= self@ + tail);
        }
        Some(c)
    }

    /// Removes the codepoint whose encoding starts at byte `i`, shifts the
    /// trailing bytes left, and returns the removed codepoint. Rejected with
    /// `IndexOutOfBounds` when `i` does not name a codepoint boundary below
    /// the occupied length.
    pub fn remove(&mut self, i: usize) -> (r: Result<char, ContainerError>)
        requires
            old(self).wf(),
        ensures
            final(self).wf(),
            r is Ok <==> i < old(self)@.len() && is_char_boundary(old(self)@, i as int),
            match r {
                Ok(c) => {
                    &&& i + char_utf8(c).len() <= old(self)@.len()
                    &&& char_utf8(c) == old(self)@.subrange(i as int, i + char_utf8(c).len())
                    &&& final(self)@ == old(self)@.take(i as int) + old(self)@.skip(
                        i + char_utf8(c).len(),
                    )
                },
                Err(e) => final(self)@ == old(self)@ && e == ContainerError::IndexOutOfBounds,
            },
    {
        if i >= self.len {
            return Err(ContainerError::IndexOutOfBounds);
        }
        let ghost s = self@;
        if (self.storage[i] & 0xC0) == 0x80 {
            proof {
                assert(is_continuation_byte(s[i as int]));
            }
            return Err(ContainerError::IndexOutOfBounds);
        }
        proof {
            assert(!is_continuation_byte(s[i as int]));
        }
        let (c, w) = decode_char_at(&self.storage[0..self.len], i);
        proof {
            assert(self.storage@.subrange(0, self.len as int) =~= s);
        }
        self.shift_tail_left(i, i + w);
        self.len = self.len - w;
        proof {
            assert(is_char_boundary(s, i as int));
            assert(is_char_boundary(s, i + w));
            vstd::utf8::valid_utf8_split(s, i as int);
            vstd::utf8::valid_utf8_split(s, i + w);
            assert(self@ =~= s.take(i as int) + s.skip(i + w));
            assert(valid_utf8(s.subrange(0, i as int)));
            assert(valid_utf8(s.subrange(i + w, s.len() as int)));
            assert(s.take(i as int) =~= s.subrange(0, i as int));
            assert(s.skip(i + w) =~= s.subrange(i + w, s.len() as int));
            assert(char_utf8(c) =~= s.subrange(i as int, i + w));
        }
        Ok(c)
    }

    /// Inserts one codepoint at byte index `i`, shifting the bytes at and
    /// after `i` right by the width of its encoding. Rejected with
    /// `IndexOutOfBounds` when `i` is not a codepoint boundary within the
    /// occupied prefix, and with `CapacityExceeded` when the encoding does
    /// not fit in the free space.
    pub fn insert(&mut self, i: usize, c: char) -> (r: Result<(), ContainerError>)
        requires
            old(self).wf(),
        ensures
            final(self).wf(),
            r is Ok <==> i <= old(self)@.len() && is_char_boundary(old(self)@, i as int) && old(
                self,
            )@.len() + char_utf8(c).len() <= N,
            r is Ok ==> final(self)@ == old(self)@.take(i as int) + char_utf8(c) + old(
                self,
            )@.skip(i as int),
            r is Err ==> final(self)@ == old(self)@,
            r == Err::<(), ContainerError>(ContainerError::IndexOutOfBounds) <==> !(i <= old(
                self,
            )@.len() && is_char_boundary(old(self)@, i as int)),
            r == Err::<(), ContainerError>(ContainerError::CapacityExceeded) <==> (i <= old(
                self,
            )@.len() && is_char_boundary(old(self)@, i as int) && old(self)@.len() + char_utf8(
                c,
            ).len() > N),
    {
        let ghost s = self@;
        if i > self.len {
            return Err(ContainerError::IndexOutOfBounds);
        }
        if i < self.len && (self.storage[i] & 0xC0) == 0x80 {
            proof {
                assert(is_continuation_byte(s[i as int]));
            }
            return Err(ContainerError::IndexOutOfBounds);
        }
        proof {
            if i < self.len {
                assert(!is_continuation_byte(s[i as int]));
            }
            assert(is_char_boundary(s, i as int));
        }
        let (buf, w) = encode_char(c);
        if w > N - self.len {
            return Err(ContainerError::CapacityExceeded);
        }
        self.shift_tail_right(i, w);
        self.write_at(i, &buf[0..w]);
        self.len = self.len + w;
        proof {
            lemma_char_utf8_is_encode_utf8(c);
            assert(buf@.subrange(0, w as int) =~= char_utf8(c));
            assert(self@ =~= s.take(i as int) + char_utf8(c) + s.skip(i as int));
            assert(valid_utf8(s.subrange(0, i as int)));
            assert(valid_utf8(s.subrange(i as int, s.len() as int)));
            assert(s.take(i as int) =~= s.subrange(0, i as int));
            assert(s.skip(i as int) =~= s.subrange(i as int, s.len() as int));
            assert(valid_utf8(char_utf8(c) + s.skip(i as int)));
            assert(valid_utf8(s.take(i as int) + (char_utf8(c) + s.skip(i as int))));
            assert(self@ =~= s.take(i as int) + (char_utf8(c) + s.skip(i as int)));
        }
        Ok(())
    }

    /// Inserts a string at byte index `i`, shifting the bytes at and after
    /// `i` right by its byte length. Rejected with `IndexOutOfBounds` when
    /// `i` is not a codepoint boundary within the occupied prefix, and with
    /// `CapacityExceeded` when the bytes do not fit in the free space.
    pub fn insert_str(&mut self, i: usize, s: &str) -> (r: Result<(), ContainerError>)
        requires
            old(self).wf(),
        ensures
            final(self).wf(),
            r is Ok <==> i <= old(self)@.len() && is_char_boundary(old(self)@, i as int) && old(
                self,
            )@.len() + s.spec_bytes().len() <= N,
            r is Ok ==> final(self)@ == old(self)@.take(i as int) + s.spec_bytes() + old(
                self,
            )@.skip(i as int),
            r is Err ==> final(self)@ == old(self)@,
            r == Err::<(), ContainerError>(ContainerError::IndexOutOfBounds) <==> !(i <= old(
                self,
            )@.len() && is_char_boundary(old(self)@, i as int)),
            r == Err::<(), ContainerError>(ContainerError::CapacityExceeded) <==> (i <= old(
                self,
            )@.len() && is_char_boundary(old(self)@, i as int) && old(self)@.len()
                + s.spec_bytes().len() > N),
    {
        let ghost pre = self@;
        if i > self.len {
            return Err(ContainerError::IndexOutOfBounds);
        }
        if i < self.len && (self.storage[i] & 0xC0) == 0x80 {
            proof {
                assert(is_continuation_byte(pre[i as int]));
            }
            return Err(ContainerError::IndexOutOfBounds);
        }
        proof {
            if i < self.len {
                assert(!is_continuation_byte(pre[i as int]));
            }
            assert(is_char_boundary(pre, i as int));
        }
        let bytes = s.as_bytes();
        let m = bytes.len();
        if m > N - self.len {
            return Err(ContainerError::CapacityExceeded);
        }
        self.shift_tail_right(i, m);
        self.write_at(i, bytes);
        self.len = self.len + m;
        proof {
            assert(self@ =~= pre.take(i as int) + s.spec_bytes() + pre.skip(i as int));
            assert(valid_utf8(s.spec_bytes()));
            assert(valid_utf8(pre.subrange(0, i as int)));
            assert(valid_utf8(pre.subrange(i as int, pre.len() as int)));
            assert(pre.take(i as int) =~= pre.subrange(0, i as int));
            assert(pre.skip(i as int) =~= pre.subrange(i as int, pre.len() as int));
            assert(valid_utf8(s.spec_bytes() + pre.skip(i as int)));
            assert(valid_utf8(pre.take(i as int) + (s.spec_bytes() + pre.skip(i as int))));
            assert(self@ =~= pre.take(i as int) + (s.spec_bytes() + pre.skip(i as int)));
        }
        Ok(())
    }

    /// Appends one character, encoded in UTF-8. Rejected with
    /// `CapacityExceeded` when fewer bytes remain free than the encoding
    /// needs; the encoding is then not written at all.
    pub fn push(&mut self, c: char) -> (r: Result<(), ContainerError>)
        requires
            old(self).wf(),
        ensures
            final(self).wf(),
            r is Ok <==> old(self)@.len() + char_utf8(c).len() <= N,
            r is Ok ==> final(self)@ == old(self)@ + char_utf8(c),
            r is Err ==> final(self)@ == old(self)@ && r == Err::<(), ContainerError>(
                ContainerError::CapacityExceeded,
            ),
    {
        let (buf, w) = encode_char(c);
        if w <= N - self.len {
            let ghost prior = self@;
            self.write_at(self.len, &buf[0..w]);
            self.len = self.len + w;
            proof {
                lemma_char_utf8_is_encode_utf8(c);
                assert(valid_utf8(char_utf8(c)));
                assert(buf@.subrange(0, w as int) =~= char_utf8(c));
                assert(self@ =~= prior + char_utf8(c));
            }
            Ok(())
        } else {
            Err(ContainerError::CapacityExceeded)
        }
    }

    /// Appends a string byte-for-byte. All-or-nothing: when the free space
    /// is smaller than the whole encoding of `s`, nothing is written and the
    /// call is rejected with `CapacityExceeded`.
    pub fn push_str(&mut self, s: &str) -> (r: Result<(), ContainerError>)
        requires
            old(self).wf(),
        ensures
            final(self).wf(),
            r is Ok <==> old(self)@.len() + s.spec_bytes().len() <= N,
            r is Ok ==> final(self)@ == old(self)@ + s.spec_bytes(),
            r is Err ==> final(self)@ == old(self)@ && r == Err::<(), ContainerError>(
                ContainerError::CapacityExceeded,
            ),
    {
        let bytes = s.as_bytes();
        if bytes.len() <= N - self.len {
            let ghost prior = self@;
            self.write_at(self.len, bytes);
            self.len = self.len + bytes.len();
            proof {
                assert(self@ =~= prior + s.spec_bytes());
            }
            Ok(())
        } else {
            Err(ContainerError::CapacityExceeded)
        }
    }

    /// Builds a text buffer from raw bytes. Rejected with
    /// `InvalidEncoding` when the bytes are not well-formed UTF-8 and with
    /// `CapacityExceeded` when more than `N` bytes are handed in.
    pub fn from_utf8(bytes: &[u8]) -> (r: Result<Self, ContainerError>)
        ensures
            r is Ok <==> valid_utf8(bytes@) && bytes@.len() <= N,
            r matches Ok(t) ==> t.wf() && t@ == bytes@,
            r == Err::<Self, ContainerError>(ContainerError::InvalidEncoding) <==> !valid_utf8(
                bytes@,
            ),
            r == Err::<Self, ContainerError>(ContainerError::CapacityExceeded) <==> (valid_utf8(
                bytes@,
            ) && bytes@.len() > N),
    {
        if !crate::encoding::validate_utf8(bytes) {
            return Err(ContainerError::InvalidEncoding);
        }
        if bytes.len() > N {
            return Err(ContainerError::CapacityExceeded);
        }
        let mut t = Self::new();
        t.write_at(0, bytes);
        t.len = bytes.len();
        proof {
            assert(t@ =~= bytes@);
        }
        Ok(t)
    }

    /// Builds a text buffer holding a copy of `s`. Rejected with
    /// `CapacityExceeded` when the encoding of `s` is longer than `N` bytes.
    pub fn from(s: &str) -> (r: Result<Self, ContainerError>)
        ensures
            r is Ok <==> s.spec_bytes().len() <= N,
            r is Ok ==> r->Ok_0.wf() && r->Ok_0@ == s.spec_bytes(),
            r is Err ==> r == Err::<Self, ContainerError>(ContainerError::CapacityExceeded),
    {
        let mut t = Self::new();
        match t.push_str(s) {
            Ok(()) => Ok(t),
            Err(e) => Err(e),
        }
    }

    /// Removes the byte range, compacts the remaining bytes left, and
    /// returns the removed text as a new buffer of the same capacity.
    /// Rejected with `IndexOutOfBounds` when the range is out of order,
    /// reaches past the occupied length, or misses a codepoint boundary at
    /// either end.
    pub fn drain(&mut self, range: core::ops::Range<usize>) -> (r: Result<Self, ContainerError>)
        requires
            old(self).wf(),
        ensures
            final(self).wf(),
            r is Ok <==> range.start <= range.end <= old(self)@.len() && is_char_boundary(
                old(self)@,
                range.start as int,
            ) && is_char_boundary(old(self)@, range.end as int),
            match r {
                Ok(d) => {
                    &&& d.wf()
                    &&& d@ == old(self)@.subrange(range.start as int, range.end as int)
                    &&& final(self)@ == old(self)@.take(range.start as int) + old(self)@.skip(
                        range.end as int,
                    )
                },
                Err(e) => final(self)@ == old(self)@ && e == ContainerError::IndexOutOfBounds,
            },
    {
        let a = range.start;
        let b = range.end;
        let ghost s = self@;
        if a > b || b > self.len {
            return Err(ContainerError::IndexOutOfBounds);
        }
        if a < self.len && (self.storage[a] & 0xC0) == 0x80 {
            proof {
                assert(is_continuation_byte(s[a as int]));
            }
            return Err(ContainerError::IndexOutOfBounds);
        }
        if b < self.len && (self.storage[b] & 0xC0) == 0x80 {
            proof {
                assert(is_continuation_byte(s[b as int]));
            }
            return Err(ContainerError::IndexOutOfBounds);
        }
        proof {
            if a < self.len {
                assert(!is_continuation_byte(s[a as int]));
            }
            if b < self.len {
                assert(!is_continuation_byte(s[b as int]));
            }
            assert(is_char_boundary(s, a as int));
            assert(is_char_boundary(s, b as int));
            vstd::utf8::valid_utf8_split(s, a as int);
            let sa = s.subrange(a as int, s.len() as int);
            if b < self.len {
                assert(sa[b - a] == s[b as int]);
                assert(!is_continuation_byte(sa[b - a]));
            } else {
                assert(b - a == sa.len());
            }
            assert(is_char_boundary(sa, b - a));
            vstd::utf8::valid_utf8_split(sa, b - a);
            assert(sa.subrange(0, b - a) =~= s.subrange(a as int, b as int));
        }
        let mut d = Self::new();
        d.write_at(0, &self.storage[a..b]);
        d.len = b - a;
        proof {
            assert(d@ =~= s.subrange(a as int, b as int));
        }
        self.shift_tail_left(a, b);
        self.len = self.len - (b - a);
        proof {
            vstd::utf8::valid_utf8_split(s, b as int);
            assert(self@ =~= s.take(a as int) + s.skip(b as int));
            assert(s.take(a as int) =~= s.subrange(0, a as int));
            assert(s.skip(b as int) =~= s.subrange(b as int, s.len() as int));
            vstd::utf8::valid_utf8_concat(s.subrange(0, a as int), s.subrange(b as int, s.len() as int));
            assert(self@ =~= s.subrange(0, a as int) + s.subrange(b as int, s.len() as int));
        }
        Ok(d)
    }

    /// Appends a copy of the byte range of the text to its end. Rejected
    /// with `IndexOutOfBounds` on a misaligned or out-of-range slice and
    /// with `CapacityExceeded` when the copy does not fit in the free
    /// space.
    pub fn extend_from_within(&mut self, range: core::ops::Range<usize>) -> (r: Result<
        (),
        ContainerError,
    >)
        requires
            old(self).wf(),
        ensures
            final(self).wf(),
            r is Ok <==> range.start <= range.end <= old(self)@.len() && is_char_boundary(
                old(self)@,
                range.start as int,
            ) && is_char_boundary(old(self)@, range.end as int) && old(self)@.len() + (range.end
                - range.start) <= N,
            r is Ok ==> final(self)@ == old(self)@ + old(self)@.subrange(
                range.start as int,
                range.end as int,
            ),
            r is Err ==> final(self)@ == old(self)@,
            r == Err::<(), ContainerError>(ContainerError::CapacityExceeded) <==> (range.start
                <= range.end <= old(self)@.len() && is_char_boundary(old(self)@, range.start as int)
                && is_char_boundary(old(self)@, range.end as int) && old(self)@.len() + (range.end
                - range.start) > N),
    {
        let a = range.start;
        let b = range.end;
        let ghost s = self@;
        if a > b || b > self.len {
            return Err(ContainerError::IndexOutOfBounds);
        }
        if a < self.len && (self.storage[a] & 0xC0) == 0x80 {
            proof {
                assert(is_continuation_byte(s[a as int]));
            }
            return Err(ContainerError::IndexOutOfBounds);
        }
        if b < self.len && (self.storage[b] & 0xC0) == 0x80 {
            proof {
                assert(is_continuation_byte(s[b as int]));
            }
            return Err(ContainerError::IndexOutOfBounds);
        }
        proof {
            if a < self.len {
                assert(!is_continuation_byte(s[a as int]));
            }
            if b < self.len {
                assert(!is_continuation_byte(s[b as int]));
            }
            assert(is_char_boundary(s, a as int));
            assert(is_char_boundary(s, b as int));
        }
        let m = b - a;
        if m > N - self.len {
            return Err(ContainerError::CapacityExceeded);
        }
        let ghost pstore = self.storage@;
        let plen = self.len;
        let mut k: usize = 0;
        while k < m
            invariant
                a + m <= plen <= N,
                plen + m <= N,
                a + k <= plen,
                self.len == plen,
                k <= m,
                self.storage@.len() == N,
                pstore.len() == N,
                forall|t: int| 0 <= t < plen ==> #[trigger] self.storage@[t] == pstore[t],
                forall|t: int|
                    plen <= t < plen + k ==> #[trigger] self.storage@[t] == pstore[t - plen + a],
                s == pstore.take(plen as int),
            decreases m - k,
        {
            self.storage[plen + k] = self.storage[a + k];
            k += 1;
        }
        self.len = self.len + m;
        proof {
            vstd::utf8::valid_utf8_split(s, a as int);
            let sa = s.subrange(a as int, s.len() as int);
            if b < plen {
                assert(sa[b - a] == s[b as int]);
                assert(!is_continuation_byte(sa[b - a]));
            } else {
                assert(b - a == sa.len());
            }
            assert(is_char_boundary(sa, b - a));
            vstd::utf8::valid_utf8_split(sa, b - a);
            let piece = s.subrange(a as int, b as int);
            assert(sa.subrange(0, b - a) =~= piece);
            assert(self@ =~= s + piece);
            vstd::utf8::valid_utf8_concat(s, piece);
        }
        Ok(())
    }

    /// Borrows the byte range of the text as a string slice, or returns
    /// `None` when the range is out of order, reaches past the occupied
    /// length, or misses a codepoint boundary at either end.
    pub fn get(&self, range: core::ops::Range<usize>) -> (r: Option<&str>)
        requires
            self.wf(),
        ensures
            r is Some <==> range.start <= range.end <= self@.len() && is_char_boundary(
                self@,
                range.start as int,
            ) && is_char_boundary(self@, range.end as int),
            match r {
                Some(t) => t.spec_bytes() == self@.subrange(range.start as int, range.end as int),
                None => true,
            },
    {
        let a = range.start;
        let b = range.end;
        let ghost s = self@;
        if a > b || b > self.len {
            return None;
        }
        if a < self.len && (self.storage[a] & 0xC0) == 0x80 {
            proof {
                assert(is_continuation_byte(s[a as int]));
            }
            return None;
        }
        if b < self.len && (self.storage[b] & 0xC0) == 0x80 {
            proof {
                assert(is_continuation_byte(s[b as int]));
            }
            return None;
        }
        proof {
            if a < self.len {
                assert(!is_continuation_byte(s[a as int]));
            }
            if b < self.len {
                assert(!is_continuation_byte(s[b as int]));
            }
            assert(is_char_boundary(s, a as int));
            assert(is_char_boundary(s, b as int));
            vstd::utf8::valid_utf8_split(s, a as int);
            let sa = s.subrange(a as int, s.len() as int);
            if b < self.len {
                assert(sa[b - a] == s[b as int]);
                assert(!is_continuation_byte(sa[b - a]));
            } else {
                assert(b - a == sa.len());
            }
            assert(is_char_boundary(sa, b - a));
            vstd::utf8::valid_utf8_split(sa, b - a);
            assert(sa.subrange(0, b - a) =~= s.subrange(a as int, b as int));
            assert(self.storage@.subrange(a as int, b as int) =~= s.subrange(a as int, b as int));
        }
        Some(str_from_bytes(&self.storage[a..b]))
    }

    /// Borrows the byte range of the text as a string slice. The caller
    /// must name an in-range, boundary-aligned slice; `get` is the checked
    /// variant.
    pub fn get_unchecked(&self, range: core::ops::Range<usize>) -> (r: &str)
        requires
            self.wf(),
            range.start <= range.end <= self@.len(),
            is_char_boundary(self@, range.start as int),
            is_char_boundary(self@, range.end as int),
        ensures
            r.spec_bytes() == self@.subrange(range.start as int, range.end as int),
    {
        let a = range.start;
        let b = range.end;
        let ghost s = self@;
        proof {
            vstd::utf8::valid_utf8_split(s, a as int);
            let sa = s.subrange(a as int, s.len() as int);
            if b < self.len {
                assert(!is_continuation_byte(s[b as int]));
                assert(sa[b - a] == s[b as int]);
                assert(!is_continuation_byte(sa[b - a]));
            } else {
                assert(b - a == sa.len());
            }
            assert(is_char_boundary(sa, b - a));
            vstd::utf8::valid_utf8_split(sa, b - a);
            assert(sa.subrange(0, b - a) =~= s.subrange(a as int, b as int));
            assert(self.storage@.subrange(a as int, b as int) =~= s.subrange(a as int, b as int));
        }
        str_from_bytes(&self.storage[a..b])
    }

    /// Builds a new buffer holding the text repeated `n` times. Rejected
    /// with `CapacityExceeded` when the repetition does not fit in `N`
    /// bytes.
    pub fn repeat(&self, n: usize) -> (r: Result<Self, ContainerError>)
        requires
            self.wf(),
        ensures
            r is Ok <==> n * self@.len() <= N,
            match r {
                Ok(t) => t.wf() && t@ == repeated(self@, n as nat),
                Err(e) => e == ContainerError::CapacityExceeded,
            },
    {
        let mut out = Self::new();
        let mut k: usize = 0;
        while k < n
            invariant
                self.wf(),
                k <= n,
                out.wf(),
                out@ == repeated(self@, k as nat),
                out@.len() == k * self@.len(),
            decreases n - k,
        {
            match out.push_str(self.as_str()) {
                Ok(()) => {},
                Err(_) => {
                    proof {
                        assert((k + 1) * self@.len() > N) by (nonlinear_arith)
                            requires
                                k * self@.len() + self@.len() > N,
                        ;
                        assert(n * self@.len() >= (k + 1) * self@.len()) by (nonlinear_arith)
                            requires
                                n >= k + 1,
                                self@.len() >= 0,
                        ;
                    }
                    return Err(ContainerError::CapacityExceeded);
                },
            }
            proof {
                assert((k + 1) * self@.len() == k * self@.len() + self@.len()) by (nonlinear_arith);
            }
            k += 1;
        }
        proof {
            assert(n * self@.len() == out@.len());
        }
        Ok(out)
    }

    /// The byte-sink entry point for formatting: copies as much of `s` as
    /// the free space allows without splitting a codepoint, and reports
    /// with `CapacityExceeded` when the whole string did not fit. A short
    /// write is not rolled back.
    pub fn write_str(&mut self, s: &str) -> (r: Result<(), ContainerError>)
        requires
            old(self).wf(),
        ensures
            final(self).wf(),
            r is Ok <==> old(self)@.len() + s.spec_bytes().len() <= N,
            r is Ok ==> final(self)@ == old(self)@ + s.spec_bytes(),
            r is Err ==> r == Err::<(), ContainerError>(ContainerError::CapacityExceeded)
                && final(self)@ == old(self)@ + s.spec_bytes().take(
                boundary_floor(s.spec_bytes(), N - old(self)@.len()),
            ),
    {
        let bytes = s.as_bytes();
        let free = N - self.len;
        let ghost sb = s.spec_bytes();
        let ghost pre = self@;
        if bytes.len() <= free {
            self.write_at(self.len, bytes);
            self.len = self.len + bytes.len();
            proof {
                assert(self@ =~= pre + sb);
                vstd::utf8::valid_utf8_concat(pre, sb);
            }
            Ok(())
        } else {
            let mut k = free;
            while k > 0 && (bytes[k] & 0xC0) == 0x80
                invariant
                    k <= free < sb.len(),
                    bytes@ == sb,
                    valid_utf8(sb),
                    boundary_floor(sb, free as int) == boundary_floor(sb, k as int),
                decreases k,
            {
                proof {
                    assert(is_continuation_byte(sb[k as int]));
                    assert(!is_char_boundary(sb, k as int));
                }
                k -= 1;
            }
            proof {
                if k > 0 {
                    assert(!is_continuation_byte(sb[k as int]));
                }
                assert(is_char_boundary(sb, k as int));
                assert(boundary_floor(sb, k as int) == k);
                vstd::utf8::valid_utf8_split(sb, k as int);
            }
            self.write_at(self.len, &bytes[0..k]);
            self.len = self.len + k;
            proof {
                assert(bytes@.subrange(0, k as int) =~= sb.take(k as int));
                assert(self@ =~= pre + sb.take(k as int));
                assert(sb.take(k as int) =~= sb.subrange(0, k as int));
                vstd::utf8::valid_utf8_concat(pre, sb.subrange(0, k as int));
            }
            Err(ContainerError::CapacityExceeded)
        }
    }

    /// Converts the text to ASCII lower case in place: `A`..`Z` become
    /// `a`..`z`, every other byte is untouched.
    pub fn make_ascii_lowercase(&mut self)
        requires
            old(self).wf(),
        ensures
            final(self).wf(),
            final(self)@ == old(self)@.map_values(|b: u8| crate::encoding::ascii_lower(b)),
    {
        let ghost s = self@;
        let ghost pstore = self.storage@;
        let plen = self.len;
        let mut i: usize = 0;
        while i < plen
            invariant
                plen <= N,
                i <= plen,
                self.len == plen,
                self.storage@.len() == N,
                pstore.len() == N,
                forall|t: int|
                    0 <= t < i ==> #[trigger] self.storage@[t] == crate::encoding::ascii_lower(
                        pstore[t],
                    ),
                forall|t: int| i <= t < N ==> #[trigger] self.storage@[t] == pstore[t],
                s == pstore.take(plen as int),
            decreases plen - i,
        {
            let b = self.storage[i];
            if b >= 0x41 && b <= 0x5A {
                self.storage[i] = b + 0x20;
            }
            i += 1;
        }
        proof {
            assert(self@ =~= s.map_values(|b: u8| crate::encoding::ascii_lower(b)));
            crate::encoding::lemma_ascii_byte_map_valid(
                s,
                |b: u8| crate::encoding::ascii_lower(b),
            );
        }
    }

    /// Converts the text to ASCII upper case in place: `a`..`z` become
    /// `A`..`Z`, every other byte is untouched.
    pub fn make_ascii_uppercase(&mut self)
        requires
            old(self).wf(),
        ensures
            final(self).wf(),
            final(self)@ == old(self)@.map_values(|b: u8| crate::encoding::ascii_upper(b)),
    {
        let ghost s = self@;
        let ghost pstore = self.storage@;
        let plen = self.len;
        let mut i: usize = 0;
        while i < plen
            invariant
                plen <= N,
                i <= plen,
                self.len == plen,
                self.storage@.len() == N,
                pstore.len() == N,
                forall|t: int|
                    0 <= t < i ==> #[trigger] self.storage@[t] == crate::encoding::ascii_upper(
                        pstore[t],
                    ),
                forall|t: int| i <= t < N ==> #[trigger] self.storage@[t] == pstore[t],
                s == pstore.take(plen as int),
            decreases plen - i,
        {
            let b = self.storage[i];
            if b >= 0x61 && b <= 0x7A {
                self.storage[i] = b - 0x20;
            }
            i += 1;
        }
        proof {
            assert(self@ =~= s.map_values(|b: u8| crate::encoding::ascii_upper(b)));
            crate::encoding::lemma_ascii_byte_map_valid(
                s,
                |b: u8| crate::encoding::ascii_upper(b),
            );
        }
    }

    /// A copy of the text converted to ASCII lower case.
    pub fn to_ascii_lowercase(&self) -> (r: Self)
        requires
            self.wf(),
        ensures
            r.wf(),
            r@ == self@.map_values(|b: u8| crate::encoding::ascii_lower(b)),
    {
        let mut r = *self;
        r.make_ascii_lowercase();
        r
    }

    /// Keeps exactly the codepoints for which the predicate returns
    /// `true`, in order, compacting their encodings to the front in a
    /// single pass.
    #[verifier::rlimit(80)]
    pub fn retain<F: Fn(char) -> bool>(&mut self, f: F)
        requires
            old(self).wf(),
            forall|c: char| #[trigger] call_requires(f, (c,)),
        ensures
            final(self).wf(),
            exists|keep: Seq<bool>|
                {
                    &&& keep.len() == old(self).text().len()
                    &&& final(self)@ == kept_text(old(self).text(), keep)
                    &&& forall|q: int|
                        0 <= q < keep.len() ==> call_ensures(
                            f,
                            (old(self).text()[q],),
                            #[trigger] keep[q],
                        )
                },
    {
        let plen = self.len;
        let ghost s = self@;
        let ghost cs = decode_utf8(s);
        let ghost mut keep: Seq<bool> = Seq::empty();
        let mut k: usize = 0;
        let mut i: usize = 0;
        proof {
            assert(s.take(0) =~= Seq::<u8>::empty());
            assert(decode_utf8(s.take(0)) =~= Seq::<char>::empty());
            assert(self.storage@.take(0) =~= Seq::<u8>::empty());
        }
        while i < plen
            invariant
                plen <= N,
                self.len == plen,
                k <= i <= plen,
                self.storage@.len() == N,
                s.len() == plen,
                valid_utf8(s),
                cs == decode_utf8(s),
                is_char_boundary(s, i as int),
                forall|c: char| #[trigger] call_requires(f, (c,)),
                keep.len() == decode_utf8(s.take(i as int)).len(),
                decode_utf8(s.take(i as int)) == cs.take(keep.len() as int),
                self.storage@.take(k as int) == kept_text(decode_utf8(s.take(i as int)), keep),
                forall|q: int| 0 <= q < keep.len() ==> call_ensures(f, (cs[q],), #[trigger] keep[q]),
                forall|t: int| i <= t < plen ==> #[trigger] self.storage@[t] == s[t],
            decreases plen - i,
        {
            let ghost tail = s.subrange(i as int, s.len() as int);
            proof {
                vstd::utf8::valid_utf8_split(s, i as int);
                assert(self.storage@.subrange(i as int, plen as int) =~= tail);
            }
            let (c, w) = decode_char_at(&self.storage[i..self.len], 0);
            let ghost d1 = decode_utf8(s.take(i as int));
            let ghost d2 = decode_utf8(s.subrange(i + w, s.len() as int));
            proof {
                crate::encoding::lemma_boundary_after_scalar(s, i as int);
                assert(is_char_boundary(s, i + w));
                vstd::utf8::decode_utf8_split(s, i as int);
                assert(pop_first_scalar(tail) =~= s.subrange(i + w, s.len() as int));
                assert(decode_utf8(tail) == seq![c] + d2) by {
                    assert(decode_utf8(tail) == seq![decode_first_scalar(tail) as char]
                        + decode_utf8(pop_first_scalar(tail)));
                    vstd::utf8::char_u32_cast(c, decode_first_scalar(tail));
                    assert((decode_first_scalar(tail) as char) == c);
                }
                vstd::utf8::decode_utf8_split(s, i + w);
                assert(cs =~= d1 + (seq![c] + d2));
                let x = decode_utf8(s.subrange(0, i + w));
                assert(x + d2 =~= cs);
                assert(x.len() == d1.len() + 1);
                assert forall|t: int| 0 <= t < x.len() implies x[t] == d1.push(c)[t] by {
                    assert(x[t] == (x + d2)[t]);
                    assert(cs[t] == (d1 + (seq![c] + d2))[t]);
                }
                assert(decode_utf8(s.subrange(0, i + w)) =~= d1.push(c));
                assert(s.take(i + w) == s.subrange(0, i + w));
                assert(d1 == cs.take(keep.len() as int));
                assert(cs[keep.len() as int] == c);
                assert(d1.push(c) =~= cs.take(keep.len() as int + 1));
                assert(char_utf8(c) =~= s.subrange(i as int, i + w));
            }
            let b = f(c);
            let ghost keep0 = keep;
            proof {
                keep = keep.push(b);
                lemma_kept_text_snoc(d1, keep0, c, b);
            }
            if b {
                let ghost gstore = self.storage@;
                let ghost acc = gstore.take(k as int);
                let mut j: usize = 0;
                while j < w
                    invariant
                        j <= w,
                        k + w <= i + w <= plen <= N,
                        k <= i,
                        self.len == plen,
                        self.storage@.len() == N,
                        gstore.len() == N,
                        forall|t: int| 0 <= t < k ==> #[trigger] self.storage@[t] == gstore[t],
                        forall|t: int|
                            k <= t < k + j ==> #[trigger] self.storage@[t] == gstore[t - k + i],
                        forall|t: int|
                            k + j <= t < N ==> #[trigger] self.storage@[t] == gstore[t],
                    decreases w - j,
                {
                    self.storage[k + j] = self.storage[i + j];
                    j += 1;
                }
                k += w;
                proof {
                    assert(self.storage@.take(k as int) =~= acc + s.subrange(i as int, i + w));
                    assert(self.storage@.take(k as int) == kept_text(
                        decode_utf8(s.take(i + w)),
                        keep,
                    ));
                }
            } else {
                proof {
                    assert(kept_text(d1, keep0) + Seq::<u8>::empty() =~= kept_text(d1, keep0));
                }
            }
            i += w;
        }
        self.len = k;
        proof {
            assert(s.take(plen as int) =~= s);
            assert(self@ =~= self.storage@.take(k as int));
            assert(keep.len() == cs.len());
            assert(cs.take(keep.len() as int) =~= cs);
            lemma_kept_text_valid(cs, keep);
            assert(cs == old(self).text());
            assert({
                &&& keep.len() == old(self).text().len()
                &&& self@ == kept_text(old(self).text(), keep)
                &&& forall|q: int|
                    0 <= q < keep.len() ==> call_ensures(
                        f,
                        (old(self).text()[q],),
                        #[trigger] keep[q],
                    )
            });
        }
    }

    /// A copy of the text converted to ASCII upper case.
    pub fn to_ascii_uppercase(&self) -> (r: Self)
        requires
            self.wf(),
        ensures
            r.wf(),
            r@ == self@.map_values(|b: u8| crate::encoding::ascii_upper(b)),
    {
        let mut r = *self;
        r.make_ascii_uppercase();
        r
    }
}

} // verus!
