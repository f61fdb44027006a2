//! Substring search and scan-and-substitute over the bounded text buffer.

use crate::ContainerError;
use crate::String;
use vstd::prelude::*;
use vstd::string::StringSliceAdditionalSpecFns;
use vstd::utf8::*;

verus! {

broadcast use vstd::utf8::group_utf8_lib;

/// The needle `f` occurs in `h` starting at byte offset `i`.
pub open spec fn matches_at(h: Seq<u8>, f: Seq<u8>, i: int) -> bool {
    &&& 0 <= i
    &&& i + f.len() <= h.len()
    &&& h.subrange(i, i + f.len()) == f
}

/// `h` with every non-overlapping occurrence of `f`, found scanning left to
/// right, substituted by `t`.
pub open spec fn replaced(h: Seq<u8>, f: Seq<u8>, t: Seq<u8>) -> Seq<u8>
    recommends
        f.len() > 0,
    decreases h.len(),
{
    if h.len() == 0 {
        Seq::empty()
    } else if f.len() > 0 && matches_at(h, f, 0) {
        t + replaced(h.skip(f.len() as int), f, t)
    } else {
        seq![h[0]] + replaced(h.skip(1), f, t)
    }
}

/// `h` with at most `n` non-overlapping occurrences of `f`, found scanning
/// left to right, substituted by `t`; the text after the `n`-th substitution
/// is kept as it is.
pub open spec fn replaced_up_to(h: Seq<u8>, f: Seq<u8>, t: Seq<u8>, n: nat) -> Seq<u8>
    recommends
        f.len() > 0,
    decreases h.len(),
{
    if h.len() == 0 {
        Seq::empty()
    } else if n == 0 {
        h
    } else if f.len() > 0 && matches_at(h, f, 0) {
        t + replaced_up_to(h.skip(f.len() as int), f, t, (n - 1) as nat)
    } else {
        seq![h[0]] + replaced_up_to(h.skip(1), f, t, n)
    }
}

/// A match of `f` in the suffix of `h` that starts at `i` is a match of
/// `f` in `h`, shifted by `i`.
proof fn lemma_matches_at_shift(h: Seq<u8>, f: Seq<u8>, i: int, p: int)
    requires
        0 <= i <= h.len(),
        0 <= p,
    ensures
        matches_at(h.skip(i), f, p) == matches_at(h, f, i + p),
{
    if i + p + f.len() <= h.len() {
        assert(h.skip(i).subrange(p, p + f.len() as int) =~= h.subrange(
            i + p,
            i + p + f.len() as int,
        ));
    }
}

/// Scanning copies positions that match nowhere: the result of the scan is
/// the unmatched prefix followed by the result for the rest.
proof fn lemma_replaced_up_to_copies(h: Seq<u8>, f: Seq<u8>, t: Seq<u8>, n: nat, j: int)
    requires
        0 <= j <= h.len(),
        f.len() > 0,
        n > 0,
        forall|p: int| 0 <= p < j ==> !matches_at(h, f, p),
    ensures
        replaced_up_to(h, f, t, n) == h.take(j) + replaced_up_to(h.skip(j), f, t, n),
    decreases j,
{
    if j == 0 {
        assert(h.skip(0) =~= h);
        assert(h.take(0) + replaced_up_to(h, f, t, n) =~= replaced_up_to(h, f, t, n));
    } else {
        let h1 = h.skip(1);
        assert(!matches_at(h, f, 0));
        assert forall|p: int| 0 <= p < j - 1 implies !matches_at(h1, f, p) by {
            lemma_matches_at_shift(h, f, 1, p);
        }
        lemma_replaced_up_to_copies(h1, f, t, n, j - 1);
        assert(h1.skip(j - 1) =~= h.skip(j));
        assert(seq![h[0]] + (h1.take(j - 1) + replaced_up_to(h.skip(j), f, t, n)) =~= h.take(j)
            + replaced_up_to(h.skip(j), f, t, n));
    }
}

/// When one well-formed byte sequence is a prefix of another, the prefix
/// ends on a codepoint boundary of the longer sequence.
pub proof fn lemma_valid_prefix_boundary(h: Seq<u8>, f: Seq<u8>)
    requires
        valid_utf8(h),
        valid_utf8(f),
        f.len() <= h.len(),
        h.take(f.len() as int) == f,
    ensures
        is_char_boundary(h, f.len() as int),
    decreases f.len(),
{
    if f.len() == 0 {
    } else {
        assert(f[0] == h.take(f.len() as int)[0]);
        assert(f[0] == h[0]);
        let w = length_of_first_scalar(h);
        assert(length_of_first_scalar(f) == w);
        assert(w <= f.len());
        let h2 = pop_first_scalar(h);
        let f2 = pop_first_scalar(f);
        assert forall|q: int| 0 <= q < f2.len() implies f2[q] == h2[q] by {
            assert(f2[q] == f[w + q]);
            assert(f[w + q] == h.take(f.len() as int)[w + q]);
            assert(h2[q] == h[w + q]);
        }
        assert(h2.take(f2.len() as int) =~= f2);
        lemma_valid_prefix_boundary(h2, f2);
        assert(is_char_boundary(h, w + f2.len()));
    }
}

/// The encoding of the first codepoint of a well-formed byte sequence is
/// itself well-formed.
proof fn lemma_take_first_scalar_valid(h: Seq<u8>)
    requires
        valid_utf8(h),
        h.len() > 0,
    ensures
        valid_utf8(take_first_scalar(h)),
{
    decode_utf8_first_scalar(h);
    let c = decode_first_scalar(h) as char;
    crate::encoding::lemma_char_utf8_is_encode_utf8(c);
    assert(valid_utf8(encode_utf8(seq![c])));
}

/// Substituting well-formed text for a well-formed needle keeps the scan
/// result well-formed.
proof fn lemma_replaced_up_to_valid(h: Seq<u8>, f: Seq<u8>, t: Seq<u8>, n: nat)
    requires
        valid_utf8(h),
        valid_utf8(f),
        valid_utf8(t),
        f.len() > 0,
    ensures
        valid_utf8(replaced_up_to(h, f, t, n)),
    decreases h.len(),
{
    if h.len() == 0 || n == 0 {
    } else if matches_at(h, f, 0) {
        lemma_valid_prefix_boundary(h, f);
        assert(h.skip(f.len() as int) =~= h.subrange(f.len() as int, h.len() as int));
        assert(valid_utf8(h.subrange(f.len() as int, h.len() as int)));
        lemma_replaced_up_to_valid(h.skip(f.len() as int), f, t, (n - 1) as nat);
        vstd::utf8::valid_utf8_concat(t, replaced_up_to(h.skip(f.len() as int), f, t, (n - 1) as nat));
    } else {
        let w = length_of_first_scalar(h);
        assert(valid_first_scalar(h));
        assert(w <= h.len());
        assert forall|p: int| 0 <= p < w implies !matches_at(h, f, p) by {
            if 0 < p < w {
                assert(is_continuation_byte(h[p]));
                if matches_at(h, f, p) {
                    assert(h.subrange(p, p + f.len() as int)[0] == h[p]);
                    assert(f[0] == h[p]);
                    assert(valid_first_scalar(f));
                    assert(!is_continuation_byte(f[0]));
                }
            }
        }
        lemma_replaced_up_to_copies(h, f, t, n, w);
        lemma_take_first_scalar_valid(h);
        assert(h.take(w) =~= take_first_scalar(h));
        assert(h.skip(w) =~= pop_first_scalar(h));
        lemma_replaced_up_to_valid(pop_first_scalar(h), f, t, n);
        vstd::utf8::valid_utf8_concat(h.take(w), replaced_up_to(h.skip(w), f, t, n));
    }
}

/// With at least one allowed substitution per byte of the text, the bounded
/// scan substitutes every occurrence.
pub proof fn lemma_replaced_up_to_all(h: Seq<u8>, f: Seq<u8>, t: Seq<u8>, n: nat)
    requires
        f.len() > 0,
        n >= h.len(),
    ensures
        replaced(h, f, t) == replaced_up_to(h, f, t, n),
    decreases h.len(),
{
    if h.len() == 0 {
    } else if matches_at(h, f, 0) {
        lemma_replaced_up_to_all(h.skip(f.len() as int), f, t, (n - 1) as nat);
    } else {
        lemma_replaced_up_to_all(h.skip(1), f, t, n);
    }
}

/// A nonempty character sequence has a nonempty UTF-8 encoding.
proof fn lemma_encode_utf8_nonempty(chars: Seq<char>)
    requires
        chars.len() > 0,
    ensures
        encode_utf8(chars).len() > 0,
{
    assert(encode_utf8(chars) == encode_scalar(chars[0] as u32) + encode_utf8(chars.drop_first()));
}

impl<const N: usize> String<N> {
    /// Compares the needle bytes against the text at offset `i`.
    fn bytes_eq_at(&self, i: usize, f: &[u8]) -> (r: bool)
        requires
            self.wf(),
            i + f@.len() <= self@.len(),
        ensures
            r == matches_at(self@, f@, i as int),
    {
        let m = f.len();
        let mut j: usize = 0;
        while j < m
            invariant
                self.wf(),
                j <= m,
                m == f@.len(),
                i + m <= self@.len() <= N,
                forall|t: int| 0 <= t < j ==> #[trigger] self@[i + t] == f@[t],
            decreases m - j,
        {
            if self.storage[i + j] != f[j] {
                proof {
                    assert(self@[i + j] != f@[j as int]);
                    assert(self@.subrange(i as int, i + m)[j as int] == self@[i + j]);
                }
                return false;
            }
            proof {
                assert(self@[i + j] == self.storage@[i + j]);
            }
            j += 1;
        }
        proof {
            assert forall|t: int| 0 <= t < m implies self@.subrange(i as int, i + m)[t] == f@[t] by {
                assert(self@[i + t] == f@[t]);
            }
            assert(self@.subrange(i as int, i + m) =~= f@);
        }
        true
    }

    /// Whether the needle occurs anywhere in the text. The empty needle
    /// occurs in every text.
    pub fn contains(&self, needle: &str) -> (r: bool)
        requires
            self.wf(),
        ensures
            r == exists|j: int| matches_at(self@, needle.spec_bytes(), j),
    {
        match self.find(needle) {
            Some(i) => {
                proof {
                    assert(matches_at(self@, needle.spec_bytes(), i as int));
                }
                true
            },
            None => false,
        }
    }

    /// The byte offset of the first occurrence of the needle, scanning
    /// left to right, or `None` when it does not occur. The empty needle
    /// is found at offset zero.
    pub fn find(&self, needle: &str) -> (r: Option<usize>)
        requires
            self.wf(),
        ensures
            match r {
                Some(i) => matches_at(self@, needle.spec_bytes(), i as int) && forall|j: int|
                    0 <= j < i ==> !matches_at(self@, needle.spec_bytes(), j),
                None => forall|j: int| !matches_at(self@, needle.spec_bytes(), j),
            },
    {
        let f = needle.as_bytes();
        let m = f.len();
        if m > self.len {
            return None;
        }
        let mut i: usize = 0;
        loop
            invariant
                self.wf(),
                m == f@.len(),
                f@ == needle.spec_bytes(),
                m <= self@.len() <= N,
                i + m <= self@.len(),
                forall|j: int| 0 <= j < i ==> !matches_at(self@, needle.spec_bytes(), j),
            ensures
                forall|j: int| !matches_at(self@, needle.spec_bytes(), j),
            decreases self@.len() - m - i,
        {
            if self.bytes_eq_at(i, f) {
                return Some(i);
            }
            if i == self.len - m {
                proof {
                    assert forall|j: int| !matches_at(self@, needle.spec_bytes(), j) by {
                        if matches_at(self@, needle.spec_bytes(), j) {
                            assert(0 <= j <= i);
                        }
                    }
                }
                break;
            }
            i += 1;
        }
        None
    }

    /// The byte offset of the last occurrence of the needle, scanning
    /// right to left, or `None` when it does not occur. The empty needle
    /// is found at the end of the text.
    pub fn rfind(&self, needle: &str) -> (r: Option<usize>)
        requires
            self.wf(),
        ensures
            match r {
                Some(i) => matches_at(self@, needle.spec_bytes(), i as int) && forall|j: int|
                    j > i ==> !matches_at(self@, needle.spec_bytes(), j),
                None => forall|j: int| !matches_at(self@, needle.spec_bytes(), j),
            },
    {
        let f = needle.as_bytes();
        let m = f.len();
        if m > self.len {
            return None;
        }
        let mut i: usize = self.len - m;
        loop
            invariant
                self.wf(),
                m == f@.len(),
                f@ == needle.spec_bytes(),
                m <= self@.len() <= N,
                i + m <= self@.len(),
                forall|j: int| j > i ==> !matches_at(self@, needle.spec_bytes(), j),
            ensures
                forall|j: int| !matches_at(self@, needle.spec_bytes(), j),
            decreases i,
        {
            if self.bytes_eq_at(i, f) {
                return Some(i);
            }
            if i == 0 {
                proof {
                    assert forall|j: int| !matches_at(self@, needle.spec_bytes(), j) by {
                        if matches_at(self@, needle.spec_bytes(), j) {
                            assert(j > 0 || j == 0);
                        }
                    }
                }
                break;
            }
            i -= 1;
        }
        None
    }

    /// Builds a new buffer from the text with the first `n` non-overlapping
    /// occurrences of `from`, found scanning left to right, substituted by
    /// `to`. Rejected with `CapacityExceeded` when the result does not fit
    /// in capacity `N`.
    pub fn replacen(&self, from: &str, to: &str, n: usize) -> (r: Result<Self, ContainerError>)
        requires
            self.wf(),
            from@.len() > 0,
        ensures
            r is Ok <==> replaced_up_to(
                self@,
                from.spec_bytes(),
                to.spec_bytes(),
                n as nat,
            ).len() <= N,
            match r {
                Ok(out) => out.wf() && out@ == replaced_up_to(
                    self@,
                    from.spec_bytes(),
                    to.spec_bytes(),
                    n as nat,
                ),
                Err(e) => e == ContainerError::CapacityExceeded,
            },
    {
        let f = from.as_bytes();
        let t = to.as_bytes();
        let flen = f.len();
        let tlen = t.len();
        let ghost h = self@;
        let ghost fs = from.spec_bytes();
        let ghost ts = to.spec_bytes();
        let ghost total = replaced_up_to(h, fs, ts, n as nat);
        proof {
            lemma_encode_utf8_nonempty(from@);
        }
        let mut out = Self::new();
        let mut k: usize = 0;
        let mut i: usize = 0;
        let mut count: usize = 0;
        proof {
            assert(h.skip(0) =~= h);
            assert(out.storage@.take(0) + replaced_up_to(h, fs, ts, n as nat) =~= total);
        }
        while i < self.len && count < n
            invariant
                self.wf(),
                h == self@,
                total == replaced_up_to(h, fs, ts, n as nat),
                fs == from.spec_bytes(),
                ts == to.spec_bytes(),
                f@ == fs,
                t@ == ts,
                flen == fs.len(),
                tlen == ts.len(),
                flen > 0,
                out.storage@.len() == N,
                out.len == 0,
                i <= self@.len(),
                k <= N,
                count <= n,
                total == out.storage@.take(k as int) + replaced_up_to(
                    h.skip(i as int),
                    fs,
                    ts,
                    (n - count) as nat,
                ),
            decreases h.len() - i,
        {
            if flen <= self.len - i && self.bytes_eq_at(i, f) {
                proof {
                    lemma_matches_at_shift(h, fs, i as int, 0);
                    assert(matches_at(h.skip(i as int), fs, 0));
                    assert(replaced_up_to(h.skip(i as int), fs, ts, (n - count) as nat) == ts
                        + replaced_up_to(h.skip(i as int).skip(flen as int), fs, ts, (n - count - 1) as nat));
                    assert(h.skip(i as int).skip(flen as int) =~= h.skip(i + flen));
                }
                if tlen > N - k {
                    proof {
                        assert(total.len() >= k + ts.len());
                    }
                    return Err(ContainerError::CapacityExceeded);
                }
                let ghost prior = out.storage@;
                out.write_at(k, t);
                proof {
                    assert(out.storage@.take(k + tlen) =~= prior.take(k as int) + ts);
                    assert(total =~= out.storage@.take(k + tlen) + replaced_up_to(
                        h.skip(i + flen),
                        fs,
                        ts,
                        (n - count - 1) as nat,
                    ));
                }
                k += tlen;
                i += flen;
                count += 1;
            } else {
                proof {
                    lemma_matches_at_shift(h, fs, i as int, 0);
                    assert(!matches_at(h, fs, i as int));
                    assert(!matches_at(h.skip(i as int), fs, 0));
                    assert(replaced_up_to(h.skip(i as int), fs, ts, (n - count) as nat) == seq![
                        h.skip(i as int)[0],
                    ] + replaced_up_to(h.skip(i as int).skip(1), fs, ts, (n - count) as nat));
                    assert(h.skip(i as int).skip(1) =~= h.skip(i + 1));
                    assert(h.skip(i as int)[0] == h[i as int]);
                }
                if k == N {
                    proof {
                        assert(total.len() >= k + 1);
                    }
                    return Err(ContainerError::CapacityExceeded);
                }
                let ghost prior = out.storage@;
                out.storage[k] = self.storage[i];
                proof {
                    assert(out.storage@.take(k + 1) =~= prior.take(k as int) + seq![h[i as int]]);
                }
                k += 1;
                i += 1;
            }
        }
        let rest = self.len - i;
        proof {
            if i == self.len {
                assert(h.skip(i as int) =~= Seq::<u8>::empty());
                assert(replaced_up_to(h.skip(i as int), fs, ts, (n - count) as nat)
                    =~= Seq::<u8>::empty());
            } else {
                assert(count == n);
                assert(replaced_up_to(h.skip(i as int), fs, ts, 0) == h.skip(i as int));
            }
        }
        if rest > N - k {
            proof {
                assert(total.len() == k + rest);
            }
            return Err(ContainerError::CapacityExceeded);
        }
        let ghost prior = out.storage@;
        out.write_at(k, &self.storage[i..self.len]);
        out.len = k + rest;
        proof {
            assert(self.storage@.subrange(i as int, self.len as int) =~= h.skip(i as int));
            assert(out@ =~= prior.take(k as int) + h.skip(i as int));
            assert(out@ =~= total);
            lemma_replaced_up_to_valid(h, fs, ts, n as nat);
        }
        Ok(out)
    }

    /// Builds a new buffer from the text with every non-overlapping
    /// occurrence of `from`, found scanning left to right, substituted by
    /// `to`. Rejected with `CapacityExceeded` when the result does not fit
    /// in capacity `N`.
    pub fn replace(&self, from: &str, to: &str) -> (r: Result<Self, ContainerError>)
        requires
            self.wf(),
            from@.len() > 0,
        ensures
            r is Ok <==> replaced(self@, from.spec_bytes(), to.spec_bytes()).len() <= N,
            match r {
                Ok(out) => out.wf() && out@ == replaced(
                    self@,
                    from.spec_bytes(),
                    to.spec_bytes(),
                ),
                Err(e) => e == ContainerError::CapacityExceeded,
            },
    {
        proof {
            lemma_encode_utf8_nonempty(from@);
            lemma_replaced_up_to_all(
                self@,
                from.spec_bytes(),
                to.spec_bytes(),
                self@.len() as nat,
            );
        }
        self.replacen(from, to, self.len)
    }

    /// Whether the text begins with `s`, compared byte-for-byte.
    pub fn starts_with(&self, s: &str) -> (r: bool)
        requires
            self.wf(),
        ensures
            r == matches_at(self@, s.spec_bytes(), 0),
    {
        let f = s.as_bytes();
        if f.len() > self.len {
            return false;
        }
        self.bytes_eq_at(0, f)
    }
}

} // verus!
