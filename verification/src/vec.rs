//! A fixed-capacity sequence of a copyable element type, backed by an array
//! of `N` elements and an explicit occupied length.

use crate::ContainerError;
use vstd::prelude::*;
use vstd::std_specs::cmp::PartialEqSpec;

verus! {

/// The elements of `s` at the positions marked `true` in `keep`, in order.
pub open spec fn kept_values<T>(s: Seq<T>, keep: Seq<bool>) -> Seq<T>
    recommends
        keep.len() == s.len(),
    decreases s.len(),
{
    if s.len() == 0 {
        Seq::empty()
    } else {
        (if keep[0] {
            seq![s[0]]
        } else {
            Seq::empty()
        }) + kept_values(s.drop_first(), keep.drop_first())
    }
}

proof fn lemma_kept_values_snoc<T>(s: Seq<T>, keep: Seq<bool>, x: T, b: bool)
    requires
        keep.len() == s.len(),
    ensures
        kept_values(s.push(x), keep.push(b)) == kept_values(s, keep) + (if b {
            seq![x]
        } else {
            Seq::empty()
        }),
    decreases s.len(),
{
    if s.len() == 0 {
        reveal_with_fuel(kept_values, 3);
        assert(s.push(x)[0] == x);
        assert(keep.push(b)[0] == b);
        assert(s.push(x).drop_first() =~= Seq::<T>::empty());
        assert(keep.push(b).drop_first() =~= Seq::<bool>::empty());
        assert(kept_values(s.push(x), keep.push(b)) =~= kept_values(s, keep) + (if b {
            seq![x]
        } else {
            Seq::empty()
        }));
    } else {
        assert(s.push(x)[0] == s[0]);
        assert(keep.push(b)[0] == keep[0]);
        assert(s.push(x).drop_first() =~= s.drop_first().push(x));
        assert(keep.push(b).drop_first() =~= keep.drop_first().push(b));
        lemma_kept_values_snoc(s.drop_first(), keep.drop_first(), x, b);
        assert(kept_values(s.push(x), keep.push(b)) =~= kept_values(s, keep) + (if b {
            seq![x]
        } else {
            Seq::empty()
        }));
    }
}

/// `acc` extended by `x` unless `acc` already holds an element that
/// compares equal to `x`.
pub open spec fn dedup_keep_step<T: PartialEq>(acc: Seq<T>, x: T) -> Seq<T> {
    if exists|q: int| 0 <= q < acc.len() && #[trigger] acc[q].eq_spec(&x) {
        acc
    } else {
        acc.push(x)
    }
}

/// `acc` extended by the elements of `rest` in order, skipping every
/// element that compares equal to one retained before it.
pub open spec fn deduped_from<T: PartialEq>(acc: Seq<T>, rest: Seq<T>) -> Seq<T>
    decreases rest.len(),
{
    if rest.len() == 0 {
        acc
    } else {
        deduped_from(dedup_keep_step(acc, rest[0]), rest.drop_first())
    }
}

/// The elements of `s` with every duplicate removed, wherever it stands:
/// an element is retained exactly when no element retained before it
/// compares equal to it.
pub open spec fn deduped<T: PartialEq>(s: Seq<T>) -> Seq<T> {
    deduped_from(Seq::empty(), s)
}

proof fn lemma_deduped_from_snoc<T: PartialEq>(acc: Seq<T>, rest: Seq<T>, x: T)
    ensures
        deduped_from(acc, rest.push(x)) == dedup_keep_step(deduped_from(acc, rest), x),
    decreases rest.len(),
{
    if rest.len() == 0 {
        reveal_with_fuel(deduped_from, 3);
        assert(rest.push(x)[0] == x);
        assert(rest.push(x).drop_first() =~= Seq::<T>::empty());
    } else {
        assert(rest.push(x)[0] == rest[0]);
        assert(rest.push(x).drop_first() =~= rest.drop_first().push(x));
        lemma_deduped_from_snoc(dedup_keep_step(acc, rest[0]), rest.drop_first(), x);
    }
}

/// Two elements were observed to share a key: some recorded draws of
/// `key` on `a` and on `b` returned values that compare equal.
pub open spec fn keys_collide<T, K: PartialEq, F: Fn(&T) -> K>(key: F, a: T, b: T) -> bool {
    exists|ka: K, kb: K|
        #![all_triggers]
        call_ensures(key, (&a,), ka) && call_ensures(key, (&b,), kb) && ka.eq_spec(&kb)
}

/// Two elements were observed to differ in key: some recorded draws of
/// `key` on `a` and on `b` returned values that compare unequal.
pub open spec fn keys_differ<T, K: PartialEq, F: Fn(&T) -> K>(key: F, a: T, b: T) -> bool {
    exists|ka: K, kb: K|
        #![all_triggers]
        call_ensures(key, (&a,), ka) && call_ensures(key, (&b,), kb) && !ka.eq_spec(&kb)
}

/// A capacity-`N` sequence buffer. The first `len` cells hold the logical
/// elements; the cells at `[len..N]` carry no meaning and are never
/// observable through the public interface.
#[derive(Clone, Copy)]
pub struct Vec<T, const N: usize> {
    pub(crate) storage: [T; N],
    pub(crate) len: usize,
}

impl<T, const N: usize> View for Vec<T, N> {
    type V = Seq<T>;

    /// The occupied elements, in order.
    open(crate) spec fn view(&self) -> Seq<T> {
        self.storage@.take(self.len as int)
    }
}

impl<T, const N: usize> Vec<T, N> {
    /// Well-formedness: the occupied length fits the capacity. Every
    /// constructor establishes this and every method preserves it.
    pub open(crate) spec fn wf(&self) -> bool {
        self.len <= N
    }
}

impl<T: Copy + PartialEq, const N: usize> PartialEq for Vec<T, N> {
    /// Prefix equality: only the occupied elements take part in the
    /// comparison, never the unused tail.
    fn eq(&self, other: &Self) -> (r: bool) {
        if self.len != other.len {
            return false;
        }
        let m = if self.len < N {
            self.len
        } else {
            N
        };
        let mut j: usize = 0;
        while j < m
            invariant
                m <= N,
                j <= m,
                self.len == other.len,
                m == if self.len < N {
                    self.len as int
                } else {
                    N as int
                },
                <T as PartialEqSpec>::obeys_eq_spec() ==> forall|t: int|
                    0 <= t < j ==> #[trigger] self.storage@[t].eq_spec(&other.storage@[t]),
            decreases m - j,
        {
            if !(self.storage[j] == other.storage[j]) {
                return false;
            }
            j += 1;
        }
        true
    }
}

impl<T: Copy + PartialEq, const N: usize> vstd::std_specs::cmp::PartialEqSpecImpl for Vec<T, N> {
    open spec fn obeys_eq_spec() -> bool {
        <T as PartialEqSpec>::obeys_eq_spec()
    }

    open(crate) spec fn eq_spec(&self, other: &Self) -> bool {
        &&& self.len == other.len
        &&& forall|t: int|
            0 <= t < (if self.len < N {
                self.len as int
            } else {
                N as int
            }) ==> #[trigger] self.storage@[t].eq_spec(&other.storage@[t])
    }
}

impl<T: Copy + PartialEq + Eq, const N: usize> Eq for Vec<T, N> {

}

impl<T: Copy + Default + PartialEq, const N: usize> Vec<T, N> {
    /// Creates an empty sequence buffer with a capacity of `N` elements.
    /// The unoccupied cells are seeded with the element type's default
    /// value, which is never observable.
    pub fn new() -> (r: Self)
        ensures
            r.wf(),
            r@ == Seq::<T>::empty(),
    {
        let d = T::default();
        let r = Vec { storage: [d; N], len: 0 };
        proof {
            assert(r@ =~= Seq::<T>::empty());
        }
        r
    }

    /// Builds a sequence buffer directly from a backing array and an
    /// occupied length, which must not exceed the capacity.
    pub fn from_raw_parts(items: [T; N], len: usize) -> (r: Self)
        requires
            len <= N,
        ensures
            r.wf(),
            r@ == items@.take(len as int),
    {
        Vec { storage: items, len }
    }

    /// As `from_raw_parts`; the capacity argument is dictated by the type
    /// and goes unused.
    pub fn from_raw_parts_in(items: [T; N], len: usize, _capacity: usize) -> (r: Self)
        requires
            len <= N,
        ensures
            r.wf(),
            r@ == items@.take(len as int),
    {
        Vec { storage: items, len }
    }

    /// The occupied length.
    pub fn len(&self) -> (r: usize)
        requires
            self.wf(),
        ensures
            r == self@.len(),
    {
        self.len
    }

    /// Whether no element is occupied.
    pub fn is_empty(&self) -> (r: bool)
        requires
            self.wf(),
        ensures
            r == (self@.len() == 0),
    {
        self.len == 0
    }

    /// The fixed element capacity `N`.
    pub fn capacity(&self) -> (r: usize)
        ensures
            r == N,
    {
        N
    }

    /// The number of unoccupied cells.
    pub fn spare_capacity_mut(&self) -> (r: usize)
        requires
            self.wf(),
        ensures
            r == N - self@.len(),
    {
        N - self.len
    }

    /// Empties the buffer.
    pub fn clear(&mut self)
        ensures
            final(self).wf(),
            final(self)@ == Seq::<T>::empty(),
    {
        self.len = 0;
        proof {
            assert(self@ =~= Seq::<T>::empty());
        }
    }

    /// The occupied elements, borrowed as a slice.
    pub fn as_slice(&self) -> (r: &[T])
        requires
            self.wf(),
        ensures
            r@ == self@,
    {
        &self.storage[0..self.len]
    }

    /// The occupied elements, borrowed as a mutable slice. Writing through
    /// the slice replaces elements one for one; the occupied length does
    /// not change.
    ///
    /// Relies on the index operator of `[T; N]` over a range: the returned
    /// slice is a view of exactly the first `len` cells.
    #[verifier::external_body]
    pub fn as_mut_slice(&mut self) -> (r: &mut [T])
        requires
            old(self).wf(),
        ensures
            r@ == old(self)@,
            final(self)@ == final(r)@,
            final(self)@.len() == old(self)@.len(),
            final(self).wf(),
    {
        &mut self.storage[0..self.len]
    }

    /// The element at `index`, or `None` when `index` is not below the
    /// occupied length.
    pub fn get(&self, index: usize) -> (r: Option<&T>)
        requires
            self.wf(),
        ensures
            match r {
                Some(x) => index < self@.len() && *x == self@[index as int],
                None => index >= self@.len(),
            },
    {
        if index < self.len {
            Some(&self.storage[index])
        } else {
            None
        }
    }

    /// Appends one element. Rejected with `CapacityExceeded` when the
    /// buffer is full.
    pub fn append(&mut self, item: T) -> (r: Result<(), ContainerError>)
        requires
            old(self).wf(),
        ensures
            final(self).wf(),
            r is Ok <==> old(self)@.len() < N,
            r is Ok ==> final(self)@ == old(self)@.push(item),
            r is Err ==> final(self)@ == old(self)@ && r == Err::<(), ContainerError>(
                ContainerError::CapacityExceeded,
            ),
    {
        if self.len < N {
            self.storage[self.len] = item;
            self.len = self.len + 1;
            proof {
                assert(self@ =~= old(self)@.push(item));
            }
            Ok(())
        } else {
            Err(ContainerError::CapacityExceeded)
        }
    }

    /// Appends one element; the same operation as `append`.
    pub fn push(&mut self, item: T) -> (r: Result<(), ContainerError>)
        requires
            old(self).wf(),
        ensures
            final(self).wf(),
            r is Ok <==> old(self)@.len() < N,
            r is Ok ==> final(self)@ == old(self)@.push(item),
            r is Err ==> final(self)@ == old(self)@ && r == Err::<(), ContainerError>(
                ContainerError::CapacityExceeded,
            ),
    {
        self.append(item)
    }

    /// Appends one element and reports whether there was room for it.
    pub fn push_within_capacity(&mut self, item: T) -> (r: bool)
        requires
            old(self).wf(),
        ensures
            final(self).wf(),
            r <==> old(self)@.len() < N,
            r ==> final(self)@ == old(self)@.push(item),
            !r ==> final(self)@ == old(self)@,
    {
        match self.append(item) {
            Ok(()) => true,
            Err(_) => false,
        }
    }

    /// Appends one element, handing it back when the buffer is full.
    pub fn try_push(&mut self, item: T) -> (r: Result<(), T>)
        requires
            old(self).wf(),
        ensures
            final(self).wf(),
            r is Ok <==> old(self)@.len() < N,
            r is Ok ==> final(self)@ == old(self)@.push(item),
            r is Err ==> final(self)@ == old(self)@ && r == Err::<(), T>(item),
    {
        if self.len < N {
            self.storage[self.len] = item;
            self.len = self.len + 1;
            proof {
                assert(self@ =~= old(self)@.push(item));
            }
            Ok(())
        } else {
            Err(item)
        }
    }

    /// Removes and returns the last element, or `None` on an empty buffer.
    pub fn pop(&mut self) -> (r: Option<T>)
        requires
            old(self).wf(),
        ensures
            final(self).wf(),
            old(self)@.len() == 0 ==> r is None && final(self)@ == old(self)@,
            old(self)@.len() > 0 ==> r == Some(old(self)@.last()) && final(self)@ == old(
                self,
            )@.drop_last(),
    {
        if self.len > 0 {
            self.len = self.len - 1;
            proof {
                assert(self@ =~= old(self)@.drop_last());
            }
            Some(self.storage[self.len])
        } else {
            None
        }
    }

    /// Shortens the buffer to `new_len` elements; a no-op when `new_len`
    /// is not below the occupied length.
    pub fn truncate(&mut self, new_len: usize)
        requires
            old(self).wf(),
        ensures
            final(self).wf(),
            new_len >= old(self)@.len() ==> final(self)@ == old(self)@,
            new_len < old(self)@.len() ==> final(self)@ == old(self)@.take(new_len as int),
    {
        if new_len < self.len {
            self.len = new_len;
            proof {
                assert(self@ =~= old(self)@.take(new_len as int));
            }
        }
    }

    /// Sets the occupied length directly, which must not exceed the
    /// capacity. Growing exposes cells whose values this contract leaves
    /// unspecified; the caller takes responsibility for their content.
    pub fn set_len(&mut self, new_len: usize)
        requires
            old(self).wf(),
            new_len <= N,
        ensures
            final(self).wf(),
            final(self)@.len() == new_len,
            forall|t: int|
                0 <= t < new_len && t < old(self)@.len() ==> final(self)@[t] == old(self)@[t],
    {
        self.len = new_len;
    }

    /// Empties the buffer and returns the previous contents as a new
    /// buffer of the same capacity.
    pub fn drain(&mut self) -> (r: Self)
        requires
            old(self).wf(),
        ensures
            final(self).wf(),
            r.wf(),
            r@ == old(self)@,
            final(self)@ == Seq::<T>::empty(),
    {
        let r = *self;
        self.len = 0;
        proof {
            assert(self@ =~= Seq::<T>::empty());
        }
        r
    }

    /// Gives up the buffer and hands out the backing array; the occupied
    /// prefix holds the logical elements.
    pub fn into_flattened(self) -> (r: [T; N])
        requires
            self.wf(),
        ensures
            r@.take(self@.len() as int) == self@,
    {
        self.storage
    }

    /// Splits the buffer into its backing array and occupied length.
    pub fn into_raw_parts(self) -> (r: ([T; N], usize))
        requires
            self.wf(),
        ensures
            r.1 == self@.len() <= N,
            r.0@.take(r.1 as int) == self@,
    {
        (self.storage, self.len)
    }

    /// As `into_raw_parts`; the capacity argument is dictated by the type
    /// and goes unused.
    pub fn into_raw_parts_in(self, _capacity: usize) -> (r: ([T; N], usize))
        requires
            self.wf(),
        ensures
            r.1 == self@.len() <= N,
            r.0@.take(r.1 as int) == self@,
    {
        (self.storage, self.len)
    }

    /// Moves the elements at `[from, len)` down to start at `to`, part of
    /// removing the range `[to, from)`. The occupied length is not touched.
    fn shift_tail_left(&mut self, to: usize, from: usize)
        requires
            to <= from <= old(self).len <= N,
        ensures
            final(self).len == old(self).len,
            final(self).storage@.len() == N,
            forall|t: int|
                0 <= t < to ==> #[trigger] final(self).storage@[t] == old(self).storage@[t],
            forall|t: int|
                to <= t < to + (old(self).len - from) ==> #[trigger] final(self).storage@[t]
                    == old(self).storage@[t + (from - to)],
    {
        let ghost pstore = self.storage@;
        let ghost plen = self.len;
        let mut k: usize = 0;
        while from + k < self.len
            invariant
                to <= from <= plen <= N,
                self.len == plen,
                from + k <= plen,
                self.storage@.len() == N,
                pstore.len() == N,
                forall|t: int| 0 <= t < to ==> #[trigger] self.storage@[t] == pstore[t],
                forall|t: int|
                    to <= t < to + k ==> #[trigger] self.storage@[t] == pstore[t + (from - to)],
                forall|t: int| to + k <= t < N ==> #[trigger] self.storage@[t] == pstore[t],
            decreases plen - k,
        {
            self.storage[to + k] = self.storage[from + k];
            k += 1;
        }
    }

    /// Moves the elements at `[from, len)` up by `w` cells, opening a gap
    /// of `w` cells at `from`. The occupied length is not touched.
    fn shift_tail_right(&mut self, from: usize, w: usize)
        requires
            from <= old(self).len,
            old(self).len + w <= N,
        ensures
            final(self).len == old(self).len,
            final(self).storage@.len() == N,
            forall|t: int|
                0 <= t < from ==> #[trigger] final(self).storage@[t] == old(self).storage@[t],
            forall|t: int|
                from + w <= t < old(self).len + w ==> #[trigger] final(self).storage@[t] == old(
                    self,
                ).storage@[t - w],
    {
        let ghost pstore = self.storage@;
        let ghost plen = self.len;
        let mut k: usize = self.len;
        while k > from
            invariant
                from <= k <= plen,
                plen + w <= N,
                self.len == plen,
                self.storage@.len() == N,
                pstore.len() == N,
                forall|t: int| 0 <= t < k + w ==> #[trigger] self.storage@[t] == pstore[t],
                forall|t: int|
                    k + w <= t < plen + w ==> #[trigger] self.storage@[t] == pstore[t - w],
            decreases k,
        {
            k -= 1;
            self.storage[k + w] = self.storage[k];
        }
    }

    /// Inserts one element at `index`, shifting the elements at and after
    /// `index` right by one. Rejected with `IndexOutOfBounds` when `index`
    /// is above the occupied length and with `CapacityExceeded` when the
    /// buffer is full.
    pub fn insert(&mut self, index: usize, item: T) -> (r: Result<(), ContainerError>)
        requires
            old(self).wf(),
        ensures
            final(self).wf(),
            r is Ok <==> index <= old(self)@.len() && old(self)@.len() < N,
            r is Ok ==> final(self)@ == old(self)@.insert(index as int, item),
            r is Err ==> final(self)@ == old(self)@,
            r == Err::<(), ContainerError>(ContainerError::IndexOutOfBounds) <==> index > old(
                self,
            )@.len(),
            r == Err::<(), ContainerError>(ContainerError::CapacityExceeded) <==> (index <= old(
                self,
            )@.len() && old(self)@.len() >= N),
    {
        if index > self.len {
            return Err(ContainerError::IndexOutOfBounds);
        }
        if self.len >= N {
            return Err(ContainerError::CapacityExceeded);
        }
        self.shift_tail_right(index, 1);
        self.storage[index] = item;
        self.len = self.len + 1;
        proof {
            assert(self@ =~= old(self)@.insert(index as int, item));
        }
        Ok(())
    }

    /// Inserts a slice of elements at `index`, shifting the elements at
    /// and after `index` right by the slice length. Rejected with
    /// `IndexOutOfBounds` when `index` is above the occupied length and
    /// with `CapacityExceeded` when the slice does not fit in the free
    /// space.
    pub fn insert_many(&mut self, index: usize, items: &[T]) -> (r: Result<(), ContainerError>)
        requires
            old(self).wf(),
        ensures
            final(self).wf(),
            r is Ok <==> index <= old(self)@.len() && old(self)@.len() + items@.len() <= N,
            r is Ok ==> final(self)@ == old(self)@.take(index as int) + items@ + old(self)@.skip(
                index as int,
            ),
            r is Err ==> final(self)@ == old(self)@,
            r == Err::<(), ContainerError>(ContainerError::IndexOutOfBounds) <==> index > old(
                self,
            )@.len(),
            r == Err::<(), ContainerError>(ContainerError::CapacityExceeded) <==> (index <= old(
                self,
            )@.len() && old(self)@.len() + items@.len() > N),
    {
        if index > self.len {
            return Err(ContainerError::IndexOutOfBounds);
        }
        let m = items.len();
        if m > N - self.len {
            return Err(ContainerError::CapacityExceeded);
        }
        self.shift_tail_right(index, m);
        let ghost mid = self.storage@;
        let mut j: usize = 0;
        while j < m
            invariant
                j <= m,
                m == items@.len(),
                index + m <= N,
                self.len == old(self).len,
                self.storage@.len() == N,
                mid.len() == N,
                forall|t: int|
                    0 <= t < index ==> #[trigger] self.storage@[t] == mid[t],
                forall|t: int|
                    index <= t < index + j ==> #[trigger] self.storage@[t] == items@[t - index],
                forall|t: int| index + j <= t < N ==> #[trigger] self.storage@[t] == mid[t],
            decreases m - j,
        {
            self.storage[index + j] = items[j];
            j += 1;
        }
        self.len = self.len + m;
        proof {
            assert(self@ =~= old(self)@.take(index as int) + items@ + old(self)@.skip(
                index as int,
            ));
        }
        Ok(())
    }

    /// Removes and returns the element at `index`, shifting the elements
    /// after it left by one. Rejected with `IndexOutOfBounds` when `index`
    /// is not below the occupied length.
    pub fn remove(&mut self, index: usize) -> (r: Result<T, ContainerError>)
        requires
            old(self).wf(),
        ensures
            final(self).wf(),
            r is Ok <==> index < old(self)@.len(),
            match r {
                Ok(x) => x == old(self)@[index as int] && final(self)@ == old(self)@.remove(
                    index as int,
                ),
                Err(e) => final(self)@ == old(self)@ && e == ContainerError::IndexOutOfBounds,
            },
    {
        if index >= self.len {
            return Err(ContainerError::IndexOutOfBounds);
        }
        let item = self.storage[index];
        self.shift_tail_left(index, index + 1);
        self.len = self.len - 1;
        proof {
            assert(self@ =~= old(self)@.remove(index as int));
        }
        Ok(item)
    }

    /// Removes and returns the element at `index`, moving the last element
    /// into its place instead of shifting; the relative order after
    /// `index` is not kept. Rejected with `IndexOutOfBounds` when `index`
    /// is not below the occupied length.
    pub fn swap_remove(&mut self, index: usize) -> (r: Result<T, ContainerError>)
        requires
            old(self).wf(),
        ensures
            final(self).wf(),
            r is Ok <==> index < old(self)@.len(),
            match r {
                Ok(x) => x == old(self)@[index as int] && final(self)@ == old(self)@.update(
                    index as int,
                    old(self)@.last(),
                ).drop_last(),
                Err(e) => final(self)@ == old(self)@ && e == ContainerError::IndexOutOfBounds,
            },
    {
        if index >= self.len {
            return Err(ContainerError::IndexOutOfBounds);
        }
        let item = self.storage[index];
        self.storage[index] = self.storage[self.len - 1];
        self.len = self.len - 1;
        proof {
            assert(self@ =~= old(self)@.update(index as int, old(self)@.last()).drop_last());
        }
        Ok(item)
    }

    /// Moves the elements from `at` onwards into a new buffer of the same
    /// capacity and truncates this one to `at`. Rejected with
    /// `IndexOutOfBounds` when `at` is above the occupied length.
    pub fn split_off(&mut self, at: usize) -> (r: Result<Self, ContainerError>)
        requires
            old(self).wf(),
        ensures
            final(self).wf(),
            r is Ok <==> at <= old(self)@.len(),
            match r {
                Ok(tail) => tail.wf() && tail@ == old(self)@.skip(at as int) && final(self)@ == old(
                    self,
                )@.take(at as int),
                Err(e) => final(self)@ == old(self)@ && e == ContainerError::IndexOutOfBounds,
            },
    {
        if at > self.len {
            return Err(ContainerError::IndexOutOfBounds);
        }
        let mut tail = Self::new();
        proof {
            assert(tail@.len() == tail.len as int);
        }
        let m = self.len - at;
        let ghost pstore = self.storage@;
        let mut j: usize = 0;
        while j < m
            invariant
                j <= m,
                at + m == self.len <= N,
                self.len == old(self).len,
                self.storage@ == pstore,
                pstore.len() == N,
                tail.len == 0,
                tail.storage@.len() == N,
                forall|t: int|
                    0 <= t < j ==> #[trigger] tail.storage@[t] == pstore[at + t],
            decreases m - j,
        {
            tail.storage[j] = self.storage[at + j];
            j += 1;
        }
        tail.len = m;
        self.len = at;
        proof {
            assert(tail@ =~= old(self)@.skip(at as int));
            assert(self@ =~= old(self)@.take(at as int));
        }
        Ok(tail)
    }

    /// Appends a copy of every element of the slice. Rejected with
    /// `CapacityExceeded` when the slice does not fit in the free space,
    /// in which case nothing is appended.
    pub fn extend_from_slice(&mut self, other: &[T]) -> (r: Result<(), ContainerError>)
        requires
            old(self).wf(),
        ensures
            final(self).wf(),
            r is Ok <==> old(self)@.len() + other@.len() <= N,
            r is Ok ==> final(self)@ == old(self)@ + other@,
            r is Err ==> final(self)@ == old(self)@ && r == Err::<(), ContainerError>(
                ContainerError::CapacityExceeded,
            ),
    {
        let m = other.len();
        if m > N - self.len {
            return Err(ContainerError::CapacityExceeded);
        }
        let plen = self.len;
        let ghost pstore = self.storage@;
        let mut j: usize = 0;
        while j < m
            invariant
                j <= m,
                m == other@.len(),
                plen + m <= N,
                self.len == plen,
                self.storage@.len() == N,
                pstore.len() == N,
                forall|t: int| 0 <= t < plen ==> #[trigger] self.storage@[t] == pstore[t],
                forall|t: int|
                    plen <= t < plen + j ==> #[trigger] self.storage@[t] == other@[t - plen],
            decreases m - j,
        {
            self.storage[plen + j] = other[j];
            j += 1;
        }
        self.len = self.len + m;
        proof {
            assert(self@ =~= old(self)@ + other@);
        }
        Ok(())
    }

    /// Appends a copy of the elements in the index range to the end of the
    /// buffer. Rejected with `IndexOutOfBounds` on an out-of-order or
    /// out-of-range slice and with `CapacityExceeded` when the copy does
    /// not fit in the free space.
    pub fn extend_from_within(&mut self, range: core::ops::Range<usize>) -> (r: Result<
        (),
        ContainerError,
    >)
        requires
            old(self).wf(),
        ensures
            final(self).wf(),
            r is Ok <==> range.start <= range.end <= old(self)@.len() && old(self)@.len() + (
            range.end - range.start) <= N,
            r is Ok ==> final(self)@ == old(self)@ + old(self)@.subrange(
                range.start as int,
                range.end as int,
            ),
            r is Err ==> final(self)@ == old(self)@,
            r == Err::<(), ContainerError>(ContainerError::IndexOutOfBounds) <==> !(range.start
                <= range.end <= old(self)@.len()),
            r == Err::<(), ContainerError>(ContainerError::CapacityExceeded) <==> (range.start
                <= range.end <= old(self)@.len() && old(self)@.len() + (range.end - range.start)
                > N),
    {
        let a = range.start;
        let b = range.end;
        if a > b || b > self.len {
            return Err(ContainerError::IndexOutOfBounds);
        }
        let m = b - a;
        if m > N - self.len {
            return Err(ContainerError::CapacityExceeded);
        }
        let plen = self.len;
        let ghost pstore = self.storage@;
        let mut j: usize = 0;
        while j < m
            invariant
                j <= m,
                a + m <= plen <= N,
                plen + m <= N,
                self.len == plen,
                self.storage@.len() == N,
                pstore.len() == N,
                forall|t: int| 0 <= t < plen ==> #[trigger] self.storage@[t] == pstore[t],
                forall|t: int|
                    plen <= t < plen + j ==> #[trigger] self.storage@[t] == pstore[t - plen + a],
            decreases m - j,
        {
            self.storage[plen + j] = self.storage[a + j];
            j += 1;
        }
        self.len = self.len + m;
        proof {
            assert(self@ =~= old(self)@ + old(self)@.subrange(a as int, b as int));
        }
        Ok(())
    }

    /// Grows the buffer to `new_len` elements by appending copies of
    /// `item`, or shrinks it to `new_len` by truncation. Rejected with
    /// `CapacityExceeded` when `new_len` exceeds the capacity.
    pub fn resize(&mut self, new_len: usize, item: T) -> (r: Result<(), ContainerError>)
        requires
            old(self).wf(),
        ensures
            final(self).wf(),
            r is Ok <==> new_len <= N,
            r is Err ==> final(self)@ == old(self)@ && r == Err::<(), ContainerError>(
                ContainerError::CapacityExceeded,
            ),
            r is Ok && new_len <= old(self)@.len() ==> final(self)@ == old(self)@.take(
                new_len as int,
            ),
            r is Ok && new_len > old(self)@.len() ==> final(self)@ == old(self)@ + Seq::new(
                (new_len - old(self)@.len()) as nat,
                |q: int| item,
            ),
    {
        if new_len > N {
            return Err(ContainerError::CapacityExceeded);
        }
        if new_len <= self.len {
            self.len = new_len;
            proof {
                assert(self@ =~= old(self)@.take(new_len as int));
            }
            return Ok(());
        }
        let plen = self.len;
        let ghost pstore = self.storage@;
        let mut j: usize = plen;
        while j < new_len
            invariant
                plen <= j <= new_len <= N,
                self.len == plen,
                self.storage@.len() == N,
                pstore.len() == N,
                forall|t: int| 0 <= t < plen ==> #[trigger] self.storage@[t] == pstore[t],
                forall|t: int| plen <= t < j ==> #[trigger] self.storage@[t] == item,
            decreases new_len - j,
        {
            self.storage[j] = item;
            j += 1;
        }
        self.len = new_len;
        proof {
            assert(self@ =~= old(self)@ + Seq::new(
                (new_len - old(self)@.len()) as nat,
                |q: int| item,
            ));
        }
        Ok(())
    }

    /// Whether some occupied element compares equal to `item`.
    pub fn contains(&self, item: &T) -> (r: bool)
        requires
            self.wf(),
            T::obeys_eq_spec(),
        ensures
            r == exists|q: int| 0 <= q < self@.len() && self@[q].eq_spec(item),
    {
        let mut j: usize = 0;
        while j < self.len
            invariant
                self.wf(),
                T::obeys_eq_spec(),
                j <= self@.len() <= N,
                forall|q: int| 0 <= q < j ==> !(#[trigger] self@[q].eq_spec(item)),
            decreases self@.len() - j,
        {
            if self.storage[j] == *item {
                proof {
                    assert(self@[j as int].eq_spec(item));
                }
                return true;
            }
            j += 1;
        }
        false
    }

    /// Removes and returns the first element that compares equal to
    /// `item`, or `None` when no occupied element does.
    pub fn extract(&mut self, item: &T) -> (r: Option<T>)
        requires
            old(self).wf(),
            T::obeys_eq_spec(),
        ensures
            final(self).wf(),
            match r {
                Some(x) => exists|q: int|
                    {
                        &&& 0 <= q < old(self)@.len()
                        &&& x == old(self)@[q]
                        &&& old(self)@[q].eq_spec(item)
                        &&& forall|p: int| 0 <= p < q ==> !(#[trigger] old(self)@[p].eq_spec(item))
                        &&& final(self)@ == old(self)@.remove(q)
                    },
                None => final(self)@ == old(self)@ && forall|p: int|
                    0 <= p < old(self)@.len() ==> !(#[trigger] old(self)@[p].eq_spec(item)),
            },
    {
        let mut j: usize = 0;
        while j < self.len
            invariant
                self.wf(),
                self == old(self),
                T::obeys_eq_spec(),
                j <= self@.len() <= N,
                forall|p: int| 0 <= p < j ==> !(#[trigger] self@[p].eq_spec(item)),
            decreases self@.len() - j,
        {
            if self.storage[j] == *item {
                proof {
                    assert(self@[j as int].eq_spec(item));
                }
                let removed = self.remove(j);
                match removed {
                    Ok(x) => {
                        return Some(x);
                    },
                    Err(_) => {
                        proof {
                            assert(false);
                        }
                        return None;
                    },
                }
            }
            j += 1;
        }
        None
    }

    /// Keeps exactly the elements for which the predicate returns `true`,
    /// in order, compacting them to the front in a single pass.
    pub fn retain<F: Fn(&T) -> bool>(&mut self, f: F)
        requires
            old(self).wf(),
            forall|x: T| #[trigger] call_requires(f, (&x,)),
        ensures
            final(self).wf(),
            exists|keep: Seq<bool>|
                {
                    &&& keep.len() == old(self)@.len()
                    &&& final(self)@ == kept_values(old(self)@, keep)
                    &&& forall|q: int|
                        0 <= q < keep.len() ==> call_ensures(
                            f,
                            (&old(self)@[q],),
                            #[trigger] keep[q],
                        )
                },
    {
        let plen = self.len;
        let ghost s = self@;
        let ghost mut keep: Seq<bool> = Seq::empty();
        let mut k: usize = 0;
        let mut i: usize = 0;
        while i < plen
            invariant
                plen <= N,
                self.len == plen,
                k <= i <= plen,
                self.storage@.len() == N,
                s.len() == plen,
                keep.len() == i,
                forall|x: T| #[trigger] call_requires(f, (&x,)),
                forall|t: int| i <= t < plen ==> #[trigger] self.storage@[t] == s[t],
                self.storage@.take(k as int) == kept_values(s.take(i as int), keep),
                forall|q: int| 0 <= q < i ==> call_ensures(f, (&s[q],), #[trigger] keep[q]),
            decreases plen - i,
        {
            let x = self.storage[i];
            let b = f(&x);
            let ghost keep0 = keep;
            proof {
                keep = keep.push(b);
                lemma_kept_values_snoc(s.take(i as int), keep0, s[i as int], b);
                assert(s.take(i as int).push(s[i as int]) =~= s.take(i + 1));
            }
            if b {
                self.storage[k] = x;
                k += 1;
                proof {
                    assert(self.storage@.take(k as int) =~= self.storage@.take(k - 1).push(
                        s[i as int],
                    ));
                    assert(self.storage@.take(k as int) =~= kept_values(s.take(i + 1), keep));
                }
            } else {
                proof {
                    assert(kept_values(s.take(i as int), keep0) + Seq::<T>::empty()
                        =~= kept_values(s.take(i as int), keep0));
                }
            }
            i += 1;
        }
        self.len = k;
        proof {
            assert(s.take(plen as int) =~= s);
            assert(self@ =~= self.storage@.take(k as int));
        }
    }

    /// Keeps exactly the elements for which the predicate returns `true`,
    /// as `retain` does. The predicate observes each element but does not
    /// rewrite it.
    pub fn retain_mut<F: Fn(&T) -> bool>(&mut self, f: F)
        requires
            old(self).wf(),
            forall|x: T| #[trigger] call_requires(f, (&x,)),
        ensures
            final(self).wf(),
            exists|keep: Seq<bool>|
                {
                    &&& keep.len() == old(self)@.len()
                    &&& final(self)@ == kept_values(old(self)@, keep)
                    &&& forall|q: int|
                        0 <= q < keep.len() ==> call_ensures(
                            f,
                            (&old(self)@[q],),
                            #[trigger] keep[q],
                        )
                },
    {
        self.retain(f)
    }

    /// Removes and returns the first element for which the predicate
    /// returns `true`, or `None` when it returns `false` on every occupied
    /// element.
    pub fn extract_if<F: Fn(&T) -> bool>(&mut self, f: F) -> (r: Option<T>)
        requires
            old(self).wf(),
            forall|x: T| #[trigger] call_requires(f, (&x,)),
        ensures
            final(self).wf(),
            match r {
                Some(x) => exists|q: int|
                    {
                        &&& 0 <= q < old(self)@.len()
                        &&& x == old(self)@[q]
                        &&& call_ensures(f, (&old(self)@[q],), true)
                        &&& forall|p: int|
                            0 <= p < q ==> #[trigger] call_ensures(f, (&old(self)@[p],), false)
                        &&& final(self)@ == old(self)@.remove(q)
                    },
                None => final(self)@ == old(self)@ && forall|p: int|
                    0 <= p < old(self)@.len() ==> #[trigger] call_ensures(
                        f,
                        (&old(self)@[p],),
                        false,
                    ),
            },
    {
        let mut j: usize = 0;
        while j < self.len
            invariant
                self.wf(),
                self == old(self),
                j <= self@.len() <= N,
                forall|x: T| #[trigger] call_requires(f, (&x,)),
                forall|p: int| 0 <= p < j ==> #[trigger] call_ensures(f, (&self@[p],), false),
            decreases self@.len() - j,
        {
            let x = self.storage[j];
            if f(&x) {
                let removed = self.remove(j);
                match removed {
                    Ok(y) => {
                        return Some(y);
                    },
                    Err(_) => {
                        proof {
                            assert(false);
                        }
                        return None;
                    },
                }
            }
            j += 1;
        }
        None
    }

    /// Grows the buffer to `new_len` elements by appending values drawn
    /// from the generator, or shrinks it to `new_len` by truncation.
    /// Rejected with `CapacityExceeded` when `new_len` exceeds the
    /// capacity.
    pub fn resize_with<F: Fn() -> T>(&mut self, new_len: usize, f: F) -> (r: Result<
        (),
        ContainerError,
    >)
        requires
            old(self).wf(),
            call_requires(f, ()),
        ensures
            final(self).wf(),
            r is Ok <==> new_len <= N,
            r is Err ==> final(self)@ == old(self)@ && r == Err::<(), ContainerError>(
                ContainerError::CapacityExceeded,
            ),
            r is Ok && new_len <= old(self)@.len() ==> final(self)@ == old(self)@.take(
                new_len as int,
            ),
            r is Ok && new_len > old(self)@.len() ==> {
                &&& final(self)@.len() == new_len
                &&& final(self)@.take(old(self)@.len() as int) == old(self)@
                &&& forall|t: int|
                    old(self)@.len() <= t < new_len ==> call_ensures(
                        f,
                        (),
                        #[trigger] final(self)@[t],
                    )
            },
    {
        if new_len > N {
            return Err(ContainerError::CapacityExceeded);
        }
        if new_len <= self.len {
            self.len = new_len;
            proof {
                assert(self@ =~= old(self)@.take(new_len as int));
            }
            return Ok(());
        }
        let plen = self.len;
        let ghost pstore = self.storage@;
        let mut j: usize = plen;
        while j < new_len
            invariant
                plen <= j <= new_len <= N,
                self.len == plen,
                self.storage@.len() == N,
                pstore.len() == N,
                call_requires(f, ()),
                forall|t: int| 0 <= t < plen ==> #[trigger] self.storage@[t] == pstore[t],
                forall|t: int|
                    plen <= t < j ==> call_ensures(f, (), #[trigger] self.storage@[t]),
            decreases new_len - j,
        {
            let v = f();
            self.storage[j] = v;
            j += 1;
        }
        self.len = new_len;
        proof {
            assert(self@.take(old(self)@.len() as int) =~= old(self)@);
        }
        Ok(())
    }

    /// Removes every duplicate, wherever it stands in the buffer: an
    /// element stays exactly when no element retained before it compares
    /// equal to it.
    pub fn dedup(&mut self)
        requires
            old(self).wf(),
            T::obeys_eq_spec(),
        ensures
            final(self).wf(),
            final(self)@ == deduped(old(self)@),
    {
        let plen = self.len;
        let ghost s = self@;
        let mut k: usize = 0;
        let mut i: usize = 0;
        while i < plen
            invariant
                plen <= N,
                self.len == plen,
                k <= i <= plen,
                self.storage@.len() == N,
                s.len() == plen,
                T::obeys_eq_spec(),
                forall|t: int| i <= t < plen ==> #[trigger] self.storage@[t] == s[t],
                self.storage@.take(k as int) == deduped_from(Seq::empty(), s.take(i as int)),
            decreases plen - i,
        {
            let x = self.storage[i];
            let ghost acc = self.storage@.take(k as int);
            let mut dup = false;
            let mut q: usize = 0;
            while q < k && !dup
                invariant
                    q <= k <= plen <= N,
                    self.storage@.len() == N,
                    T::obeys_eq_spec(),
                    acc == self.storage@.take(k as int),
                    x == s[i as int],
                    i < plen,
                    s.len() == plen,
                    dup ==> exists|p: int| 0 <= p < k && #[trigger] acc[p].eq_spec(&s[i as int]),
                    !dup ==> forall|p: int|
                        0 <= p < q ==> !(#[trigger] acc[p].eq_spec(&s[i as int])),
                decreases (if dup { 0int } else { 1int }), k - q,
            {
                if self.storage[q] == x {
                    proof {
                        assert(acc[q as int].eq_spec(&s[i as int]));
                    }
                    dup = true;
                } else {
                    q += 1;
                }
            }
            proof {
                lemma_deduped_from_snoc(Seq::empty(), s.take(i as int), s[i as int]);
                assert(s.take(i as int).push(s[i as int]) =~= s.take(i + 1));
            }
            if !dup {
                self.storage[k] = x;
                k += 1;
                proof {
                    assert(!(exists|p: int|
                        0 <= p < acc.len() && #[trigger] acc[p].eq_spec(&s[i as int])));
                    assert(self.storage@.take(k as int) =~= acc.push(s[i as int]));
                }
            }
            i += 1;
        }
        self.len = k;
        proof {
            assert(s.take(plen as int) =~= s);
            assert(self@ =~= self.storage@.take(k as int));
        }
    }

    /// Removes every element that the predicate banks with a retained
    /// element standing anywhere before it: an element stays exactly when
    /// `same_bucket(kept, it)` returned `false` for every element kept so
    /// far, with the earlier element as the first argument.
    pub fn dedup_by<F: Fn(&T, &T) -> bool>(&mut self, same_bucket: F)
        requires
            old(self).wf(),
            forall|x: T, y: T| #[trigger] call_requires(same_bucket, (&x, &y)),
        ensures
            final(self).wf(),
            exists|idx: Seq<int>|
                {
                    &&& idx.len() == final(self)@.len()
                    &&& forall|q: int|
                        0 <= q < idx.len() ==> 0 <= #[trigger] idx[q] < old(self)@.len()
                            && final(self)@[q] == old(self)@[idx[q]]
                    &&& forall|q: int| 0 < q < idx.len() ==> idx[q - 1] < #[trigger] idx[q]
                    &&& (old(self)@.len() > 0 ==> idx.len() > 0 && idx[0] == 0)
                    &&& forall|p: int|
                        0 <= p < old(self)@.len() && !idx.contains(p) ==> exists|q: int|
                            0 <= q < idx.len() && #[trigger] idx[q] < p && call_ensures(
                                same_bucket,
                                (&old(self)@[idx[q]], &old(self)@[p]),
                                true,
                            )
                    &&& forall|q: int, q2: int|
                        0 <= q2 < q < idx.len() ==> #[trigger] call_ensures(
                            same_bucket,
                            (&old(self)@[idx[q2]], &old(self)@[idx[q]]),
                            false,
                        )
                },
    {
        let plen = self.len;
        let ghost s = self@;
        let ghost mut idx: Seq<int> = Seq::empty();
        let mut k: usize = 0;
        let mut i: usize = 0;
        while i < plen
            invariant
                plen <= N,
                self.len == plen,
                k <= i <= plen,
                self.storage@.len() == N,
                s.len() == plen,
                idx.len() == k,
                forall|x: T, y: T| #[trigger] call_requires(same_bucket, (&x, &y)),
                forall|t: int| i <= t < plen ==> #[trigger] self.storage@[t] == s[t],
                forall|q: int|
                    0 <= q < k ==> 0 <= #[trigger] idx[q] < i && self.storage@[q] == s[idx[q]],
                forall|q: int| 0 < q < k ==> idx[q - 1] < #[trigger] idx[q],
                i > 0 ==> k > 0 && idx[0] == 0,
                forall|p: int|
                    0 <= p < i && !idx.contains(p) ==> exists|q: int|
                        0 <= q < idx.len() && #[trigger] idx[q] < p && call_ensures(
                            same_bucket,
                            (&s[idx[q]], &s[p]),
                            true,
                        ),
                forall|q: int, q2: int|
                    0 <= q2 < q < k ==> #[trigger] call_ensures(
                        same_bucket,
                        (&s[idx[q2]], &s[idx[q]]),
                        false,
                    ),
            decreases plen - i,
        {
            let x = self.storage[i];
            let ghost acc = self.storage@.take(k as int);
            let mut dup = false;
            let ghost mut hit: int = 0;
            let mut q: usize = 0;
            while q < k && !dup
                invariant
                    q <= k <= plen <= N,
                    self.storage@.len() == N,
                    idx.len() == k,
                    x == s[i as int],
                    i < plen,
                    s.len() == plen,
                    forall|x0: T, y0: T| #[trigger] call_requires(same_bucket, (&x0, &y0)),
                    forall|p: int|
                        0 <= p < k ==> 0 <= #[trigger] idx[p] < i && self.storage@[p]
                            == s[idx[p]],
                    dup ==> 0 <= hit < k && call_ensures(
                        same_bucket,
                        (&s[idx[hit]], &s[i as int]),
                        true,
                    ),
                    !dup ==> forall|p: int|
                        0 <= p < q ==> #[trigger] call_ensures(
                            same_bucket,
                            (&s[idx[p]], &s[i as int]),
                            false,
                        ),
                decreases (if dup {
                    0int
                } else {
                    1int
                }), k - q,
            {
                let kept = self.storage[q];
                if same_bucket(&kept, &x) {
                    proof {
                        hit = q as int;
                    }
                    dup = true;
                } else {
                    q += 1;
                }
            }
            if !dup {
                self.storage[k] = x;
                proof {
                    let idx2 = idx.push(i as int);
                    assert(idx2[k as int] == i as int);
                    assert forall|p: int| 0 <= p < i + 1 && !idx2.contains(p) implies exists|
                        q: int,
                    |
                        0 <= q < idx2.len() && #[trigger] idx2[q] < p && call_ensures(
                            same_bucket,
                            (&s[idx2[q]], &s[p]),
                            true,
                        ) by {
                        assert(p != i as int);
                        assert(!idx.contains(p)) by {
                            if idx.contains(p) {
                                let w = choose|w: int| 0 <= w < idx.len() && idx[w] == p;
                                assert(idx2[w] == p);
                                assert(idx2.contains(p));
                            }
                        }
                        let q = choose|q: int|
                            0 <= q < idx.len() && #[trigger] idx[q] < p && call_ensures(
                                same_bucket,
                                (&s[idx[q]], &s[p]),
                                true,
                            );
                        assert(idx2[q] == idx[q]);
                    }
                    assert forall|q: int, q2: int| 0 <= q2 < q < k + 1 implies #[trigger] call_ensures(
                        same_bucket,
                        (&s[idx2[q2]], &s[idx2[q]]),
                        false,
                    ) by {
                        assert(idx2[q2] == idx[q2]);
                        if q < k {
                            assert(idx2[q] == idx[q]);
                        } else {
                            assert(idx2[q] == i as int);
                            assert(call_ensures(same_bucket, (&s[idx[q2]], &s[i as int]), false));
                        }
                    }
                    idx = idx2;
                }
                k += 1;
            } else {
                proof {
                    assert(!idx.contains(i as int)) by {
                        if idx.contains(i as int) {
                            let w = choose|w: int| 0 <= w < idx.len() && idx[w] == i as int;
                            assert(idx[w] < i as int);
                        }
                    }
                    assert(0 <= hit < idx.len() && idx[hit] < i as int && call_ensures(
                        same_bucket,
                        (&s[idx[hit]], &s[i as int]),
                        true,
                    ));
                }
            }
            i += 1;
        }
        self.len = k;
        proof {
            assert(self@ =~= self.storage@.take(k as int));
        }
    }

    /// Removes every element whose key compares equal to the key of a
    /// retained element standing anywhere before it. Keys are drawn afresh
    /// from the closure for each comparison.
    pub fn dedup_by_key<F: Fn(&T) -> K, K: PartialEq>(&mut self, key: F)
        requires
            old(self).wf(),
            forall|x: T| #[trigger] call_requires(key, (&x,)),
            K::obeys_eq_spec(),
        ensures
            final(self).wf(),
            exists|idx: Seq<int>|
                {
                    &&& idx.len() == final(self)@.len()
                    &&& forall|q: int|
                        0 <= q < idx.len() ==> 0 <= #[trigger] idx[q] < old(self)@.len()
                            && final(self)@[q] == old(self)@[idx[q]]
                    &&& forall|q: int| 0 < q < idx.len() ==> idx[q - 1] < #[trigger] idx[q]
                    &&& (old(self)@.len() > 0 ==> idx.len() > 0 && idx[0] == 0)
                    &&& forall|p: int|
                        0 <= p < old(self)@.len() && !idx.contains(p) ==> exists|q: int|
                            0 <= q < idx.len() && #[trigger] idx[q] < p && keys_collide(
                                key,
                                old(self)@[idx[q]],
                                old(self)@[p],
                            )
                    &&& forall|q: int, q2: int|
                        #![trigger idx[q2], idx[q]]
                        0 <= q2 < q < idx.len() ==> keys_differ(
                            key,
                            old(self)@[idx[q2]],
                            old(self)@[idx[q]],
                        )
                },
    {
        let plen = self.len;
        let ghost s = self@;
        let ghost mut idx: Seq<int> = Seq::empty();
        let mut k: usize = 0;
        let mut i: usize = 0;
        while i < plen
            invariant
                plen <= N,
                self.len == plen,
                k <= i <= plen,
                self.storage@.len() == N,
                s.len() == plen,
                idx.len() == k,
                K::obeys_eq_spec(),
                forall|x: T| #[trigger] call_requires(key, (&x,)),
                forall|t: int| i <= t < plen ==> #[trigger] self.storage@[t] == s[t],
                forall|q: int|
                    0 <= q < k ==> 0 <= #[trigger] idx[q] < i && self.storage@[q] == s[idx[q]],
                forall|q: int| 0 < q < k ==> idx[q - 1] < #[trigger] idx[q],
                i > 0 ==> k > 0 && idx[0] == 0,
                forall|p: int|
                    0 <= p < i && !idx.contains(p) ==> exists|q: int|
                        0 <= q < idx.len() && #[trigger] idx[q] < p && keys_collide(
                            key,
                            s[idx[q]],
                            s[p],
                        ),
                forall|q: int, q2: int|
                    #![trigger idx[q2], idx[q]]
                    0 <= q2 < q < k ==> keys_differ(key, s[idx[q2]], s[idx[q]]),
            decreases plen - i,
        {
            let x = self.storage[i];
            let mut dup = false;
            let ghost mut hit: int = 0;
            let mut q: usize = 0;
            while q < k && !dup
                invariant
                    q <= k <= plen <= N,
                    self.storage@.len() == N,
                    idx.len() == k,
                    x == s[i as int],
                    i < plen,
                    s.len() == plen,
                    K::obeys_eq_spec(),
                    forall|x0: T| #[trigger] call_requires(key, (&x0,)),
                    forall|p: int|
                        0 <= p < k ==> 0 <= #[trigger] idx[p] < i && self.storage@[p]
                            == s[idx[p]],
                    dup ==> 0 <= hit < k && keys_collide(key, s[idx[hit]], s[i as int]),
                    !dup ==> forall|p: int|
                        #![trigger idx[p]]
                        0 <= p < q ==> keys_differ(key, s[idx[p]], s[i as int]),
                decreases (if dup {
                    0int
                } else {
                    1int
                }), k - q,
            {
                let kept = self.storage[q];
                let ka = key(&kept);
                let kb = key(&x);
                if ka == kb {
                    proof {
                        hit = q as int;
                        assert(ka.eq_spec(&kb));
                        assert(keys_collide(key, s[idx[hit]], s[i as int]));
                    }
                    dup = true;
                } else {
                    proof {
                        assert(!ka.eq_spec(&kb));
                        assert(keys_differ(key, s[idx[q as int]], s[i as int]));
                    }
                    q += 1;
                }
            }
            if !dup {
                self.storage[k] = x;
                proof {
                    assert(q == k);
                    let idx2 = idx.push(i as int);
                    assert(idx2[k as int] == i as int);
                    assert forall|p: int| 0 <= p < i + 1 && !idx2.contains(p) implies exists|
                        q3: int,
                    |
                        0 <= q3 < idx2.len() && #[trigger] idx2[q3] < p && keys_collide(
                            key,
                            s[idx2[q3]],
                            s[p],
                        ) by {
                        assert(p != i as int);
                        assert(!idx.contains(p)) by {
                            if idx.contains(p) {
                                let w = choose|w: int| 0 <= w < idx.len() && idx[w] == p;
                                assert(idx2[w] == p);
                                assert(idx2.contains(p));
                            }
                        }
                        let q3 = choose|q3: int|
                            0 <= q3 < idx.len() && #[trigger] idx[q3] < p && keys_collide(
                                key,
                                s[idx[q3]],
                                s[p],
                            );
                        assert(idx2[q3] == idx[q3]);
                    }
                    assert forall|q3: int, q2: int|
                        #![trigger idx2[q2], idx2[q3]]
                        0 <= q2 < q3 < k + 1 implies keys_differ(
                        key,
                        s[idx2[q2]],
                        s[idx2[q3]],
                    ) by {
                        assert(idx2[q2] == idx[q2]);
                        if q3 < k {
                            assert(idx2[q3] == idx[q3]);
                            assert(keys_differ(key, s[idx[q2]], s[idx[q3]]));
                        } else {
                            assert(idx2[q3] == i as int);
                            assert(keys_differ(key, s[idx[q2]], s[i as int]));
                        }
                    }
                    idx = idx2;
                }
                k += 1;
            } else {
                proof {
                    assert(!idx.contains(i as int)) by {
                        if idx.contains(i as int) {
                            let w = choose|w: int| 0 <= w < idx.len() && idx[w] == i as int;
                            assert(idx[w] < i as int);
                        }
                    }
                    assert(0 <= hit < idx.len() && idx[hit] < i as int);
                }
            }
            i += 1;
        }
        self.len = k;
        proof {
            assert(self@ =~= self.storage@.take(k as int));
        }
    }
}

} // verus!
