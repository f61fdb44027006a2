//! Fixed-capacity, stack-allocated text and sequence containers.
//!
//! The crate offers two container families backed by a fixed-size array chosen
//! at compile time: [`String`], a capacity-bounded byte buffer whose occupied
//! prefix is always a well-formed UTF-8 encoding, and [`Vec`], a
//! capacity-bounded sequence of a copyable element type. Neither ever
//! allocates: every mutation is an in-place shift over the fixed array, and an
//! operation that would grow a container past its capacity is rejected with a
//! typed error instead of aborting.
//!
//! Every public operation carries a contract. The central invariants are that
//! the occupied length never exceeds the capacity, and that a [`String`]'s
//! occupied bytes always decode as valid UTF-8.

use vstd::prelude::*;

mod encoding;
mod laws;
mod methods;
mod search;
mod vec;

pub use encoding::ascii_lower;
pub use encoding::ascii_upper;
pub use encoding::char_utf8;
pub use laws::lemma_encode_utf8_injective;
pub use laws::lemma_insert_then_remove_restores;
pub use laws::lemma_round_trip;
pub use laws::lemma_string_eq_is_content_eq;
pub use laws::lemma_vec_eq_is_content_eq;
pub use methods::boundary_floor;
pub use methods::kept_text;
pub use methods::repeated;
pub use search::matches_at;
pub use search::replaced;
pub use search::replaced_up_to;
pub use vec::dedup_keep_step;
pub use vec::keys_collide;
pub use vec::keys_differ;
pub use vec::deduped;
pub use vec::deduped_from;
pub use vec::kept_values;
pub use vec::Vec;

verus! {

/// Capacity, in bytes or elements, that callers may use when no particular
/// bound is called for.
pub const DEFAULT_BUFFER_SIZE: usize = 4096;

/// Why a container operation was rejected. A rejected operation leaves the
/// container exactly as it was before the call.
#[derive(Clone, Copy, Debug, PartialEq, Eq, Structural)]
pub enum ContainerError {
    /// The operation would need more storage than the fixed capacity provides.
    CapacityExceeded,
    /// A byte or element index or range lies outside the occupied prefix or,
    /// for text, does not fall on a UTF-8 codepoint boundary.
    IndexOutOfBounds,
    /// Raw bytes handed to a constructing operation are not valid UTF-8.
    InvalidEncoding,
}

/// A capacity-`N` byte buffer whose first `len` bytes always hold a
/// well-formed UTF-8 encoding of its logical text. Bytes at `[len..N]` carry
/// no meaning and are never observable through the public interface.
#[derive(Clone, Copy)]
pub struct String<const N: usize> {
    storage: [u8; N],
    len: usize,
}

impl<const N: usize> View for String<N> {
    type V = Seq<u8>;

    /// The occupied bytes: the UTF-8 encoding of the logical text.
    open(crate) spec fn view(&self) -> Seq<u8> {
        self.storage@.take(self.len as int)
    }
}

impl<const N: usize> String<N> {
    /// Well-formedness: the occupied length fits the capacity and the
    /// occupied bytes decode as UTF-8. Every constructor establishes this
    /// and every method preserves it.
    pub open(crate) spec fn wf(&self) -> bool {
        &&& self.len <= N
        &&& vstd::utf8::valid_utf8(self@)
    }

    /// The logical text as a sequence of characters.
    pub open spec fn text(&self) -> Seq<char> {
        vstd::utf8::decode_utf8(self@)
    }
}

impl<const N: usize> PartialEq for String<N> {
    /// Prefix equality: only the occupied bytes take part in the
    /// comparison, never the unused tail.
    fn eq(&self, other: &Self) -> (r: bool) {
        if self.len != other.len {
            return false;
        }
        let m = if self.len < N {
            self.len
        } else {
            N
        };
        let mut j: usize = 0;
        while j < m
            invariant
                m <= N,
                j <= m,
                self.len == other.len,
                m == if self.len < N {
                    self.len as int
                } else {
                    N as int
                },
                forall|t: int| 0 <= t < j ==> #[trigger] self.storage@[t] == other.storage@[t],
            decreases m - j,
        {
            if self.storage[j] != other.storage[j] {
                return false;
            }
            j += 1;
        }
        true
    }
}

impl<const N: usize> vstd::std_specs::cmp::PartialEqSpecImpl for String<N> {
    open spec fn obeys_eq_spec() -> bool {
        true
    }

    open(crate) spec fn eq_spec(&self, other: &Self) -> bool {
        &&& self.len == other.len
        &&& forall|t: int|
            0 <= t < (if self.len < N {
                self.len as int
            } else {
                N as int
            }) ==> #[trigger] self.storage@[t] == other.storage@[t]
    }
}

impl<const N: usize> Eq for String<N> {

}

impl<const N: usize> Default for String<N> {
    /// The empty text buffer.
    fn default() -> (r: Self)
        ensures
            r.wf(),
            r@ == Seq::<u8>::empty(),
    {
        Self::new()
    }
}

} // verus!
