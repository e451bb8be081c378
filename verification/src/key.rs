//! The hashing strategy that the table is parameterized over.
//!
//! Keys are compared by their mathematical view, so a hash function must be a
//! function of that view alone: two keys with equal views always receive the
//! same hash code. Any equality-consistent function will do; it need not be
//! cryptographic.

use vstd::prelude::*;
use vstd::string::StrSliceExecFns;

verus! {

/// Base value of the character hash.
pub const HASH_SEED: u64 = 5381;

/// The character hash is reduced modulo this value at every step, so that it
/// always stays below `2^32` and the next step cannot overflow a `u64`.
pub const HASH_SPACE: u64 = 0x1_0000_0000;

/// A multiplicative string hash over a sequence of characters, folded from the
/// left: `h_0 = HASH_SEED`, `h_{k+1} = (31 * h_k + c_k) mod HASH_SPACE`.
pub open spec fn hash_chars(s: Seq<char>) -> u64
    decreases s.len(),
{
    if s.len() == 0 {
        HASH_SEED
    } else {
        (((hash_chars(s.drop_last()) * 31) + (s.last() as u32 as u64)) % (HASH_SPACE as int)) as u64
    }
}

/// A key type usable by the hash table: it exposes a hash code that depends
/// only on the key's view, and an equality test that decides view equality.
pub trait TableKey: View + Sized {
    /// The hash of a key, as a function of its view alone.
    spec fn hash_of(v: Self::V) -> u64;

    /// Computes the hash of this key.
    fn hash_code(&self) -> (h: u64)
        ensures
            h == Self::hash_of(self@),
    ;

    /// Decides whether this key and `other` have equal views.
    fn key_eq(&self, other: &Self) -> (b: bool)
        ensures
            b == (self@ == other@),
    ;
}

impl TableKey for String {
    open spec fn hash_of(v: Seq<char>) -> u64 {
        hash_chars(v)
    }

    fn hash_code(&self) -> (h: u64) {
        let s: &str = self.as_str();
        let n: usize = s.unicode_len();
        let mut h: u64 = HASH_SEED;
        let mut i: usize = 0;
        while i < n
            invariant
                s@ == self@,
                n == s@.len(),
                i <= n,
                h == hash_chars(s@.take(i as int)),
                h < HASH_SPACE,
            decreases n - i,
        {
            let c: char = s.get_char(i);
            h = (h * 31 + (c as u32 as u64)) % HASH_SPACE;
            proof {
                assert(s@.take(i + 1).drop_last() =~= s@.take(i as int));
                assert(s@.take(i + 1).last() == s@[i as int]);
            }
            i = i + 1;
        }
        proof {
            assert(s@.take(n as int) =~= s@);
        }
        h
    }

    fn key_eq(&self, other: &Self) -> (b: bool) {
        self.eq(other)
    }
}

impl TableKey for u64 {
    open spec fn hash_of(v: u64) -> u64 {
        v
    }

    fn hash_code(&self) -> (h: u64) {
        *self
    }

    fn key_eq(&self, other: &Self) -> (b: bool) {
        *self == *other
    }
}

} // verus!
