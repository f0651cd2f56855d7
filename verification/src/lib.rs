//! A persistent, embedded key/value store in the Bitcask style: an
//! append-only log of CRC-protected records plus an in-memory index (the
//! "keydir") that maps each live key to the location of its current value.
//!
//! The store itself operates on in-memory segment images; reading the log
//! directory and mirroring appends to disk are left to the surrounding
//! application.

use vstd::prelude::*;

pub mod bitcask;
pub mod checksum;
pub mod command;
pub mod config;
pub mod endian;
pub mod files;
pub mod keydir;
pub mod logwriter;
pub mod protocol;
pub mod read;
pub mod record;
pub mod replay;
pub mod write_file;

pub use bitcask::BitCask;
pub use config::{get_store_config, StoreConfig};

verus! {

/// The fixed three-byte sentinel value that marks a key as deleted.
pub open spec fn spec_tombstone() -> Seq<u8> {
    seq![0xe2u8, 0x98u8, 0x97u8]
}

/// The tombstone sentinel as a byte vector.
pub fn tombstone() -> (r: Vec<u8>)
    ensures
        r@ == spec_tombstone(),
{
    let mut v: Vec<u8> = Vec::new();
    v.push(0xe2);
    v.push(0x98);
    v.push(0x97);
    assert(v@ =~= spec_tombstone());
    v
}

/// Whether `bytes` is exactly the tombstone sentinel.
pub fn is_tombstone(bytes: &[u8]) -> (r: bool)
    ensures
        r == (bytes@ == spec_tombstone()),
{
    if bytes.len() != 3 {
        proof {
            assert(bytes@ != spec_tombstone());
        }
        return false;
    }
    let r = *slice_index_get(bytes, 0) == 0xe2 && *slice_index_get(bytes, 1) == 0x98
        && *slice_index_get(bytes, 2) == 0x97;
    proof {
        if r {
            assert(bytes@ =~= spec_tombstone());
        } else {
            assert(bytes@ != spec_tombstone());
        }
    }
    r
}

/// A character the alphanumeric sampler can produce: an ASCII letter or
/// digit.
pub open spec fn is_alnum_char(c: char) -> bool {
    (97 <= c as u32 && c as u32 <= 122) || (65 <= c as u32 && c as u32 <= 90) || (48 <= c as u32
        && c as u32 <= 57)
}

/// Relies on rand's `Alphanumeric` distribution: `sample_string` returns a
/// string of exactly `n` characters drawn from `[A-Za-z0-9]`.
#[verifier::external_body]
pub fn random_string(n: usize) -> (r: String)
    ensures
        r@.len() == n,
        forall|i: int| 0 <= i < r@.len() ==> is_alnum_char(#[trigger] r@[i]),
{
    rand::distr::SampleString::sample_string(&rand::distr::Alphanumeric, &mut rand::rng(), n)
}

} // verus!

use vstd::slice::slice_index_get;
