//! Random numbers from the operating system, through the `rand` crate.
use vstd::prelude::*;

verus! {

/// Calls `rand::RngCore::try_fill_bytes(&mut rand::rngs::OsRng, ..)` on `n` zero bytes.
/// On success the `n` bytes come from the system random source and nothing is promised of
/// their values; when the source fails the call reports an error instead of panicking,
/// and `None` comes back.
#[verifier::external_body]
fn os_random_bytes(n: usize) -> (r: Option<Vec<u8>>)
    ensures
        r matches Some(v) ==> v@.len() == n,
{
    let mut b = vec![0u8; n];
    match rand::RngCore::try_fill_bytes(&mut rand::rngs::OsRng, &mut b) {
        Ok(()) => Some(b),
        Err(_) => None,
    }
}

/// A random byte, `None` when the system random source fails.
pub(crate) fn random_u8() -> (r: Option<u8>) {
    match os_random_bytes(1) {
        Some(b) => Some(b[0]),
        None => None,
    }
}

/// A random `u16` (two random bytes, little-endian), `None` when the source fails.
pub(crate) fn random_u16() -> (r: Option<u16>) {
    match os_random_bytes(2) {
        Some(b) => Some((b[0] as u16) | ((b[1] as u16) << 8u16)),
        None => None,
    }
}

/// A random `u32` (four random bytes, little-endian), `None` when the source fails.
pub(crate) fn random_u32() -> (r: Option<u32>) {
    match os_random_bytes(4) {
        Some(b) => Some(
            (b[0] as u32) | ((b[1] as u32) << 8u32) | ((b[2] as u32) << 16u32) | ((b[3] as u32)
                << 24u32),
        ),
        None => None,
    }
}

/// A random `u64` (eight random bytes, little-endian), `None` when the source fails.
pub(crate) fn random_u64() -> (r: Option<u64>) {
    match os_random_bytes(8) {
        Some(b) => {
            let mut v: u64 = 0;
            let mut i: usize = 8;
            while i > 0
                invariant
                    i <= 8,
                    b@.len() == 8,
                decreases i,
            {
                i = i - 1;
                v = (v << 8u64) | (b[i] as u64);
            }
            Some(v)
        },
        None => None,
    }
}

} // verus!
