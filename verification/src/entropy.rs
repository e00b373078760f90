//! Random identities, drawn from the operating system.

use rand::rngs::OsRng;
use rand::RngCore;
use vstd::prelude::*;

use crate::codec::from_be32;
use crate::error::StableJournalError;

verus! {

/// Draws `N` bytes with `rand::rngs::OsRng::try_fill_bytes`. The bytes are the operating system's choice, so
/// nothing is said of them; a failure of the source is reported as such, with its message.
#[verifier::external_body]
pub(crate) fn random_array<const N: usize>() -> (drawn: Result<[u8; N], StableJournalError>)
    ensures
        drawn is Err ==> drawn->Err_0 is Entropy,
{
    let mut value = [0u8; N];
    match OsRng.try_fill_bytes(&mut value) {
        Ok(()) => Ok(value),
        Err(error) => Err(StableJournalError::Entropy(error.to_string())),
    }
}

/// Bytes that were drawn, unless they are the excluded ones.
pub fn accept_array<const N: usize>(drawn: [u8; N], excluded: Option<[u8; N]>) -> (kept: Option<[u8; N]>)
    ensures
        kept == if excluded == Some(drawn) {
            None
        } else {
            Some(drawn)
        },
{
    let repeated = match &excluded {
        Some(other) => crate::bytes::array_equal(other, &drawn),
        None => false,
    };
    if repeated {
        None
    } else {
        Some(drawn)
    }
}

/// The boot tag that drawn bytes stand for, most significant first, unless it is one of the two reserved tags or the
/// excluded one.
pub fn accept_boot_tag(drawn: [u8; 4], excluded: Option<u32>) -> (kept: Option<u32>)
    ensures
        ({
            let tag = from_be32(drawn@);
            kept == if tag == 0 || tag == u32::MAX || excluded == Some(tag) {
                None
            } else {
                Some(tag)
            }
        }),
{
    let tag: u32 = ((drawn[0] as u32) << 24) | ((drawn[1] as u32) << 16) | ((drawn[2] as u32) << 8) | (drawn[3] as u32);
    let repeated = match excluded {
        Some(other) => other == tag,
        None => false,
    };
    if tag == 0 || tag == u32::MAX || repeated {
        None
    } else {
        Some(tag)
    }
}

/// Draws bytes until some are accepted: bytes other than the excluded ones.
pub fn random_array_excluding<const N: usize>(excluded: Option<[u8; N]>) -> (drawn: Result<[u8; N], StableJournalError>)
    ensures
        match drawn {
            Ok(value) => excluded != Some(value),
            Err(e) => e is Entropy,
        },
{
    let mut attempts: u64 = u64::MAX;
    while attempts > 0
        decreases attempts,
    {
        let bytes: [u8; N] = random_array()?;
        if let Some(value) = accept_array(bytes, excluded) {
            return Ok(value);
        }
        attempts -= 1;
    }
    Err(StableJournalError::Entropy(String::new()))
}

/// Draws boot tags until one is accepted: neither of the two reserved tags, nor the excluded one.
pub fn random_boot_tag(excluded: Option<u32>) -> (drawn: Result<u32, StableJournalError>)
    ensures
        match drawn {
            Ok(tag) => tag != 0 && tag != u32::MAX && excluded != Some(tag),
            Err(e) => e is Entropy,
        },
{
    let mut attempts: u64 = u64::MAX;
    while attempts > 0
        decreases attempts,
    {
        let bytes: [u8; 4] = random_array()?;
        if let Some(tag) = accept_boot_tag(bytes, excluded) {
            return Ok(tag);
        }
        attempts -= 1;
    }
    Err(StableJournalError::Entropy(String::new()))
}

} // verus!
