//! Header protection.

use vstd::prelude::*;

use crate::primitives::{hp_key_is_accepted, hp_mask, hp_new_mask};

verus! {

/// A header protection key for AES-128.
pub struct HeaderProtectionKey {
    key: [u8; 16],
}

impl View for HeaderProtectionKey {
    type V = Seq<u8>;

    closed spec fn view(&self) -> Seq<u8> {
        self.key@
    }
}

#[derive(Debug, Clone, Copy, PartialEq, Eq, Structural)]
pub enum HeaderProtectionError {
    InvalidKey,
    InvalidSample,
}

impl HeaderProtectionError {
    /// A description for people.
    pub fn message(self) -> (text: &'static str)
        ensures
            text@ == (match self {
                HeaderProtectionError::InvalidKey => "invalid header protection key"@,
                HeaderProtectionError::InvalidSample => "invalid header protection sample"@,
            }),
    {
        match self {
            HeaderProtectionError::InvalidKey => "invalid header protection key",
            HeaderProtectionError::InvalidSample => "invalid header protection sample",
        }
    }
}

impl HeaderProtectionKey {
    pub fn aes_128(key: &[u8; 16]) -> (result: Result<HeaderProtectionKey, HeaderProtectionError>)
        ensures
            result matches Ok(made) && made@ == key@,
    {
        if hp_key_is_accepted(key) {
            Ok(HeaderProtectionKey { key: *key })
        } else {
            Err(HeaderProtectionError::InvalidKey)
        }
    }

    /// The mask for a sample of the ciphertext.
    pub fn mask(&self, sample: &[u8]) -> (result: Result<[u8; 5], HeaderProtectionError>)
        ensures
            match result {
                Ok(mask) => hp_mask(self@, sample@) == Some(mask),
                Err(error) => hp_mask(self@, sample@) is None && error
                    == HeaderProtectionError::InvalidSample,
            },
            (result is Ok) == (sample@.len() == 16),
    {
        match hp_new_mask(&self.key, sample) {
            Some(mask) => Ok(mask),
            None => Err(HeaderProtectionError::InvalidSample),
        }
    }
}

} // verus!
