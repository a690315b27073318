//! The keys that the map can hold.

use vstd::prelude::*;
use vstd::utf8::encode_utf8;

verus! {

/// A key that the map can hold. A key is identified by its bytes: the map
/// hashes them, and two keys are the same key when their bytes are equal.
pub trait ProbeKey {
    /// The bytes that identify the key.
    spec fn key_view(&self) -> Seq<u8>;

    /// The bytes that identify the key.
    fn key_bytes(&self) -> (r: &[u8])
        ensures
            r@ == self.key_view(),
    ;
}

/// A string is identified by its UTF-8 encoding.
impl ProbeKey for str {
    open spec fn key_view(&self) -> Seq<u8> {
        encode_utf8(self@)
    }

    fn key_bytes(&self) -> (r: &[u8]) {
        self.as_bytes()
    }
}

/// A string is identified by its UTF-8 encoding.
impl ProbeKey for String {
    open spec fn key_view(&self) -> Seq<u8> {
        encode_utf8(self@)
    }

    fn key_bytes(&self) -> (r: &[u8]) {
        self.as_str().as_bytes()
    }
}

/// A byte string is identified by its bytes.
impl ProbeKey for [u8] {
    open spec fn key_view(&self) -> Seq<u8> {
        self@
    }

    fn key_bytes(&self) -> (r: &[u8]) {
        self
    }
}

/// A byte string is identified by its bytes.
impl ProbeKey for Vec<u8> {
    open spec fn key_view(&self) -> Seq<u8> {
        self@
    }

    fn key_bytes(&self) -> (r: &[u8]) {
        self.as_slice()
    }
}

} // verus!
