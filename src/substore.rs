use vstd::prelude::*;
use vstd::utf8::encode_utf8;

verus! {

/// Describes one substore: a logical namespace selected by a key prefix,
/// with its own versioned Merkle tree.
pub struct SubstoreConfig {
    /// The key prefix that selects this substore (empty for the main store).
    pub prefix: String,
}

impl SubstoreConfig {
    /// The prefix as the bytes of its UTF-8 encoding.
    pub open spec fn prefix_bytes(&self) -> Seq<u8> {
        encode_utf8(self.prefix@)
    }

    pub fn new(prefix: &str) -> (r: SubstoreConfig)
        ensures
            r.prefix@ == prefix@,
    {
        SubstoreConfig { prefix: prefix.to_owned() }
    }
}

} // verus!
