//! Content hashes and the keys made of them.

use vstd::prelude::*;
use vstd::utf8::encode_utf8;
use crate::text::same_text;

verus! {

/// The BLAKE3 hash of `data`, in lower-case hexadecimal.
pub uninterp spec fn blake3_hex(data: Seq<u8>) -> Seq<char>;

/// `blake3::hash` of `data`, written with `Hash::to_hex`. Nothing is claimed of the digits but
/// that they are a function of the bytes.
#[verifier::external_body]
fn hash_hex(data: &[u8]) -> (hex: String)
    ensures
        hex@ == blake3_hex(data@),
{
    blake3::hash(data).to_hex().to_string()
}

/// The hash of some content; its view is the hexadecimal text.
#[derive(Debug, PartialEq, Eq, Hash)]
pub struct ContentHash {
    hex: String,
}

impl View for ContentHash {
    type V = Seq<char>;

    closed spec fn view(&self) -> Seq<char> {
        self.hex@
    }
}

impl Clone for ContentHash {
    fn clone(&self) -> (copy: ContentHash)
        ensures
            copy@ == self@,
    {
        ContentHash { hex: self.hex.clone() }
    }
}

impl ContentHash {
    /// The hexadecimal text.
    pub fn to_hex(&self) -> (hex: &str)
        ensures
            hex@ == self@,
    {
        self.hex.as_str()
    }

    /// Whether two hashes are the same.
    pub fn same(&self, other: &ContentHash) -> (yes: bool)
        ensures
            yes == (self@ == other@),
    {
        same_text(self.hex.as_str(), other.hex.as_str())
    }
}

/// The hash of `data`.
pub fn hash_bytes(data: &[u8]) -> (hash: ContentHash)
    ensures
        hash@ == blake3_hex(data@),
{
    ContentHash { hex: hash_hex(data) }
}

/// The text of an optional hash.
pub open spec fn opt_hash_view(hash: Option<ContentHash>) -> Option<Seq<char>> {
    match hash {
        Some(h) => Some(h@),
        None => None,
    }
}

/// Names a compilation: the same compiler request gives the same key.
#[derive(Debug, PartialEq, Eq, Hash)]
pub struct ContextKey {
    hash: ContentHash,
}

impl View for ContextKey {
    type V = Seq<char>;

    closed spec fn view(&self) -> Seq<char> {
        self.hash@
    }
}

impl Clone for ContextKey {
    fn clone(&self) -> (copy: ContextKey)
        ensures
            copy@ == self@,
    {
        ContextKey { hash: self.hash.clone() }
    }
}

impl ContextKey {
    /// The key with this hash.
    pub fn new(hash: ContentHash) -> (key: ContextKey)
        ensures
            key@ == hash@,
    {
        ContextKey { hash }
    }

    /// The key's hash.
    pub fn hash(&self) -> (hash: &ContentHash)
        ensures
            hash@ == self@,
    {
        &self.hash
    }
}

/// Names what a compilation produced from given file contents.
#[derive(Debug, PartialEq, Eq, Hash)]
pub struct ArtifactKey {
    hash: ContentHash,
}

impl View for ArtifactKey {
    type V = Seq<char>;

    closed spec fn view(&self) -> Seq<char> {
        self.hash@
    }
}

impl Clone for ArtifactKey {
    fn clone(&self) -> (copy: ArtifactKey)
        ensures
            copy@ == self@,
    {
        ArtifactKey { hash: self.hash.clone() }
    }
}

impl ArtifactKey {
    /// The key with this hash.
    pub fn new(hash: ContentHash) -> (key: ArtifactKey)
        ensures
            key@ == hash@,
    {
        ArtifactKey { hash }
    }

    /// The key's hash.
    pub fn hash(&self) -> (hash: &ContentHash)
        ensures
            hash@ == self@,
    {
        &self.hash
    }
}

/// The text of an optional artifact key.
pub open spec fn opt_artifact_view(key: Option<ArtifactKey>) -> Option<Seq<char>> {
    match key {
        Some(k) => Some(k@),
        None => None,
    }
}

// ── What is hashed ──────────────────────────────────────────────────────

/// The bytes of `text` and a closing zero byte.
pub open spec fn field(text: Seq<char>) -> Seq<u8> {
    encode_utf8(text) + seq![0u8]
}

/// The fields of `list`, one after the other.
pub open spec fn fields(list: Seq<Seq<char>>) -> Seq<u8>
    decreases list.len(),
{
    if list.len() == 0 {
        Seq::empty()
    } else {
        fields(list.drop_last()) + field(list.last())
    }
}

/// Appends the bytes of `text`.
pub fn put_text(out: &mut Vec<u8>, text: &str)
    ensures
        final(out)@ == old(out)@ + encode_utf8(text@),
{
    out.extend_from_slice(text.as_bytes());
}

/// Appends a field.
pub fn put_field(out: &mut Vec<u8>, text: &str)
    ensures
        final(out)@ == old(out)@ + field(text@),
{
    put_text(out, text);
    out.push(0);
    assert(out@ =~= old(out)@ + field(text@));
}

} // verus!
