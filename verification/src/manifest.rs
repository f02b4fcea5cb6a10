//! The manifest that describes a finished archive.

use crate::hash::compute_buffer_hash;
use crate::hash::digest_hex;
use crate::hash::HashAlgorithm;
use crate::hex::digit_text;
use crate::hex::hex_digit;
use crate::hex::is_hex_digit;
use vstd::prelude::*;

verus! {

/// The integrity hash of an archive, the algorithm that gave it, and the
/// size of the archive in bytes.
#[derive(Debug, PartialEq, Eq)]
pub struct Manifest {
    hash: String,
    hash_algorithm: HashAlgorithm,
    size: u64,
}

/// The mathematical value of a [`Manifest`].
pub struct ManifestView {
    pub hash: Seq<char>,
    pub hash_algorithm: HashAlgorithm,
    pub size: u64,
}

impl View for Manifest {
    type V = ManifestView;

    closed spec fn view(&self) -> ManifestView {
        ManifestView { hash: self.hash@, hash_algorithm: self.hash_algorithm, size: self.size }
    }
}

/// The manifest of an archive with the given bytes: the digest of all of
/// them, with no path mixed in, and their number.
pub open spec fn manifest_of(archive: Seq<u8>, algorithm: HashAlgorithm) -> ManifestView {
    ManifestView {
        hash: digest_hex(algorithm, archive),
        hash_algorithm: algorithm,
        size: archive.len() as u64,
    }
}

/// The decimal digits of `n`, without sign or leading zero. A value below
/// ten has the same digit in decimal and in hexadecimal text.
pub open spec fn decimal(n: nat) -> Seq<char>
    decreases n,
{
    if n < 10 {
        seq![hex_digit(n as int)]
    } else {
        decimal(n / 10).push(hex_digit((n % 10) as int))
    }
}

/// The text of a manifest: one JSON object with the three fields in the
/// order of their names.
pub open spec fn manifest_json(manifest: ManifestView) -> Seq<char> {
    "{\"hash\":\""@ + manifest.hash + "\",\"hash_algorithm\":\""@
        + manifest.hash_algorithm.spec_name() + "\",\"size\":"@ + decimal(manifest.size as nat)
        + "}"@
}

/// Appends the decimal digits of `n` to `text`.
fn append_decimal(text: &mut String, n: u64)
    ensures
        final(text)@ == old(text)@ + decimal(n as nat),
    decreases n,
{
    if n >= 10 {
        append_decimal(text, n / 10);
    }
    text.append(digit_text((n % 10) as u8));
}

/// Describes a finished archive: its integrity hash under `algorithm` and
/// its size.
pub fn create_info_file(archive: &[u8], algorithm: HashAlgorithm) -> (r: Manifest)
    ensures
        r@ == manifest_of(archive@, algorithm),
        r@.size == archive@.len(),
        r@.hash.len() == algorithm.hex_len(),
        forall|i: int| 0 <= i < r@.hash.len() ==> is_hex_digit(#[trigger] r@.hash[i]),
{
    let hash_value = compute_buffer_hash(archive, algorithm);
    Manifest { hash: hash_value, hash_algorithm: algorithm, size: archive.len() as u64 }
}

impl Manifest {
    /// The integrity hash, in lowercase hexadecimal digits.
    pub fn hash(&self) -> (r: &str)
        ensures
            r@ == self@.hash,
    {
        self.hash.as_str()
    }

    /// The algorithm that gave the integrity hash.
    pub fn hash_algorithm(&self) -> (r: HashAlgorithm)
        ensures
            r == self@.hash_algorithm,
    {
        self.hash_algorithm
    }

    /// The size of the archive in bytes.
    pub fn size(&self) -> (r: u64)
        ensures
            r == self@.size,
    {
        self.size
    }

    /// Writes the manifest as JSON text.
    pub fn to_json(&self) -> (r: String)
        ensures
            r@ == manifest_json(self@),
    {
        let mut text = String::new();
        text.append("{\"hash\":\"");
        text.append(self.hash.as_str());
        text.append("\",\"hash_algorithm\":\"");
        text.append(self.hash_algorithm.name());
        text.append("\",\"size\":");
        append_decimal(&mut text, self.size);
        text.append("}");
        text
    }
}

} // verus!
