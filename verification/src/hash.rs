//! Hash algorithms and the file identities built from them.

use crate::hex::hex_encode;
use crate::hex::hex_lower;
use crate::hex::is_hex_digit;
use crate::hex::lemma_hex_lower_injective;
use crate::text::lemma_utf8_injective;
use crate::text::same_text;
use vstd::bytes::lemma_auto_spec_u64_to_from_le_bytes;
use vstd::bytes::spec_u64_to_le_bytes;
use vstd::bytes::u64_to_le_bytes;
use vstd::prelude::*;
use vstd::utf8::encode_utf8;

verus! {

/// The digest used for file identities and for the archive's integrity hash.
#[derive(Clone, Copy, Debug, PartialEq, Eq, Structural)]
pub enum HashAlgorithm {
    /// The 128-bit MD5 digest.
    Md5,
    /// The 64-bit XXH64 digest with seed zero.
    XxHash64,
}

/// The MD5 digest of `data`, as computed by the `md5` crate.
pub uninterp spec fn md5_digest(data: Seq<u8>) -> Seq<u8>;

/// The XXH64 hash of `data` under `seed`, as computed by the `twox_hash` crate.
pub uninterp spec fn xxh64(seed: u64, data: Seq<u8>) -> u64;

/// The lowercase of `text`, as `str::to_lowercase` defines it.
pub uninterp spec fn lowercase(text: Seq<char>) -> Seq<char>;

/// Calls `md5::compute` and hands back the sixteen bytes of its digest.
/// Trusted: the result is the MD5 digest of `data`, a function of `data` alone.
#[verifier::external_body]
fn md5_compute(data: &[u8]) -> (r: [u8; 16])
    ensures
        r@ == md5_digest(data@),
{
    md5::compute(data).0
}

/// Calls `twox_hash::XxHash64::oneshot`.
/// Trusted: the result is the XXH64 hash of `data` under `seed`, a function of
/// the two alone.
#[verifier::external_body]
fn xxh64_oneshot(seed: u64, data: &[u8]) -> (r: u64)
    ensures
        r == xxh64(seed, data@),
{
    twox_hash::XxHash64::oneshot(seed, data)
}

/// Calls `str::to_lowercase`.
/// Trusted: the result is the Unicode lowercase of `s`, a function of `s` alone.
#[verifier::external_body]
fn to_lowercase(s: &str) -> (r: String)
    ensures
        r@ == lowercase(s@),
{
    s.to_lowercase()
}

/// The eight bytes of `value`, the most significant first.
pub open spec fn be_bytes(value: u64) -> Seq<u8> {
    spec_u64_to_le_bytes(value).reverse()
}

/// The digest of `data` under `algorithm`, as the bytes that its hexadecimal
/// text shows from left to right.
pub open spec fn raw_digest(algorithm: HashAlgorithm, data: Seq<u8>) -> Seq<u8> {
    match algorithm {
        HashAlgorithm::Md5 => md5_digest(data),
        HashAlgorithm::XxHash64 => be_bytes(xxh64(0, data)),
    }
}

/// The digest of `data` under `algorithm`, as lowercase hexadecimal text.
pub open spec fn digest_hex(algorithm: HashAlgorithm, data: Seq<u8>) -> Seq<char> {
    hex_lower(raw_digest(algorithm, data))
}

/// The bytes that are digested to identify a file: what stands for the
/// content's own digest, followed by the UTF-8 bytes of the relative path.
pub open spec fn identity_input(
    algorithm: HashAlgorithm,
    content: Seq<u8>,
    inner_path: Seq<char>,
) -> Seq<u8> {
    match algorithm {
        HashAlgorithm::Md5 => encode_utf8(hex_lower(md5_digest(content)) + inner_path),
        HashAlgorithm::XxHash64 => spec_u64_to_le_bytes(xxh64(0, content)) + encode_utf8(
            inner_path,
        ),
    }
}

/// The identity of a file: the digest of its content's digest joined with its
/// relative path, as lowercase hexadecimal text.
pub open spec fn file_identity(
    algorithm: HashAlgorithm,
    content: Seq<u8>,
    inner_path: Seq<char>,
) -> Seq<char> {
    digest_hex(algorithm, identity_input(algorithm, content, inner_path))
}

impl HashAlgorithm {
    /// The canonical name of the algorithm, as a sequence of characters.
    pub open spec fn spec_name(self) -> Seq<char> {
        match self {
            HashAlgorithm::Md5 => "md5"@,
            HashAlgorithm::XxHash64 => "xxhash64"@,
        }
    }

    /// The number of hexadecimal digits in a digest of this algorithm.
    pub open spec fn hex_len(self) -> nat {
        match self {
            HashAlgorithm::Md5 => 32,
            HashAlgorithm::XxHash64 => 16,
        }
    }

    /// The algorithm that a lowercase name selects, if any.
    pub open spec fn named(name: Seq<char>) -> Option<HashAlgorithm> {
        if name == "md5"@ {
            Some(HashAlgorithm::Md5)
        } else if name == "xxhash"@ || name == "xxhash64"@ {
            Some(HashAlgorithm::XxHash64)
        } else {
            None
        }
    }

    /// Selects an algorithm by its lowercase name: `md5`, `xxhash` or `xxhash64`.
    pub fn from_name(name: &str) -> (r: Option<HashAlgorithm>)
        ensures
            r == Self::named(name@),
    {
        if same_text(name, "md5") {
            Some(HashAlgorithm::Md5)
        } else if same_text(name, "xxhash") || same_text(name, "xxhash64") {
            Some(HashAlgorithm::XxHash64)
        } else {
            None
        }
    }

    /// Selects an algorithm by name, whatever the case of its letters.
    pub fn from_str(s: &str) -> (r: Option<HashAlgorithm>)
        ensures
            r == Self::named(lowercase(s@)),
    {
        let lowered = to_lowercase(s);
        Self::from_name(lowered.as_str())
    }

    /// The canonical name of the algorithm, as it appears in the manifest.
    pub fn name(&self) -> (r: &'static str)
        ensures
            r@ == self.spec_name(),
    {
        match self {
            HashAlgorithm::Md5 => "md5",
            HashAlgorithm::XxHash64 => "xxhash64",
        }
    }
}

/// The eight bytes of `value`, the most significant first.
pub fn u64_be_bytes(value: u64) -> (r: Vec<u8>)
    ensures
        r@ == be_bytes(value),
{
    proof {
        lemma_auto_spec_u64_to_from_le_bytes();
    }
    let le = u64_to_le_bytes(value);
    let mut be: Vec<u8> = Vec::new();
    let mut i: usize = 8;
    while i > 0
        invariant
            i <= 8,
            le@.len() == 8,
            be@.len() == 8 - i,
            forall|j: int| 0 <= j < be@.len() ==> be@[j] == le@[7 - j],
        decreases i,
    {
        i = i - 1;
        be.push(le[i]);
    }
    be
}

/// Writes a 64-bit hash as sixteen lowercase hexadecimal digits.
pub fn u64_hex(value: u64) -> (r: String)
    ensures
        r@ == hex_lower(be_bytes(value)),
        r@.len() == 16,
        forall|i: int| 0 <= i < r@.len() ==> is_hex_digit(#[trigger] r@[i]),
{
    proof {
        lemma_auto_spec_u64_to_from_le_bytes();
    }
    let bytes = u64_be_bytes(value);
    hex_encode(bytes.as_slice())
}

/// The bytes that identify a file under XXH64: the content's hash, least
/// significant byte first, followed by the bytes of the relative path.
pub fn xxh64_identity_input(content_hash: u64, inner_path: &str) -> (r: Vec<u8>)
    ensures
        r@ == spec_u64_to_le_bytes(content_hash) + encode_utf8(inner_path@),
{
    let mut input = u64_to_le_bytes(content_hash);
    let ghost head = input@;
    let tail = inner_path.as_bytes();
    let mut i: usize = 0;
    while i < tail.len()
        invariant
            i <= tail.len(),
            input@ == head + tail@.take(i as int),
        decreases tail.len() - i,
    {
        input.push(tail[i]);
        i = i + 1;
    }
    input
}

/// The bytes that identify a file under MD5: the hexadecimal text of the
/// content's digest followed by the relative path, in UTF-8.
pub fn md5_identity_input(content_digest: &[u8], inner_path: &str) -> (r: Vec<u8>)
    ensures
        r@ == encode_utf8(hex_lower(content_digest@) + inner_path@),
{
    let combined = hex_encode(content_digest).concat(inner_path);
    combined.as_str().as_bytes_vec()
}

/// Computes the integrity hash of a buffer: its digest as lowercase
/// hexadecimal text, thirty-two characters for MD5 and sixteen for XXH64.
pub fn compute_buffer_hash(buffer: &[u8], algorithm: HashAlgorithm) -> (r: String)
    ensures
        r@ == digest_hex(algorithm, buffer@),
        r@.len() == algorithm.hex_len(),
        forall|i: int| 0 <= i < r@.len() ==> is_hex_digit(#[trigger] r@[i]),
{
    match algorithm {
        HashAlgorithm::Md5 => {
            let digest = md5_compute(buffer);
            hex_encode(digest.as_slice())
        },
        HashAlgorithm::XxHash64 => { u64_hex(xxh64_oneshot(0, buffer)) },
    }
}

/// Computes the identity of a file from its content and its path relative to
/// the root of its tree.
pub fn compute_file_hash(content: &[u8], inner_path: &String, algorithm: HashAlgorithm) -> (r:
    String)
    ensures
        r@ == file_identity(algorithm, content@, inner_path@),
        r@.len() == algorithm.hex_len(),
        forall|i: int| 0 <= i < r@.len() ==> is_hex_digit(#[trigger] r@[i]),
{
    match algorithm {
        HashAlgorithm::Md5 => {
            let digest = md5_compute(content);
            let input = md5_identity_input(digest.as_slice(), inner_path.as_str());
            compute_buffer_hash(input.as_slice(), algorithm)
        },
        HashAlgorithm::XxHash64 => {
            let content_hash = xxh64_oneshot(0, content);
            let input = xxh64_identity_input(content_hash, inner_path.as_str());
            compute_buffer_hash(input.as_slice(), algorithm)
        },
    }
}

/// Whether the digest of `algorithm` tells the inputs `a` and `b` apart.
/// No digest of fixed width does so for every pair of inputs.
pub open spec fn collision_free(algorithm: HashAlgorithm, a: Seq<u8>, b: Seq<u8>) -> bool {
    a != b ==> raw_digest(algorithm, a) != raw_digest(algorithm, b)
}

/// Different paths give different inputs to the identity digest, whatever
/// the content.
pub proof fn lemma_identity_input_follows_path(
    algorithm: HashAlgorithm,
    content: Seq<u8>,
    path_a: Seq<char>,
    path_b: Seq<char>,
)
    requires
        path_a != path_b,
    ensures
        identity_input(algorithm, content, path_a) != identity_input(algorithm, content, path_b),
{
    let input_a = identity_input(algorithm, content, path_a);
    let input_b = identity_input(algorithm, content, path_b);
    if input_a == input_b {
        match algorithm {
            HashAlgorithm::Md5 => {
                let head = hex_lower(md5_digest(content));
                lemma_utf8_injective(head + path_a, head + path_b);
                assert((head + path_a).skip(head.len() as int) =~= path_a);
                assert((head + path_b).skip(head.len() as int) =~= path_b);
            },
            HashAlgorithm::XxHash64 => {
                let head = spec_u64_to_le_bytes(xxh64(0, content));
                let tail_a = encode_utf8(path_a);
                let tail_b = encode_utf8(path_b);
                assert((head + tail_a).skip(head.len() as int) =~= tail_a);
                assert((head + tail_b).skip(head.len() as int) =~= tail_b);
                lemma_utf8_injective(path_a, path_b);
            },
        }
    }
}

/// Moving a file to another relative path changes its identity, as long as
/// the digest tells the two inputs apart.
pub proof fn lemma_identity_follows_path(
    algorithm: HashAlgorithm,
    content: Seq<u8>,
    path_a: Seq<char>,
    path_b: Seq<char>,
)
    requires
        path_a != path_b,
        collision_free(
            algorithm,
            identity_input(algorithm, content, path_a),
            identity_input(algorithm, content, path_b),
        ),
    ensures
        file_identity(algorithm, content, path_a) != file_identity(algorithm, content, path_b),
{
    let input_a = identity_input(algorithm, content, path_a);
    let input_b = identity_input(algorithm, content, path_b);
    lemma_identity_input_follows_path(algorithm, content, path_a, path_b);
    if digest_hex(algorithm, input_a) == digest_hex(algorithm, input_b) {
        lemma_hex_lower_injective(raw_digest(algorithm, input_a), raw_digest(algorithm, input_b));
    }
}

/// Changing the content of a file without moving it changes its identity, as
/// long as the digest tells the two contents apart, and the two inputs made
/// from them.
pub proof fn lemma_identity_follows_content(
    algorithm: HashAlgorithm,
    content_a: Seq<u8>,
    content_b: Seq<u8>,
    inner_path: Seq<char>,
)
    requires
        content_a != content_b,
        collision_free(algorithm, content_a, content_b),
        collision_free(
            algorithm,
            identity_input(algorithm, content_a, inner_path),
            identity_input(algorithm, content_b, inner_path),
        ),
    ensures
        file_identity(algorithm, content_a, inner_path) != file_identity(
            algorithm,
            content_b,
            inner_path,
        ),
{
    let input_a = identity_input(algorithm, content_a, inner_path);
    let input_b = identity_input(algorithm, content_b, inner_path);
    if input_a == input_b {
        match algorithm {
            HashAlgorithm::Md5 => {
                let head_a = hex_lower(md5_digest(content_a));
                let head_b = hex_lower(md5_digest(content_b));
                lemma_utf8_injective(head_a + inner_path, head_b + inner_path);
                assert((head_a + inner_path).take(head_a.len() as int) =~= head_a);
                assert((head_b + inner_path).take(head_b.len() as int) =~= head_b);
                lemma_hex_lower_injective(md5_digest(content_a), md5_digest(content_b));
            },
            HashAlgorithm::XxHash64 => {
                lemma_auto_spec_u64_to_from_le_bytes();
                let head_a = spec_u64_to_le_bytes(xxh64(0, content_a));
                let head_b = spec_u64_to_le_bytes(xxh64(0, content_b));
                let tail = encode_utf8(inner_path);
                assert((head_a + tail).take(8) =~= head_a);
                assert((head_b + tail).take(8) =~= head_b);
            },
        }
    }
    if digest_hex(algorithm, input_a) == digest_hex(algorithm, input_b) {
        lemma_hex_lower_injective(raw_digest(algorithm, input_a), raw_digest(algorithm, input_b));
    }
}

} // verus!
