//! The digest adapter: a uniform interface over the five supported hash
//! algorithms, with digests rendered as lowercase hexadecimal.

use vstd::prelude::*;
use vstd::string::*;

use crate::cancel::CancelFlag;
use crate::strutil::str_eq;

verus! {

/// One of the five supported digest algorithms.
#[derive(Clone, Copy, PartialEq, Eq, Structural, Debug)]
pub enum HashType {
    Md5,
    Sha256,
    Sha1,
    Tiger,
    Whirlpool,
}

/// The lowercase token that names an algorithm in the manifest header.
pub open spec fn token_of(h: HashType) -> Seq<char> {
    match h {
        HashType::Md5 => "md5"@,
        HashType::Sha256 => "sha256"@,
        HashType::Sha1 => "sha1"@,
        HashType::Tiger => "tiger"@,
        HashType::Whirlpool => "whirlpool"@,
    }
}

/// Which algorithm a (lowercased) token names, if any.
pub open spec fn parse_token(low: Seq<char>) -> Option<HashType> {
    if low == "md5"@ {
        Some(HashType::Md5)
    } else if low == "sha1"@ {
        Some(HashType::Sha1)
    } else if low == "sha256"@ {
        Some(HashType::Sha256)
    } else if low == "tiger"@ {
        Some(HashType::Tiger)
    } else if low == "whirlpool"@ {
        Some(HashType::Whirlpool)
    } else {
        None
    }
}

/// Which algorithm a token names: an exact lowercase token matches
/// directly; anything else is matched after case folding.
pub open spec fn spec_parse_token(s: Seq<char>) -> Option<HashType> {
    if s == token_of(HashType::Md5) {
        Some(HashType::Md5)
    } else if s == token_of(HashType::Sha1) {
        Some(HashType::Sha1)
    } else if s == token_of(HashType::Sha256) {
        Some(HashType::Sha256)
    } else if s == token_of(HashType::Tiger) {
        Some(HashType::Tiger)
    } else if s == token_of(HashType::Whirlpool) {
        Some(HashType::Whirlpool)
    } else {
        parse_token(lower_of(s))
    }
}

/// The message reported for an unknown algorithm token.
pub open spec fn invalid_hash_msg(s: Seq<char>) -> Seq<char> {
    "invalid hash: "@ + s + ", possible options are: sha256, tiger, whirlpool, sha1, md5"@
}

/// True of strings made only of lowercase ASCII letters and digits, which
/// Unicode lowercasing maps to themselves.
pub open spec fn is_lower_token(s: Seq<char>) -> bool {
    forall|i: int|
        0 <= i < s.len() ==> ('a' <= #[trigger] s[i] <= 'z' || '0' <= s[i] <= '9')
}

/// What `str::to_lowercase` returns for a given string.
pub uninterp spec fn lower_of(s: Seq<char>) -> Seq<char>;

/// Relies on `str::to_lowercase`: the result is a function of the characters
/// alone, and characters that are already lowercase ASCII letters or digits
/// are unchanged by it.
#[verifier::external_body]
fn to_lowercase(s: &str) -> (r: String)
    ensures
        r@ == lower_of(s@),
        is_lower_token(s@) ==> r@ == s@,
{
    s.to_lowercase()
}

impl HashType {
    /// The algorithm's manifest token.
    pub fn as_str(&self) -> (r: &str)
        ensures
            r@ == token_of(*self),
    {
        match self {
            HashType::Md5 => "md5",
            HashType::Sha256 => "sha256",
            HashType::Sha1 => "sha1",
            HashType::Tiger => "tiger",
            HashType::Whirlpool => "whirlpool",
        }
    }

    /// Parse a token, case-insensitively.  Unknown tokens are reported with
    /// a message listing the valid ones.
    pub fn from_str(s: &str) -> (r: Result<HashType, String>)
        ensures
            match r {
                Ok(t) => spec_parse_token(s@) == Some(t),
                Err(m) => spec_parse_token(s@) is None && m@ == invalid_hash_msg(s@),
            },
    {
        if str_eq(s, "md5") {
            return Ok(HashType::Md5);
        } else if str_eq(s, "sha1") {
            return Ok(HashType::Sha1);
        } else if str_eq(s, "sha256") {
            return Ok(HashType::Sha256);
        } else if str_eq(s, "tiger") {
            return Ok(HashType::Tiger);
        } else if str_eq(s, "whirlpool") {
            return Ok(HashType::Whirlpool);
        }
        let low = to_lowercase(s);
        let l = low.as_str();
        if str_eq(l, "md5") {
            Ok(HashType::Md5)
        } else if str_eq(l, "sha1") {
            Ok(HashType::Sha1)
        } else if str_eq(l, "sha256") {
            Ok(HashType::Sha256)
        } else if str_eq(l, "tiger") {
            Ok(HashType::Tiger)
        } else if str_eq(l, "whirlpool") {
            Ok(HashType::Whirlpool)
        } else {
            let mut m = String::from_str("invalid hash: ");
            m.append(s);
            m.append(", possible options are: sha256, tiger, whirlpool, sha1, md5");
            Err(m)
        }
    }
}

/// The digest that the MD5 implementation produces for the given input.
pub uninterp spec fn md5_of(data: Seq<u8>) -> Seq<u8>;

/// The digest that the SHA-1 implementation produces for the given input.
pub uninterp spec fn sha1_of(data: Seq<u8>) -> Seq<u8>;

/// The digest that the SHA-256 implementation produces for the given input.
pub uninterp spec fn sha256_of(data: Seq<u8>) -> Seq<u8>;

/// The digest that the Tiger implementation produces for the given input.
pub uninterp spec fn tiger_of(data: Seq<u8>) -> Seq<u8>;

/// The digest that the Whirlpool implementation produces for the given input.
pub uninterp spec fn whirlpool_of(data: Seq<u8>) -> Seq<u8>;

/// The digest of `data` under algorithm `alg`.
pub open spec fn digest_of(alg: HashType, data: Seq<u8>) -> Seq<u8> {
    match alg {
        HashType::Md5 => md5_of(data),
        HashType::Sha256 => sha256_of(data),
        HashType::Sha1 => sha1_of(data),
        HashType::Tiger => tiger_of(data),
        HashType::Whirlpool => whirlpool_of(data),
    }
}

/// Each algorithm's digest size in bytes.
pub open spec fn digest_len(alg: HashType) -> nat {
    match alg {
        HashType::Md5 => 16,
        HashType::Sha256 => 32,
        HashType::Sha1 => 20,
        HashType::Tiger => 24,
        HashType::Whirlpool => 64,
    }
}

/// One in-progress digest computation, behind the adapter interface.
/// The value is opaque; `hasher_alg` and `hasher_fed` name what it was
/// created with and what it has absorbed so far.
#[verifier::external_body]
pub struct DigestState {
    inner: Box<dyn digest::DynDigest>,
}

/// The algorithm a digest state was created for.
pub uninterp spec fn hasher_alg(h: DigestState) -> HashType;

/// The bytes a digest state has absorbed since creation or the last reset.
pub uninterp spec fn hasher_fed(h: DigestState) -> Seq<u8>;

/// Relies on `Default::default` of `md5::Md5`, `sha2::Sha256`, `sha1::Sha1`,
/// `tiger::Tiger` and `whirlpool::Whirlpool`: a fresh hasher that has
/// absorbed nothing.
#[verifier::external_body]
pub fn new_hasher(hash: &HashType) -> (h: DigestState)
    ensures
        hasher_alg(h) == *hash,
        hasher_fed(h) == Seq::<u8>::empty(),
{
    let inner: Box<dyn digest::DynDigest> = match hash {
        HashType::Md5 => Box::new(md5::Md5::default()),
        HashType::Sha256 => Box::new(sha2::Sha256::default()),
        HashType::Sha1 => Box::new(sha1::Sha1::default()),
        HashType::Tiger => Box::new(tiger::Tiger::default()),
        HashType::Whirlpool => Box::new(whirlpool::Whirlpool::default()),
    };
    DigestState { inner }
}

/// Relies on `digest::DynDigest::update`: absorbs the bytes after those
/// already absorbed; streaming in pieces is equivalent to one call.
#[verifier::external_body]
fn hasher_update(h: &mut DigestState, data: &[u8])
    ensures
        hasher_alg(*final(h)) == hasher_alg(*old(h)),
        hasher_fed(*final(h)) == hasher_fed(*old(h)) + data@,
{
    h.inner.update(data);
}

/// Relies on `digest::DynDigest::finalize_reset`: returns the digest of all
/// absorbed bytes and resets the state to fresh.  The digest's byte count
/// is the algorithm's declared output size (`OutputSize` of each
/// implementation: 16, 20, 32, 24 and 64 bytes respectively).
#[verifier::external_body]
fn hasher_finalize_reset(h: &mut DigestState) -> (r: Vec<u8>)
    ensures
        hasher_alg(*old(h)) == HashType::Md5 ==> r@ == md5_of(hasher_fed(*old(h))),
        hasher_alg(*old(h)) == HashType::Sha1 ==> r@ == sha1_of(hasher_fed(*old(h))),
        hasher_alg(*old(h)) == HashType::Sha256 ==> r@ == sha256_of(hasher_fed(*old(h))),
        hasher_alg(*old(h)) == HashType::Tiger ==> r@ == tiger_of(hasher_fed(*old(h))),
        hasher_alg(*old(h)) == HashType::Whirlpool ==> r@ == whirlpool_of(hasher_fed(*old(h))),
        r@ == digest_of(hasher_alg(*old(h)), hasher_fed(*old(h))),
        r@.len() == digest_len(hasher_alg(*old(h))),
        hasher_alg(*final(h)) == hasher_alg(*old(h)),
        hasher_fed(*final(h)) == Seq::<u8>::empty(),
{
    h.inner.finalize_reset().into_vec()
}

/// The lowercase hex digit for a value below sixteen.
pub open spec fn hex_digit(v: u8) -> char
    recommends
        v < 16,
{
    if v < 10 {
        ((v + 48) as char)
    } else {
        ((v + 87) as char)
    }
}

/// Lowercase hex encoding: two digits per byte, no separators.
pub open spec fn hex_seq(b: Seq<u8>) -> Seq<char>
    decreases b.len(),
{
    if b.len() == 0 {
        Seq::<char>::empty()
    } else {
        seq![hex_digit(b[0] / 16), hex_digit(b[0] % 16)] + hex_seq(b.drop_first())
    }
}

/// The hex-rendered digest of `data` under `alg`, as it appears in a
/// manifest data line.
pub open spec fn hex_digest_of(alg: HashType, data: Seq<u8>) -> Seq<char> {
    hex_seq(digest_of(alg, data))
}

/// Relies on `hex::encode`: lowercase hex, exactly two digits per byte.
#[verifier::external_body]
fn encode_hex(b: &Vec<u8>) -> (r: String)
    ensures
        r@ == hex_seq(b@),
{
    hex::encode(b)
}

/// Every character of a hex encoding is a lowercase hex digit.
pub proof fn lemma_hex_seq_chars(b: Seq<u8>)
    ensures
        forall|i: int|
            0 <= i < hex_seq(b).len() ==> ('a' <= #[trigger] hex_seq(b)[i] <= 'f' || '0'
                <= hex_seq(b)[i] <= '9'),
        hex_seq(b).len() == 2 * b.len(),
    decreases b.len(),
{
    if b.len() > 0 {
        lemma_hex_seq_chars(b.drop_first());
    }
}

/// The outcome of hashing one file's contents: the hex digest, or nothing
/// because the run was canceled first.
pub enum Hashed {
    Value(String),
    Canceled,
}

/// Digest one file's contents with one hasher, honoring cancellation.
/// Returns the lowercase hex digest of `data` under the hasher's algorithm.
pub fn hash_file(data: &Vec<u8>, hasher: &mut DigestState, cancel: &CancelFlag) -> (r: Hashed)
    requires
        hasher_fed(*old(hasher)) == Seq::<u8>::empty(),
    ensures
        hasher_alg(*final(hasher)) == hasher_alg(*old(hasher)),
        cancel.set() ==> r is Canceled,
        !cancel.set() ==> (r matches Hashed::Value(v) && v@ == hex_seq(
            digest_of(hasher_alg(*old(hasher)), data@),
        ) && v@.len() == 2 * digest_len(hasher_alg(*old(hasher))) && hasher_fed(*final(hasher))
            == Seq::<u8>::empty()),
{
    if crate::cancel::is_canceled(cancel) {
        return Hashed::Canceled;
    }
    hasher_update(hasher, data.as_slice());
    proof {
        assert(hasher_fed(*hasher) =~= data@);
    }
    let digest = hasher_finalize_reset(hasher);
    proof {
        lemma_hex_seq_chars(digest@);
    }
    Hashed::Value(encode_hex(&digest))
}

} // verus!
