//! Objects and their versions. A version is given by an object's contents, so
//! that comparing versions compares contents.

use vstd::prelude::*;
use vstd::string::*;

use sha2::Digest;

use crate::strings;
use crate::codec;
use crate::codec::{append, put_u64_le};
use crate::error::Error;
use crate::strings::{hex, same_text, text2};

pub mod cache;
pub mod fs;
pub mod metered;
pub mod s3;

verus! {

/// An opaque version of an object.
#[derive(Clone, Debug, PartialEq, Eq, Hash)]
pub struct ObjectVersion(pub String);

/// An object that is listed.
#[derive(Clone, Debug)]
pub struct ObjectMeta {
    pub key: String,
    pub size: u64,
    pub version: ObjectVersion,
}

/// The SHA-256 digest of bytes, as `sha2` computes it.
pub uninterp spec fn sha256_of(bytes: Seq<u8>) -> Seq<u8>;

/// Calls `sha2::Sha256::digest`. Claimed: the result is a function of the bytes
/// alone, named `sha256_of`. Nothing is said of which digest it is.
#[verifier::external_body]
fn sha256(bytes: &[u8]) -> (digest: [u8; 32])
    ensures
        digest@ == sha256_of(bytes@),
{
    sha2::Sha256::digest(bytes).into()
}

/// The SipHash-1-3 of bytes under two keys of zero, as `siphasher` computes it.
pub uninterp spec fn siphash13_of(bytes: Seq<u8>) -> u64;

/// Calls `siphasher::sip::SipHasher13::hash` on a hasher with two keys of zero.
/// Claimed: the result is a function of the bytes alone, named `siphash13_of`.
/// Nothing is said of which number it is.
#[verifier::external_body]
fn siphash13(bytes: &[u8]) -> (h: u64)
    ensures
        h == siphash13_of(bytes@),
{
    siphasher::sip::SipHasher13::new_with_keys(0, 0).hash(bytes)
}

/// The version of an object with these contents.
pub open spec fn content_version(bytes: Seq<u8>) -> Seq<char> {
    "sha256-"@ + strings::hex_of(sha256_of(bytes))
}

/// The version that an object with these contents had before versions were
/// SHA-256 digests: a hash of its length, in eight bytes, and its contents.
pub open spec fn legacy_content_version(bytes: Seq<u8>) -> Seq<char> {
    strings::hex_of(
        crate::codec::be_bytes(
            siphash13_of(codec::le_bytes(bytes.len(), 8) + bytes) as nat,
            8,
        ),
    )
}

/// The version of an object with these contents.
pub fn version_of(bytes: &[u8]) -> (v: ObjectVersion)
    ensures
        v.0@ == content_version(bytes@),
{
    let digest = sha256(bytes);
    ObjectVersion(text2("sha256-", hex(digest.as_slice()).as_str()))
}

/// The version that an object with these contents had before versions were
/// SHA-256 digests.
pub fn legacy_version_of(bytes: &[u8]) -> (v: ObjectVersion)
    ensures
        v.0@ == legacy_content_version(bytes@),
{
    let mut message: Vec<u8> = Vec::new();
    let len: usize = bytes.len();
    put_u64_le(&mut message, len as u64);
    append(&mut message, bytes);
    assert(message@ =~= codec::le_bytes(bytes@.len(), 8) + bytes@);
    let h: u64 = siphash13(message.as_slice());
    let mut digits: Vec<u8> = Vec::new();
    crate::codec::put_u64_be(&mut digits, h);
    assert(digits@ =~= crate::codec::be_bytes(h as nat, 8));
    ObjectVersion(hex(digits.as_slice()))
}

/// A version stands for these contents.
pub open spec fn version_fits(v: Seq<char>, bytes: Seq<u8>) -> bool {
    v == content_version(bytes) || v == legacy_content_version(bytes)
}

impl ObjectVersion {
    /// Whether this is the version, of today or of before, of these contents.
    pub fn matches_content(&self, bytes: &[u8]) -> (b: bool)
        ensures
            b == version_fits(self.0@, bytes@),
    {
        same_text(self.0.as_str(), version_of(bytes).0.as_str()) || same_text(
            self.0.as_str(),
            legacy_version_of(bytes).0.as_str(),
        )
    }

    /// A version equal to this one.
    pub fn copy(&self) -> (v: ObjectVersion)
        ensures
            v.0@ == self.0@,
    {
        ObjectVersion(self.0.clone())
    }
}

/// Whether an object, with its version and contents, is the one expected.
pub fn version_matches(expected: &ObjectVersion, actual: &ObjectVersion, bytes: &[u8]) -> (b: bool)
    ensures
        b == (expected.0@ == actual.0@ || version_fits(expected.0@, bytes@)),
{
    same_text(expected.0.as_str(), actual.0.as_str()) || expected.matches_content(bytes)
}

/// A range of an object lies within it.
pub open spec fn range_valid(start: u64, end: u64, size: u64) -> bool {
    start <= end <= size
}

/// Refuses a range that does not lie within an object.
pub fn check_range(start: u64, end: u64, size: u64) -> (r: Result<(), Error>)
    ensures
        range_valid(start, end, size) ==> r is Ok,
        !range_valid(start, end, size) ==> r == Err::<(), Error>(
            Error::InvalidRange { start, end, size },
        ),
{
    if start > end || end > size {
        return Err(Error::InvalidRange { start, end, size });
    }
    Ok(())
}

/// What the error of a failed compare-and-set says.
pub open spec fn is_mismatch(
    e: Error,
    key: Seq<char>,
    expected: Seq<char>,
    actual: Option<ObjectVersion>,
) -> bool {
    &&& e is CasMismatch
    &&& e->CasMismatch_key@ == key
    &&& e->CasMismatch_expected@ == expected
    &&& match actual {
        None => e->CasMismatch_actual is None,
        Some(v) => e->CasMismatch_actual is Some && e->CasMismatch_actual->Some_0@ == v.0@,
    }
}

/// Refuses to replace an object that is not the one expected, or not there.
pub fn check_version(key: &str, expected: &ObjectVersion, actual: Option<ObjectVersion>) -> (r:
    Result<(), Error>)
    ensures
        actual is Some && actual->Some_0.0@ == expected.0@ ==> r is Ok,
        !(actual is Some && actual->Some_0.0@ == expected.0@) ==> r is Err && is_mismatch(
            r->Err_0,
            key@,
            expected.0@,
            actual,
        ),
{
    match actual {
        Some(version) => {
            if same_text(version.0.as_str(), expected.0.as_str()) {
                return Ok(());
            }
            Err(
                Error::CasMismatch {
                    key: key.to_owned(),
                    expected: expected.0.clone(),
                    actual: Some(version.0),
                },
            )
        },
        None => Err(
            Error::CasMismatch {
                key: key.to_owned(),
                expected: expected.0.clone(),
                actual: None,
            },
        ),
    }
}

/// A version fits the contents that it was made of, and two contents have the same version
/// only where their digests are the same.
pub proof fn law_versions_tell_contents(a: Seq<u8>, b: Seq<u8>)
    ensures
        version_fits(content_version(a), a),
        version_fits(legacy_content_version(a), a),
        content_version(a) == content_version(b) <==> sha256_of(a) == sha256_of(b),
{
    if content_version(a) == content_version(b) {
        let x = strings::hex_of(sha256_of(a));
        let y = strings::hex_of(sha256_of(b));
        assert(content_version(a).skip("sha256-"@.len() as int) =~= x);
        assert(content_version(b).skip("sha256-"@.len() as int) =~= y);
        strings::law_hex_is_told_apart(sha256_of(a), sha256_of(b));
    }
}

/// A range lies within an object exactly if the object can be cut at its ends into what is
/// before it, the range and what is behind it.
pub proof fn law_ranges_cut_the_object(start: u64, end: u64, size: u64)
    ensures
        range_valid(start, end, size) <==> exists|before: nat, within: nat, behind: nat|
            #![trigger cuts(before, within, behind)]
            cuts(before, within, behind) == (start as nat, end as nat, size as nat),
{
    if range_valid(start, end, size) {
        let c = cuts(start as nat, (end - start) as nat, (size - end) as nat);
        assert(c == (start as nat, end as nat, size as nat));
    }
}

/// Where the range after so many bytes starts and ends, and the size of the whole.
pub open spec fn cuts(before: nat, within: nat, behind: nat) -> (nat, nat, nat) {
    (before, before + within, before + within + behind)
}

} // verus!
