//! Content identifiers.
//!
//! A `ContentId` names a byte string by its SHA-256 digest, wrapped in a
//! multihash envelope (code 0x12, digest length 32) and tagged as CIDv1
//! with the raw content codec 0x55. Equality is bit-exact over the byte
//! encoding, and two byte-equal inputs always yield equal identifiers.

use vstd::prelude::*;
use sha2::Digest;
use crate::errors::DaslError;

verus! {

/// SHA-256 digest of a byte string; the digest is a function of the input
/// bytes alone, computed by the `sha2` crate.
pub uninterp spec fn sha256_of(data: Seq<u8>) -> Seq<u8>;

/// Multibase base32-lower text of a byte string, as `multibase::encode`
/// produces it.
pub uninterp spec fn multibase32_of(data: Seq<u8>) -> Seq<char>;

/// What `multibase::decode` yields on a text, kept only when the base is
/// base32-lower: `None` when decoding fails or another base was used.
pub uninterp spec fn multibase32_decoded(s: Seq<char>) -> Option<Seq<u8>>;

/// The fixed four-byte prefix of an identifier: CIDv1, raw codec, SHA2-256
/// multihash code, digest length 32.
pub open spec fn cid_header() -> Seq<u8> {
    seq![1u8, 0x55u8, 0x12u8, 0x20u8]
}

/// The identifier bytes derived from a byte string.
pub open spec fn cid_of(data: Seq<u8>) -> Seq<u8> {
    cid_header() + sha256_of(data)
}

/// Shape of a well-formed identifier: 36 bytes opening with the fixed
/// header.
pub open spec fn wf_cid_bytes(b: Seq<u8>) -> bool {
    b.len() == 36 && b[0] == 1u8 && b[1] == 0x55u8 && b[2] == 0x12u8 && b[3] == 0x20u8
}

/// Relies on `sha2::Sha256::digest`: the 32-byte SHA-256 digest of the
/// input, a function of the input bytes alone.
#[verifier::external_body]
fn sha256_digest(data: &[u8]) -> (r: Vec<u8>)
    ensures
        r@ == sha256_of(data@),
        r@.len() == 32,
{
    sha2::Sha256::digest(data).to_vec()
}

/// Relies on `multibase::encode` with the base32-lower base: the text is a
/// function of the input bytes alone, and `multibase::decode` inverts it.
#[verifier::external_body]
fn multibase32_encode(data: &[u8]) -> (r: String)
    ensures
        r@ == multibase32_of(data@),
        multibase32_decoded(r@) == Some(data@),
{
    multibase::encode(multibase::Base::Base32Lower, data)
}

/// Relies on `multibase::decode`: the decoded bytes are a function of the
/// text alone; malformed texts and texts of another base yield `None`.
#[verifier::external_body]
fn multibase32_decode(s: &str) -> (r: Option<Vec<u8>>)
    ensures
        match r {
            Some(d) => multibase32_decoded(s@) == Some(d@),
            None => multibase32_decoded(s@) is None,
        },
{
    match multibase::decode(s) {
        Ok((multibase::Base::Base32Lower, d)) => Some(d),
        _ => None,
    }
}

/// A content identifier. Immutable and self-describing: the byte encoding
/// carries the codec tag and the multihash envelope around the digest.
#[derive(Clone, Debug, Hash)]
pub struct ContentId {
    pub bytes: Vec<u8>,
}

impl View for ContentId {
    type V = Seq<u8>;

    open spec fn view(&self) -> Seq<u8> {
        self.bytes@
    }
}

impl PartialEq for ContentId {
    fn eq(&self, other: &Self) -> (r: bool) {
        let r = self.bytes == other.bytes;
        proof {
            if r {
                assert(self.bytes@ =~= other.bytes@);
            }
        }
        r
    }
}

impl vstd::std_specs::cmp::PartialEqSpecImpl for ContentId {
    open spec fn obeys_eq_spec() -> bool {
        true
    }

    open spec fn eq_spec(&self, other: &Self) -> bool {
        self.bytes@ == other.bytes@
    }
}

impl ContentId {
    /// Whether the identifier has the canonical 36-byte shape.
    pub open spec fn wf(&self) -> bool {
        wf_cid_bytes(self@)
    }

    /// Derives the identifier of a byte string: SHA-256 digest behind the
    /// fixed header.
    pub fn new(data: &[u8]) -> (r: Result<ContentId, DaslError>)
        ensures
            r matches Ok(c) && c@ == cid_of(data@) && c.wf(),
    {
        let digest = sha256_digest(data);
        let mut bytes: Vec<u8> = Vec::new();
        bytes.push(1);
        bytes.push(0x55);
        bytes.push(0x12);
        bytes.push(0x20);
        let mut digest = digest;
        bytes.append(&mut digest);
        proof {
            assert(bytes@ =~= cid_of(data@));
        }
        Ok(ContentId { bytes })
    }

    /// Reads an identifier back from its byte encoding; rejects any byte
    /// sequence without the canonical shape.
    pub fn from_bytes(bytes: &[u8]) -> (r: Result<ContentId, DaslError>)
        ensures
            r is Ok <==> wf_cid_bytes(bytes@),
            r matches Ok(c) ==> c@ == bytes@,
            r matches Err(e) ==> e == DaslError::InvalidCid,
    {
        let v = vstd::slice::slice_to_vec(bytes);
        if check_cid_shape(&v) {
            Ok(ContentId { bytes: v })
        } else {
            Err(DaslError::InvalidCid)
        }
    }

    /// Reads an identifier from its multibase base32-lower text; rejects a
    /// text that does not decode to the canonical shape.
    pub fn from_string(s: &str) -> (r: Result<ContentId, DaslError>)
        ensures
            r matches Ok(c) ==> multibase32_decoded(s@) == Some(c@) && c.wf(),
            r is Err <==> !(multibase32_decoded(s@) matches Some(d) && wf_cid_bytes(d)),
            r matches Err(e) ==> e == DaslError::InvalidCid,
    {
        match multibase32_decode(s) {
            Some(d) => {
                if check_cid_shape(&d) {
                    Ok(ContentId { bytes: d })
                } else {
                    Err(DaslError::InvalidCid)
                }
            },
            None => Err(DaslError::InvalidCid),
        }
    }

    /// A copy of the identifier naming the same bytes.
    pub fn duplicate(&self) -> (r: ContentId)
        ensures
            r@ == self@,
    {
        ContentId { bytes: vstd::slice::slice_to_vec(self.bytes.as_slice()) }
    }

    /// The byte encoding of the identifier.
    pub fn to_bytes(&self) -> (r: Vec<u8>)
        ensures
            r@ == self@,
    {
        self.bytes.clone()
    }

    /// The multibase base32-lower text of the identifier. `from_string`
    /// reads this text back to an equal identifier.
    pub fn to_text(&self) -> (r: String)
        ensures
            r@ == multibase32_of(self@),
            multibase32_decoded(r@) == Some(self@),
    {
        multibase32_encode(self.bytes.as_slice())
    }

    /// Whether the given data hashes to this identifier.
    pub fn verify(&self, data: &[u8]) -> (r: bool)
        ensures
            r == (self@ == cid_of(data@)),
    {
        let expected = sha256_digest(data);
        if self.bytes.len() != 36 {
            proof {
                assert(self@ != cid_of(data@));
            }
            return false;
        }
        if !(self.bytes[0] == 1 && self.bytes[1] == 0x55
            && self.bytes[2] == 0x12 && self.bytes[3] == 0x20) {
            proof {
                assert(self@ != cid_of(data@));
            }
            return false;
        }
        let mut i: usize = 0;
        while i < 32
            invariant
                0 <= i <= 32,
                self.bytes@.len() == 36,
                expected@ == sha256_of(data@),
                expected@.len() == 32,
                forall|j: int| 0 <= j < i ==> self.bytes@[4 + j] == expected@[j],
            decreases 32 - i,
        {
            if self.bytes[4 + i] != expected[i] {
                proof {
                    assert(self@[4 + i] != cid_of(data@)[4 + i]);
                }
                return false;
            }
            i = i + 1;
        }
        proof {
            assert(self@ =~= cid_of(data@));
        }
        true
    }
}

/// Whether the byte vector has the canonical identifier shape.
fn check_cid_shape(b: &Vec<u8>) -> (r: bool)
    ensures
        r == wf_cid_bytes(b@),
{
    b.len() == 36 && b[0] == 1 && b[1] == 0x55 && b[2] == 0x12
        && b[3] == 0x20
}

/// A copy of a list of identifiers, element for element.
pub fn dup_cid_vec(v: &Vec<ContentId>) -> (r: Vec<ContentId>)
    ensures
        r@.len() == v@.len(),
        forall|j: int| 0 <= j < v@.len() ==> (#[trigger] r@[j])@ == v@[j]@,
{
    let mut out: Vec<ContentId> = Vec::new();
    let mut t: usize = 0;
    while t < v.len()
        invariant
            0 <= t <= v@.len(),
            out@.len() == t,
            forall|j: int| 0 <= j < t ==> (#[trigger] out@[j])@ == v@[j]@,
        decreases v@.len() - t,
    {
        out.push(v[t].duplicate());
        t = t + 1;
    }
    out
}

} // verus!
