use vstd::prelude::*;
use vstd::string::StringSliceAdditionalSpecFns;

use crate::checksum::{be_bytes, placement, ChecksumTarget};
use crate::error::OpsError;
use crate::hexdigits::{hex_digit, hex_val};
use crate::hexfile::{is_canonical, same_bytes, HexFile, SegView};
use crate::transform::joined;

verus! {

/// Signature algorithms, each with or without the address and length
/// header in the signed payload.
#[derive(Debug, Clone, Copy, PartialEq, Eq, Structural)]
pub enum SignatureMethod {
    RsaPkcs1v15Sha256 { with_metadata: bool },
    RsaPssSha256 { with_metadata: bool },
    Ed25519Ph { with_metadata: bool },
    Ed25519Sha512Data { with_metadata: bool },
}

impl SignatureMethod {
    pub open spec fn spec_with_metadata(&self) -> bool {
        match *self {
            SignatureMethod::RsaPkcs1v15Sha256 { with_metadata } => with_metadata,
            SignatureMethod::RsaPssSha256 { with_metadata } => with_metadata,
            SignatureMethod::Ed25519Ph { with_metadata } => with_metadata,
            SignatureMethod::Ed25519Sha512Data { with_metadata } => with_metadata,
        }
    }

    /// Whether the payload starts with the address and length header.
    pub fn with_metadata(&self) -> (r: bool)
        ensures
            r == self.spec_with_metadata(),
    {
        match *self {
            SignatureMethod::RsaPkcs1v15Sha256 { with_metadata } => with_metadata,
            SignatureMethod::RsaPssSha256 { with_metadata } => with_metadata,
            SignatureMethod::Ed25519Ph { with_metadata } => with_metadata,
            SignatureMethod::Ed25519Sha512Data { with_metadata } => with_metadata,
        }
    }

    /// The method for a signing code: 32/33 RSA PKCS#1 v1.5, 38/39 RSA-PSS,
    /// 46/47 Ed25519ph, 48/49 Ed25519 over the SHA-512 digest; odd codes
    /// add the header.
    pub fn from_signing_index(index: u8) -> (r: Option<SignatureMethod>)
        ensures
            r is Some <==> (index == 32 || index == 33 || index == 38 || index == 39 || index == 46 || index == 47 || index == 48 || index == 49),
            r matches Some(m) ==> m.spec_with_metadata() == (index % 2 == 1) && m == method_of(index),
    {
        match index {
            32 | 33 => Some(SignatureMethod::RsaPkcs1v15Sha256 { with_metadata: index == 33 }),
            38 | 39 => Some(SignatureMethod::RsaPssSha256 { with_metadata: index == 39 }),
            46 | 47 => Some(SignatureMethod::Ed25519Ph { with_metadata: index == 47 }),
            48 | 49 => Some(SignatureMethod::Ed25519Sha512Data { with_metadata: index == 49 }),
            _ => None,
        }
    }

    /// The method for a verification code: 4..=11 in the order of the
    /// signing codes.
    pub fn from_verify_index(index: u8) -> (r: Option<SignatureMethod>)
        ensures
            r is Some <==> 4 <= index <= 11,
            r matches Some(m) ==> m.spec_with_metadata() == (index % 2 == 1) && m == method_of(signing_code(index)),
    {
        if index < 4 || index > 11 {
            return None;
        }
        let r = Self::from_signing_index(if index < 8 { if index < 6 { index + 28 } else { index + 32 } } else { index + 38 });
        r
    }
}

/// The signing code of the same method as verification code `index`:
/// 4/5 → 32/33, 6/7 → 38/39, 8/9 → 46/47, 10/11 → 48/49.
pub open spec fn signing_code(index: u8) -> u8 {
    if index < 6 { (index + 28) as u8 } else if index < 8 { (index + 32) as u8 } else { (index + 38) as u8 }
}

pub open spec fn method_of(index: u8) -> SignatureMethod {
    if index == 32 || index == 33 {
        SignatureMethod::RsaPkcs1v15Sha256 { with_metadata: index == 33 }
    } else if index == 38 || index == 39 {
        SignatureMethod::RsaPssSha256 { with_metadata: index == 39 }
    } else if index == 46 || index == 47 {
        SignatureMethod::Ed25519Ph { with_metadata: index == 47 }
    } else {
        SignatureMethod::Ed25519Sha512Data { with_metadata: index == 49 }
    }
}

/// The payload signed for a canonical image: its bytes in address order,
/// after the first address and the byte count (four bytes each,
/// big-endian) when the header is asked.
pub open spec fn payload_bytes(c: Seq<SegView>, with_metadata: bool) -> Seq<u8> {
    let data = joined(c);
    if with_metadata {
        be_bytes(if c.len() == 0 { 0 } else { c[0].0 as int }, 4) + be_bytes(data.len() as int, 4) + data
    } else {
        data
    }
}

/// The SHA-512 digest of a byte sequence.
pub uninterp spec fn sha512_of(data: Seq<u8>) -> Seq<u8>;

/// Relies on `sha2::Sha512::digest`: the 64-byte digest of the bytes, a
/// function of the bytes alone.
#[verifier::external_body]
fn sha512(data: &[u8]) -> (r: Vec<u8>)
    ensures
        r@ == sha512_of(data@),
        r@.len() == 64,
{
    <sha2::Sha512 as sha2::Digest>::digest(data).to_vec()
}

/// The message a method signs for a payload: the SHA-512 digest for
/// Ed25519 over the digest, the payload itself otherwise.
pub fn signed_message(method: SignatureMethod, payload: &[u8]) -> (r: Vec<u8>)
    ensures
        method is Ed25519Sha512Data ==> r@ == sha512_of(payload@),
        !(method is Ed25519Sha512Data) ==> r@ == payload@,
{
    match method {
        SignatureMethod::Ed25519Sha512Data { .. } => sha512(payload),
        _ => crate::hexfile::slice_to_vec(payload),
    }
}

/// The bytes signed for the image: the normalized bytes in address order,
/// with the header when asked. Refused when the byte count does not fit
/// in 32 bits and the header needs it.
pub fn signature_payload(hexfile: &HexFile, with_metadata: bool) -> (r: Result<Vec<u8>, OpsError>)
    ensures
        forall|c: Seq<SegView>| is_canonical(c) && same_bytes(c, hexfile@) ==> {
            if with_metadata && joined(c).len() > 0xFFFF_FFFF {
                r is Err
            } else {
                r matches Ok(v) && v@ == payload_bytes(c, with_metadata)
            }
        },
{
    let n = hexfile.normalized_lossy();
    proof {
        assert forall|c: Seq<SegView>| is_canonical(c) && same_bytes(c, hexfile@) implies c == n@ by {
            assert(same_bytes(c, n@));
            crate::hexfile::lemma_canonical_unique(c, n@);
        }
    }
    let mut data: Vec<u8> = Vec::new();
    let mut i: usize = 0;
    while i < n.segments.len()
        invariant
            i <= n@.len(),
            n@.len() == n.segments@.len(),
            data@ == joined(n@.take(i as int)),
        decreases n@.len() - i,
    {
        let s = &n.segments[i];
        assert(n@[i as int] == s@);
        assert(n@.take(i + 1).drop_last() =~= n@.take(i as int));
        data.extend_from_slice(s.data.as_slice());
        assert(data@ =~= joined(n@.take(i + 1)));
        i = i + 1;
    }
    assert(n@.take(i as int) =~= n@);
    if !with_metadata {
        return Ok(data);
    }
    if data.len() > 0xFFFF_FFFF {
        return Err(OpsError::AddressOverflow);
    }
    let start: u32 = if n.segments.len() == 0 { 0 } else {
        assert(n@[0] == n.segments@[0]@);
        n.segments[0].start_address
    };
    let len = data.len() as u32;
    let mut out = be4(start);
    let mut lb = be4(len);
    out.append(&mut lb);
    out.append(&mut data);
    Ok(out)
}

/// Four big-endian bytes of `v`.
fn be4(v: u32) -> (r: Vec<u8>)
    ensures
        r@ == be_bytes(v as int, 4),
{
    let b0 = (v & 0xFF) as u8;
    let b1 = ((v >> 8u32) & 0xFF) as u8;
    let b2 = ((v >> 16u32) & 0xFF) as u8;
    let b3 = ((v >> 24u32) & 0xFF) as u8;
    proof {
        assert(b0 == (v as int / 1) % 256) by (bit_vector)
            requires b0 == (v & 0xFF) as u8;
        assert(b1 == (v as int / 256) % 256) by (bit_vector)
            requires b1 == ((v >> 8u32) & 0xFF) as u8;
        assert(b2 == (v as int / 65536) % 256) by (bit_vector)
            requires b2 == ((v >> 16u32) & 0xFF) as u8;
        assert(b3 == (v as int / 16777216) % 256) by (bit_vector)
            requires b3 == ((v >> 24u32) & 0xFF) as u8;
    }
    let r = vec![b3, b2, b1, b0];
    assert(r@ =~= be_bytes(v as int, 4));
    r
}

/// The hex digits of `s` paired into bytes; characters that are not hex
/// digits are skipped. Refused when no digit or an odd count is found.
pub fn parse_hex_signature(s: &str) -> (r: Result<Vec<u8>, String>)
    ensures
        r is Ok <==> hex_only(s.spec_bytes()).len() > 0 && hex_only(s.spec_bytes()).len() % 2 == 0,
        r matches Ok(v) ==> crate::hexdigits::decode_pairs(hex_only(s.spec_bytes())) == Some(v@),
{
    let b = s.as_bytes();
    let mut digits: Vec<u8> = Vec::new();
    let mut i: usize = 0;
    while i < b.len()
        invariant
            i <= b@.len(),
            b@ == s.spec_bytes(),
            digits@ == hex_only(b@.take(i as int)),
        decreases b@.len() - i,
    {
        assert(b@.take(i + 1).drop_last() =~= b@.take(i as int));
        if hex_digit(b[i]).is_some() {
            digits.push(b[i]);
        }
        i = i + 1;
    }
    assert(b@.take(i as int) =~= b@);
    if digits.len() == 0 {
        return Err("signature is neither an existing file path nor a hex string".to_string());
    }
    if digits.len() % 2 == 1 {
        return Err("signature hex string must have even length".to_string());
    }
    proof {
        lemma_hex_only_digits(b@);
    }
    match crate::hexdigits::decode_hex_pairs(digits.as_slice()) {
        Ok(v) => Ok(v),
        Err(_) => Err("invalid signature hex string".to_string()),
    }
}

/// The hex digits of `s`, in order.
pub open spec fn hex_only(s: Seq<u8>) -> Seq<u8>
    decreases s.len(),
{
    if s.len() == 0 {
        s
    } else if hex_val(s.last()) is Some {
        hex_only(s.drop_last()).push(s.last())
    } else {
        hex_only(s.drop_last())
    }
}

proof fn lemma_hex_only_digits(s: Seq<u8>)
    ensures
        forall|k: int| 0 <= k < hex_only(s).len() ==> hex_val(#[trigger] hex_only(s)[k]) is Some,
    decreases s.len(),
{
    if s.len() > 0 {
        lemma_hex_only_digits(s.drop_last());
    }
}


/// Writes a signature where a `ChecksumTarget` says, at the address that
/// `placement` gives for it (without setting any window aside). A file target is refused:
/// the caller writes files. An empty signature changes nothing.
pub fn place_signature(hexfile: &mut HexFile, target: &ChecksumTarget, signature: &[u8]) -> (r: Result<(), OpsError>)
    ensures
        target is File ==> r is Err && final(hexfile)@ == old(hexfile)@,
        !(target is File) && signature@.len() == 0 ==> r is Ok && final(hexfile)@ == old(hexfile)@,
        !(target is File) && signature@.len() > 0 ==> match placement(old(hexfile)@, *target, signature@.len() as int) {
            None => r is Err && final(hexfile)@ == old(hexfile)@,
            Some((at, _)) => r is Ok && final(hexfile)@ == match at {
                Some(w) => old(hexfile)@.push((w as u32, signature@)),
                None => old(hexfile)@,
            },
        },
{
    if let ChecksumTarget::File(_) = target {
        return Err(OpsError::InvalidTarget("a file target is not a place in the image".to_string()));
    }
    if signature.len() == 0 {
        return Ok(());
    }
    match hexfile.place_for(target, signature.len()) {
        Err(e) => Err(e),
        Ok((at, _)) => {
            match at {
                Some(w) => hexfile.write_bytes(w, signature),
                None => {},
            }
            Ok(())
        },
    }
}

} // verus!
