//! HMAC-SHA1 message authentication codes.
use vstd::prelude::*;
use hmac::Mac;
use hmac::digest::InvalidLength;

verus! {

/// Why a code could not be computed.
#[derive(Clone, Copy, Debug, PartialEq, Eq, Structural)]
pub enum HmacOpError {
    /// The key was refused.
    BadKey,
}

/// `hmac::digest::InvalidLength`, carried through as an opaque value.
#[verifier::external_type_specification]
#[verifier::external_body]
pub struct ExInvalidLength(InvalidLength);

/// The HMAC-SHA1 code of `msg` under `key`.
pub uninterp spec fn hmac_sha1_tag(key: Seq<u8>, msg: Seq<u8>) -> Seq<u8>;

/// `Hmac::<Sha1>::new_from_slice(key)`, `update(msg)`, `finalize()`: the
/// 20-byte code of `msg` under `key`. HMAC takes a key of any length, so the
/// crate never returns its length error here.
#[verifier::external_body]
fn hmac_sha1(key: &[u8], msg: &[u8]) -> (r: Result<Vec<u8>, InvalidLength>)
    ensures
        r is Ok,
        r matches Ok(v) ==> v@ == hmac_sha1_tag(key@, msg@) && v@.len() == 20,
{
    let mut mac = <hmac::Hmac<sha1::Sha1> as Mac>::new_from_slice(key)?;
    mac.update(msg);
    Ok(mac.finalize().into_bytes().to_vec())
}

/// The HMAC-SHA1 code of `msgcode` under the key `authcode`.
pub fn hmac_value_sha(authcode: &[u8], msgcode: &[u8]) -> (r: Result<Vec<u8>, HmacOpError>)
    ensures
        r matches Ok(v) && v@ == hmac_sha1_tag(authcode@, msgcode@) && v@.len() == 20,
{
    match hmac_sha1(authcode, msgcode) {
        Ok(v) => Ok(v),
        Err(_) => Err(HmacOpError::BadKey),
    }
}

} // verus!
