use vstd::prelude::*;

verus! {

/// The ASCII decimal digits of `n`, most significant first, with no
/// leading zero.
pub open spec fn decimal_of(n: nat) -> Seq<u8>
    decreases n,
{
    if n < 10 {
        seq![(48 + n) as u8]
    } else {
        decimal_of(n / 10).push((48 + n % 10) as u8)
    }
}

/// The number that JSON text `b` holds, if `b` is one JSON number that fits
/// in a `u64`.
pub uninterp spec fn json_u64(b: Seq<u8>) -> Option<u64>;

/// serde_json's error type, carried through and never read.
#[verifier::external_type_specification]
#[verifier::external_body]
pub struct ExJsonError(serde_json::Error);

/// Relies on serde_json::to_vec: a `u64` is written with itoa as its decimal
/// digits, into a `Vec`, whose writes do not fail.
#[verifier::external_body]
fn json_from_u64(n: u64) -> (r: Result<Vec<u8>, serde_json::Error>)
    ensures
        r.is_ok() && r.unwrap()@ == decimal_of(n as nat),
{
    serde_json::to_vec(&n)
}

/// Relies on serde_json::from_slice::<u64>: the result depends on the bytes
/// alone.
#[verifier::external_body]
fn json_to_u64(b: &[u8]) -> (r: Result<u64, serde_json::Error>)
    ensures
        r.is_ok() == json_u64(b@).is_some(),
        r.is_ok() ==> json_u64(b@) == Some(r.unwrap()),
{
    serde_json::from_slice::<u64>(b)
}

/// The datagram that announces `id`: its JSON text.
pub fn encode_id(id: u64) -> (r: Vec<u8>)
    ensures
        r@ == decimal_of(id as nat),
{
    match json_from_u64(id) {
        Ok(v) => v,
        Err(_) => Vec::new(),
    }
}

/// The identity that a datagram announces; `None` when it does not hold one.
pub fn decode_id(b: &[u8]) -> (r: Option<u64>)
    ensures
        r == json_u64(b@),
{
    match json_to_u64(b) {
        Ok(n) => Some(n),
        Err(_) => None,
    }
}

} // verus!
