//! Text helpers shared by the library: hexadecimal encoding and joining strings.
use vstd::prelude::*;
use vstd::string::StringExecFns;

verus! {

/// Lower-case hexadecimal digit of a value below 16.
pub open spec fn hex_digit(v: u8) -> char {
    if v < 10 { (('0' as u8) + v) as char } else { (('a' as u8) + v - 10) as char }
}

/// Two lower-case hexadecimal digits per byte, high half first.
pub open spec fn hex_lower(b: Seq<u8>) -> Seq<char>
    decreases b.len(),
{
    if b.len() == 0 {
        Seq::empty()
    } else {
        hex_lower(b.drop_last()) + seq![hex_digit(b.last() / 16), hex_digit(b.last() % 16)]
    }
}

/// Relies on hex::encode: two lower-case hexadecimal digits per byte, in order.
#[verifier::external_body]
pub(crate) fn encode_hex(data: &[u8]) -> (r: String)
    ensures
        r@ == hex_lower(data@),
{
    hex::encode(data)
}

/// The two strings one after the other.
pub(crate) fn join2(a: &str, b: &str) -> (r: String)
    ensures
        r@ == a@ + b@,
{
    a.to_owned().concat(b)
}

} // verus!
