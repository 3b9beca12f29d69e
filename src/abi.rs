//! Solidity ABI encoding and decoding of the values that the programs take and
//! give back, through `alloy_sol_types`.

use vstd::prelude::*;
use alloy_sol_types::SolValue;

verus! {

/// An error of `alloy_sol_types` while decoding.
#[verifier::external_type_specification]
#[verifier::external_body]
pub struct ExAbiError(alloy_sol_types::Error);

/// The ABI encoding of an `int32[]` value.
pub uninterp spec fn abi_int32_array(v: Seq<i32>) -> Seq<u8>;

/// The `int32[]` value that the bytes ABI-encode, if any.
pub uninterp spec fn abi_int32_array_decoding(b: Seq<u8>) -> Option<Seq<i32>>;

/// The ABI encoding of a `string` value, given by its UTF-8 bytes.
pub uninterp spec fn abi_string(text: Seq<u8>) -> Seq<u8>;

/// The UTF-8 bytes of the `string` value that the bytes ABI-encode, if any.
pub uninterp spec fn abi_string_decoding(b: Seq<u8>) -> Option<Seq<u8>>;

/// Relies on `<Vec<i32> as alloy_sol_types::SolValue>::abi_decode`: the ABI
/// decoding of an `int32[]` value, which depends on the bytes alone.
#[verifier::external_body]
pub(crate) fn decode_int32_array(input: &[u8]) -> (r: Result<Vec<i32>, alloy_sol_types::Error>)
    ensures
        r matches Ok(v) ==> abi_int32_array_decoding(input@) == Some(v@),
        r is Err ==> abi_int32_array_decoding(input@) is None,
{
    <Vec<i32> as SolValue>::abi_decode(input)
}

/// Relies on `<Vec<i32> as alloy_sol_types::SolValue>::abi_encode`: the ABI
/// encoding of an `int32[]` value, which depends on the elements alone.
#[verifier::external_body]
pub(crate) fn encode_int32_array(v: &Vec<i32>) -> (r: Vec<u8>)
    ensures
        r@ == abi_int32_array(v@),
{
    v.abi_encode()
}

/// Relies on `<String as alloy_sol_types::SolValue>::abi_decode`: the ABI
/// decoding of a `string` value, which depends on the bytes alone. The decoded
/// string is handed back as its UTF-8 bytes.
#[verifier::external_body]
pub(crate) fn decode_string(input: &[u8]) -> (r: Result<Vec<u8>, alloy_sol_types::Error>)
    ensures
        r matches Ok(text) ==> abi_string_decoding(input@) == Some(text@),
        r is Err ==> abi_string_decoding(input@) is None,
{
    match <String as SolValue>::abi_decode(input) {
        Ok(s) => Ok(s.into_bytes()),
        Err(e) => Err(e),
    }
}

/// Relies on `<str as alloy_sol_types::SolValue>::abi_encode`: the ABI encoding
/// of a `string` value, which depends on its bytes alone. The text is ASCII, so
/// it is valid UTF-8 and the conversion to `str` keeps every byte.
#[verifier::external_body]
pub(crate) fn encode_string(text: &[u8]) -> (r: Vec<u8>)
    requires
        forall|i: int| 0 <= i < text@.len() ==> #[trigger] text@[i] < 128,
    ensures
        r@ == abi_string(text@),
{
    String::from_utf8_lossy(text).abi_encode()
}

} // verus!
