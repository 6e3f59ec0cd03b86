//! Checks made when the node registers the contract on the ledger.

use crate::types::bytes_eq;
use vstd::prelude::*;
use vstd::string::StringExecFns;

verus! {

/// Lowercase hexadecimal digit of `n` (below sixteen).
pub open spec fn hex_digit(n: nat) -> char {
    "0123456789abcdef"@[n as int]
}

/// Two lowercase hexadecimal digits per byte, most significant first.
pub open spec fn hex_of(b: Seq<u8>) -> Seq<char>
    decreases b.len(),
{
    if b.len() == 0 {
        Seq::empty()
    } else {
        hex_of(b.drop_last()) + seq![hex_digit(b.last() as nat / 16), hex_digit(b.last() as nat % 16)]
    }
}

/// Relies on hex::encode: two lowercase hexadecimal digits per byte, in order.
#[verifier::external_body]
fn to_hex(b: &Vec<u8>) -> (r: String)
    ensures
        r@ == hex_of(b@),
{
    hex::encode(b)
}

pub open spec fn program_id_message(name: Seq<char>, onchain: Seq<u8>, expected: Seq<u8>) -> Seq<char> {
    "Invalid program_id for "@ + name + ". On-chain version is "@ + hex_of(onchain)
        + ", expected "@ + hex_of(expected)
}

/// Checks that the program registered on chain for contract `name` is the
/// one this node proves with.
pub fn check_program_id(name: &String, onchain: &Vec<u8>, expected: &Vec<u8>) -> (r: Result<(), String>)
    ensures
        r is Ok <==> onchain@ == expected@,
        r matches Err(m) ==> m@ == program_id_message(name@, onchain@, expected@),
{
    if bytes_eq(onchain, expected) {
        return Ok(());
    }
    proof {
        reveal_strlit("Invalid program_id for ");
        reveal_strlit(". On-chain version is ");
        reveal_strlit(", expected ");
    }
    let mut m = String::from_str("Invalid program_id for ");
    m.append(name.as_str());
    m.append(". On-chain version is ");
    m.append(to_hex(onchain).as_str());
    m.append(", expected ");
    m.append(to_hex(expected).as_str());
    Err(m)
}

} // verus!
