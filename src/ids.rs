//! Owner identifiers: 24-digit hexadecimal object ids.

use vstd::prelude::*;

use crate::error::AppError;

verus! {

pub open spec fn is_hex_digit(c: char) -> bool {
    ('0' <= c && c <= '9') || ('a' <= c && c <= 'f') || ('A' <= c && c <= 'F')
}

/// Text of an object id: exactly 24 hexadecimal digits, in either case.
pub open spec fn is_object_id_text(s: Seq<char>) -> bool {
    s.len() == 24 && forall|i: int| 0 <= i < s.len() ==> is_hex_digit(#[trigger] s[i])
}

/// Relies on bson's `ObjectId::parse_str`: it hex-decodes the text (digits
/// of either case) and accepts it exactly when that yields twelve bytes.
#[verifier::external_body]
fn object_id_parses(s: &str) -> (r: bool)
    ensures
        r == is_object_id_text(s@),
{
    bson::oid::ObjectId::parse_str(s).is_ok()
}

/// Accepts a well-formed object id and refuses anything else with a
/// validation error.
pub fn validate_object_id(id: &String) -> (r: Result<(), AppError>)
    ensures
        r is Ok <==> is_object_id_text(id@),
        r matches Err(e) ==> e is ValidationError,
{
    if object_id_parses(id.as_str()) {
        Ok(())
    } else {
        Err(AppError::ValidationError("Invalid user ID".to_string()))
    }
}

} // verus!
