//! A text codec for rates in the decimal system: a rate is read from one text token
//! and written as one.

use crate::binary_system::serde::decoded;
use crate::error::InvalidValue;
use crate::format::format_bandwidth;
use crate::grammar::System;
use crate::parser::parse_bandwidth;
use crate::rate::Bandwidth;
use crate::render::decimal_text;
use vstd::prelude::*;
use vstd::string::*;

verus! {

/// Reads a rate from a text in the decimal system.
pub fn deserialize(v: &str) -> (result: Result<Bandwidth, InvalidValue>)
    ensures
        decoded(v@, v.spec_bytes(), System::Decimal, result),
{
    match parse_bandwidth(v) {
        Ok(rate) => Ok(rate),
        Err(_) => Err(InvalidValue { unexpected: v.to_owned() }),
    }
}

/// Writes a rate as text in the decimal system, in decimal form.
pub fn serialize(d: &Bandwidth) -> (text: String)
    ensures
        text@ == decimal_text(d@, System::Decimal, None),
{
    format_bandwidth(*d).to_string()
}

} // verus!
