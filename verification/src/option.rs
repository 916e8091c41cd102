//! The text codec of the decimal system for a rate that may be absent.

use crate::binary_system::serde::decoded;
use crate::error::InvalidValue;
use crate::grammar::System;
use crate::rate::Bandwidth;
use crate::render::decimal_text;
use vstd::prelude::*;
use vstd::string::*;

verus! {

/// Writes a rate that may be absent: no rate gives no text.
pub fn serialize(d: &Option<Bandwidth>) -> (text: Option<String>)
    ensures
        match d {
            None => text is None,
            Some(rate) => text is Some && text->Some_0@ == decimal_text(
                rate@,
                System::Decimal,
                None,
            ),
        },
{
    match d {
        None => None,
        Some(rate) => Some(crate::serde::serialize(rate)),
    }
}

/// Reads a rate that may be absent: no text gives no rate.
pub fn deserialize(v: Option<&str>) -> (result: Result<Option<Bandwidth>, InvalidValue>)
    ensures
        match v {
            None => result == Ok::<Option<Bandwidth>, InvalidValue>(None),
            Some(text) => match result {
                Ok(Some(rate)) => decoded(text@, text.spec_bytes(), System::Decimal, Ok(rate)),
                Ok(None) => false,
                Err(invalid) => decoded(text@, text.spec_bytes(), System::Decimal, Err(invalid)),
            },
        },
{
    match v {
        None => Ok(None),
        Some(text) => match crate::serde::deserialize(text) {
            Ok(rate) => Ok(Some(rate)),
            Err(invalid) => Err(invalid),
        },
    }
}

} // verus!
