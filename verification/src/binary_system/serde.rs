//! A text codec for rates in the binary prefix system: a rate is read from one text
//! token and written as one, and an absent rate stays absent.

use crate::binary_system::{format_binary_bandwidth, parse_binary_bandwidth};
use crate::error::InvalidValue;
use crate::grammar::{parse, System};
use crate::rate::Bandwidth;
use crate::render::decimal_text;
use vstd::prelude::*;
use vstd::string::*;

verus! {

/// A wrapper type that marks a value to be written and read in human-readable form.
#[derive(Copy, Clone, Debug, Eq, Hash, PartialEq)]
pub struct Serde<T>(T);

impl<T> View for Serde<T> {
    type V = T;

    closed spec fn view(&self) -> T {
        self.0
    }
}

impl<T> Serde<T> {
    /// Wraps a value.
    pub fn new(val: T) -> (wrapped: Serde<T>)
        ensures
            wrapped@ == val,
    {
        Serde(val)
    }

    /// Consumes the wrapper, returning the inner value.
    pub fn into_inner(self) -> (val: T)
        ensures
            val == self@,
    {
        self.0
    }

    /// Returns a reference to the inner value.
    pub fn get_ref(&self) -> (val: &T)
        ensures
            *val == self@,
    {
        &self.0
    }
}

/// What reading the text `v` as a rate in `system` gives: the rate that the text stands
/// for, or the text itself where it stands for none.
pub open spec fn decoded(
    v: Seq<char>,
    bytes: Seq<u8>,
    system: System,
    result: Result<Bandwidth, InvalidValue>,
) -> bool {
    match result {
        Ok(rate) => parse(bytes, system) == Ok::<nat, crate::error::Failure>(rate@),
        Err(invalid) => parse(bytes, system) is Err && invalid.unexpected@ == v,
    }
}

impl Serde<Bandwidth> {
    /// Reads a rate from a text in the binary prefix system.
    pub fn deserialize(v: &str) -> (result: Result<Serde<Bandwidth>, InvalidValue>)
        ensures
            match result {
                Ok(wrapped) => decoded(v@, v.spec_bytes(), System::Binary, Ok(wrapped@)),
                Err(invalid) => decoded(v@, v.spec_bytes(), System::Binary, Err(invalid)),
            },
    {
        match parse_binary_bandwidth(v) {
            Ok(rate) => Ok(Serde(rate)),
            Err(_) => Err(InvalidValue { unexpected: v.to_owned() }),
        }
    }

    /// Writes the rate as text in the binary prefix system, in decimal form.
    pub fn serialize(&self) -> (text: String)
        ensures
            text@ == decimal_text(self@@, System::Binary, None),
    {
        format_binary_bandwidth(self.0).to_string()
    }
}

/// Reads a rate from a text in the binary prefix system.
pub fn deserialize(v: &str) -> (result: Result<Bandwidth, InvalidValue>)
    ensures
        decoded(v@, v.spec_bytes(), System::Binary, result),
{
    match Serde::<Bandwidth>::deserialize(v) {
        Ok(wrapped) => Ok(wrapped.into_inner()),
        Err(invalid) => Err(invalid),
    }
}

/// Writes a rate as text in the binary prefix system, in decimal form.
pub fn serialize(d: &Bandwidth) -> (text: String)
    ensures
        text@ == decimal_text(d@, System::Binary, None),
{
    Serde::new(*d).serialize()
}

/// Reads a rate that may be absent: no text gives no rate.
pub fn deserialize_option(v: Option<&str>) -> (result: Result<Option<Bandwidth>, InvalidValue>)
    ensures
        match v {
            None => result == Ok::<Option<Bandwidth>, InvalidValue>(None),
            Some(text) => match result {
                Ok(Some(rate)) => decoded(text@, text.spec_bytes(), System::Binary, Ok(rate)),
                Ok(None) => false,
                Err(invalid) => decoded(text@, text.spec_bytes(), System::Binary, Err(invalid)),
            },
        },
{
    match v {
        None => Ok(None),
        Some(text) => match deserialize(text) {
            Ok(rate) => Ok(Some(rate)),
            Err(invalid) => Err(invalid),
        },
    }
}

/// Writes a rate that may be absent: no rate gives no text.
pub fn serialize_option(d: &Option<Bandwidth>) -> (text: Option<String>)
    ensures
        match d {
            None => text is None,
            Some(rate) => text is Some && text->Some_0@ == decimal_text(
                rate@,
                System::Binary,
                None,
            ),
        },
{
    match d {
        None => None,
        Some(rate) => Some(serialize(rate)),
    }
}

} // verus!
