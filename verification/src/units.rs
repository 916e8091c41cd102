//! The units that are understood, each with its accepted spellings, and the names under
//! which rates are written out.

use crate::scanner::spells;
use vstd::prelude::*;
use vstd::string::StringSliceAdditionalSpecFns;

verus! {

/// The bytes of `token` are the text `name`.
pub open spec fn spelled(token: Seq<u8>, name: &str) -> bool {
    token == name.spec_bytes()
}

/// The level of the decimal unit that `token` spells: 0 for bits per second, then one more
/// for each factor of a thousand up to 4 for terabits per second. A spelling matches as a
/// whole and by case.
#[verifier::opaque]
pub open spec fn decimal_level(token: Seq<u8>) -> Option<nat> {
    if spelled(token, "bps")
        || spelled(token, "bit/s")
        || spelled(token, "b/s") {
        Some(0)
    } else if spelled(token, "kbps")
        || spelled(token, "Kbps")
        || spelled(token, "kbit/s")
        || spelled(token, "Kbit/s")
        || spelled(token, "kb/s")
        || spelled(token, "Kb/s") {
        Some(1)
    } else if spelled(token, "Mbps")
        || spelled(token, "mbps")
        || spelled(token, "Mbit/s")
        || spelled(token, "mbit/s")
        || spelled(token, "Mb/s")
        || spelled(token, "mb/s") {
        Some(2)
    } else if spelled(token, "Gbps")
        || spelled(token, "gbps")
        || spelled(token, "Gbit/s")
        || spelled(token, "gbit/s")
        || spelled(token, "Gb/s")
        || spelled(token, "gb/s") {
        Some(3)
    } else if spelled(token, "Tbps")
        || spelled(token, "tbps")
        || spelled(token, "Tbit/s")
        || spelled(token, "tbit/s")
        || spelled(token, "Tb/s")
        || spelled(token, "tb/s") {
        Some(4)
    } else {
        None
    }
}

/// The level of the binary unit that `token` spells: 0 for bytes per second, then one more
/// for each factor of 1024 up to 4 for tebibytes per second. A spelling matches as a whole
/// and by case.
#[verifier::opaque]
pub open spec fn binary_level(token: Seq<u8>) -> Option<nat> {
    if spelled(token, "Bps")
        || spelled(token, "Byte/s")
        || spelled(token, "B/s")
        || spelled(token, "ops")
        || spelled(token, "o/s") {
        Some(0)
    } else if spelled(token, "kiBps")
        || spelled(token, "KiBps")
        || spelled(token, "kiByte/s")
        || spelled(token, "KiByte/s")
        || spelled(token, "kiB/s")
        || spelled(token, "KiB/s")
        || spelled(token, "kiops")
        || spelled(token, "Kiops")
        || spelled(token, "kio/s")
        || spelled(token, "Kio/s") {
        Some(1)
    } else if spelled(token, "MiBps")
        || spelled(token, "miBps")
        || spelled(token, "MiByte/s")
        || spelled(token, "miByte/s")
        || spelled(token, "MiB/s")
        || spelled(token, "miB/s")
        || spelled(token, "Miops")
        || spelled(token, "miops")
        || spelled(token, "Mio/s")
        || spelled(token, "mio/s") {
        Some(2)
    } else if spelled(token, "GiBps")
        || spelled(token, "giBps")
        || spelled(token, "GiByte/s")
        || spelled(token, "giByte/s")
        || spelled(token, "GiB/s")
        || spelled(token, "giB/s")
        || spelled(token, "Giops")
        || spelled(token, "giops")
        || spelled(token, "Gio/s")
        || spelled(token, "gio/s") {
        Some(3)
    } else if spelled(token, "TiBps")
        || spelled(token, "tiBps")
        || spelled(token, "TiByte/s")
        || spelled(token, "tiByte/s")
        || spelled(token, "TiB/s")
        || spelled(token, "tiB/s")
        || spelled(token, "Tiops")
        || spelled(token, "tiops")
        || spelled(token, "Tio/s")
        || spelled(token, "tio/s") {
        Some(4)
    } else {
        None
    }
}

/// 1024 to the power `level`.
pub open spec fn pow1024(level: nat) -> nat
    decreases level,
{
    if level == 0 {
        1
    } else {
        1024 * pow1024((level - 1) as nat)
    }
}

/// 1000 to the power `level`.
pub open spec fn pow1000(level: nat) -> nat
    decreases level,
{
    if level == 0 {
        1
    } else {
        1000 * pow1000((level - 1) as nat)
    }
}

pub proof fn lemma_scales()
    ensures
        pow1024(0) == 1,
        pow1024(1) == 0x400,
        pow1024(2) == 0x10_0000,
        pow1024(3) == 0x4000_0000,
        pow1024(4) == 0x100_0000_0000,
        pow1000(0) == 1,
        pow1000(1) == 1_000,
        pow1000(2) == 1_000_000,
        pow1000(3) == 1_000_000_000,
        pow1000(4) == 1_000_000_000_000,
{
    reveal_with_fuel(pow1024, 5);
    reveal_with_fuel(pow1000, 5);
}

/// The name under which the decimal unit of `level` is written out.
pub open spec fn decimal_name(level: nat) -> Seq<char> {
    if level == 0 {
        "bps"@
    } else if level == 1 {
        "kbps"@
    } else if level == 2 {
        "Mbps"@
    } else if level == 3 {
        "Gbps"@
    } else {
        "Tbps"@
    }
}

/// The name under which the binary unit of `level` is written out.
pub open spec fn binary_name(level: nat) -> Seq<char> {
    if level == 0 {
        "B/s"@
    } else if level == 1 {
        "kiB/s"@
    } else if level == 2 {
        "MiB/s"@
    } else if level == 3 {
        "GiB/s"@
    } else {
        "TiB/s"@
    }
}

/// Looks the bytes from `start` up to `end` up among the decimal units.
pub fn decimal_unit(bytes: &[u8], start: usize, end: usize) -> (level: Option<u8>)
    requires
        start <= end <= bytes@.len(),
    ensures
        match level {
            Some(l) => l <= 4 && decimal_level(bytes@.subrange(start as int, end as int)) == Some(
                l as nat,
            ),
            None => decimal_level(bytes@.subrange(start as int, end as int)) is None,
        },
{
    reveal(decimal_level);
    if spells(bytes, start, end, "bps")
        || spells(bytes, start, end, "bit/s")
        || spells(bytes, start, end, "b/s") {
        Some(0)
    } else if spells(bytes, start, end, "kbps")
        || spells(bytes, start, end, "Kbps")
        || spells(bytes, start, end, "kbit/s")
        || spells(bytes, start, end, "Kbit/s")
        || spells(bytes, start, end, "kb/s")
        || spells(bytes, start, end, "Kb/s") {
        Some(1)
    } else if spells(bytes, start, end, "Mbps")
        || spells(bytes, start, end, "mbps")
        || spells(bytes, start, end, "Mbit/s")
        || spells(bytes, start, end, "mbit/s")
        || spells(bytes, start, end, "Mb/s")
        || spells(bytes, start, end, "mb/s") {
        Some(2)
    } else if spells(bytes, start, end, "Gbps")
        || spells(bytes, start, end, "gbps")
        || spells(bytes, start, end, "Gbit/s")
        || spells(bytes, start, end, "gbit/s")
        || spells(bytes, start, end, "Gb/s")
        || spells(bytes, start, end, "gb/s") {
        Some(3)
    } else if spells(bytes, start, end, "Tbps")
        || spells(bytes, start, end, "tbps")
        || spells(bytes, start, end, "Tbit/s")
        || spells(bytes, start, end, "tbit/s")
        || spells(bytes, start, end, "Tb/s")
        || spells(bytes, start, end, "tb/s") {
        Some(4)
    } else {
        None
    }
}

/// Looks the bytes from `start` up to `end` up among the binary units.
pub fn binary_unit(bytes: &[u8], start: usize, end: usize) -> (level: Option<u8>)
    requires
        start <= end <= bytes@.len(),
    ensures
        match level {
            Some(l) => l <= 4 && binary_level(bytes@.subrange(start as int, end as int)) == Some(
                l as nat,
            ),
            None => binary_level(bytes@.subrange(start as int, end as int)) is None,
        },
{
    reveal(binary_level);
    if spells(bytes, start, end, "Bps")
        || spells(bytes, start, end, "Byte/s")
        || spells(bytes, start, end, "B/s")
        || spells(bytes, start, end, "ops")
        || spells(bytes, start, end, "o/s") {
        Some(0)
    } else if spells(bytes, start, end, "kiBps")
        || spells(bytes, start, end, "KiBps")
        || spells(bytes, start, end, "kiByte/s")
        || spells(bytes, start, end, "KiByte/s")
        || spells(bytes, start, end, "kiB/s")
        || spells(bytes, start, end, "KiB/s")
        || spells(bytes, start, end, "kiops")
        || spells(bytes, start, end, "Kiops")
        || spells(bytes, start, end, "kio/s")
        || spells(bytes, start, end, "Kio/s") {
        Some(1)
    } else if spells(bytes, start, end, "MiBps")
        || spells(bytes, start, end, "miBps")
        || spells(bytes, start, end, "MiByte/s")
        || spells(bytes, start, end, "miByte/s")
        || spells(bytes, start, end, "MiB/s")
        || spells(bytes, start, end, "miB/s")
        || spells(bytes, start, end, "Miops")
        || spells(bytes, start, end, "miops")
        || spells(bytes, start, end, "Mio/s")
        || spells(bytes, start, end, "mio/s") {
        Some(2)
    } else if spells(bytes, start, end, "GiBps")
        || spells(bytes, start, end, "giBps")
        || spells(bytes, start, end, "GiByte/s")
        || spells(bytes, start, end, "giByte/s")
        || spells(bytes, start, end, "GiB/s")
        || spells(bytes, start, end, "giB/s")
        || spells(bytes, start, end, "Giops")
        || spells(bytes, start, end, "giops")
        || spells(bytes, start, end, "Gio/s")
        || spells(bytes, start, end, "gio/s") {
        Some(3)
    } else if spells(bytes, start, end, "TiBps")
        || spells(bytes, start, end, "tiBps")
        || spells(bytes, start, end, "TiByte/s")
        || spells(bytes, start, end, "tiByte/s")
        || spells(bytes, start, end, "TiB/s")
        || spells(bytes, start, end, "tiB/s")
        || spells(bytes, start, end, "Tiops")
        || spells(bytes, start, end, "tiops")
        || spells(bytes, start, end, "Tio/s")
        || spells(bytes, start, end, "tio/s") {
        Some(4)
    } else {
        None
    }
}

/// The name of the decimal unit of `level`.
pub fn decimal_unit_name(level: u8) -> (name: &'static str)
    ensures
        name@ == decimal_name(level as nat),
{
    if level == 0 {
        "bps"
    } else if level == 1 {
        "kbps"
    } else if level == 2 {
        "Mbps"
    } else if level == 3 {
        "Gbps"
    } else {
        "Tbps"
    }
}

/// The name of the binary unit of `level`.
pub fn binary_unit_name(level: u8) -> (name: &'static str)
    ensures
        name@ == binary_name(level as nat),
{
    if level == 0 {
        "B/s"
    } else if level == 1 {
        "kiB/s"
    } else if level == 2 {
        "MiB/s"
    } else if level == 3 {
        "GiB/s"
    } else {
        "TiB/s"
    }
}

} // verus!
