//! What the spellings of the units are made of: that each name under which a unit is
//! written is read as that unit, and that no unit is spelled with nothing.

use crate::grammar::System;
use crate::render::unit_name;
use crate::scanner::is_unit_byte;
use crate::units::{binary_level, decimal_level, spelled};
use vstd::prelude::*;
use vstd::string::StringSliceAdditionalSpecFns;
use vstd::utf8::{is_ascii_chars, is_ascii_chars_encode_utf8};

verus! {

/// The bytes of a text of ASCII characters.
pub open spec fn ascii_bytes(text: Seq<char>) -> Seq<u8> {
    Seq::new(text.len(), |i: int| text[i] as u8)
}

/// The bytes of a text of ASCII characters are its characters.
pub proof fn lemma_ascii_literal(name: &str)
    requires
        is_ascii_chars(name@),
    ensures
        name.spec_bytes() == ascii_bytes(name@),
        name.spec_bytes().len() == name@.len(),
{
    is_ascii_chars_encode_utf8(name@);
    assert(name.spec_bytes() =~= ascii_bytes(name@));
}

/// What a token that spells `name` is like: as long as the name, and with the same
/// first byte.
proof fn lemma_spelling(token: Seq<u8>, name: &str, len: nat, first: u8)
    requires
        is_ascii_chars(name@),
        name@.len() == len,
        len > 0,
        name@[0] as u8 == first,
    ensures
        spelled(token, name) ==> token.len() == len && token[0] == first,
{
    lemma_ascii_literal(name);
    assert(ascii_bytes(name@)[0] == name@[0] as u8);
}

/// How long a token is that spells the decimal unit of level 0, and how it starts.
proof fn lemma_decimal_spellings_0(token: Seq<u8>)
    ensures
        spelled(token, "bps") ==> token.len() == 3 && token[0] == 98,
        spelled(token, "bit/s") ==> token.len() == 5 && token[0] == 98,
        spelled(token, "b/s") ==> token.len() == 3 && token[0] == 98,
{
    reveal_strlit("bps");
    lemma_spelling(token, "bps", 3, 98);
    reveal_strlit("bit/s");
    lemma_spelling(token, "bit/s", 5, 98);
    reveal_strlit("b/s");
    lemma_spelling(token, "b/s", 3, 98);
}

/// How long a token is that spells the decimal unit of level 1, and how it starts.
proof fn lemma_decimal_spellings_1(token: Seq<u8>)
    ensures
        spelled(token, "kbps") ==> token.len() == 4 && token[0] == 107,
        spelled(token, "Kbps") ==> token.len() == 4 && token[0] == 75,
        spelled(token, "kbit/s") ==> token.len() == 6 && token[0] == 107,
        spelled(token, "Kbit/s") ==> token.len() == 6 && token[0] == 75,
        spelled(token, "kb/s") ==> token.len() == 4 && token[0] == 107,
        spelled(token, "Kb/s") ==> token.len() == 4 && token[0] == 75,
{
    reveal_strlit("kbps");
    lemma_spelling(token, "kbps", 4, 107);
    reveal_strlit("Kbps");
    lemma_spelling(token, "Kbps", 4, 75);
    reveal_strlit("kbit/s");
    lemma_spelling(token, "kbit/s", 6, 107);
    reveal_strlit("Kbit/s");
    lemma_spelling(token, "Kbit/s", 6, 75);
    reveal_strlit("kb/s");
    lemma_spelling(token, "kb/s", 4, 107);
    reveal_strlit("Kb/s");
    lemma_spelling(token, "Kb/s", 4, 75);
}

/// How long a token is that spells the decimal unit of level 2, and how it starts.
proof fn lemma_decimal_spellings_2(token: Seq<u8>)
    ensures
        spelled(token, "Mbps") ==> token.len() == 4 && token[0] == 77,
        spelled(token, "mbps") ==> token.len() == 4 && token[0] == 109,
        spelled(token, "Mbit/s") ==> token.len() == 6 && token[0] == 77,
        spelled(token, "mbit/s") ==> token.len() == 6 && token[0] == 109,
        spelled(token, "Mb/s") ==> token.len() == 4 && token[0] == 77,
        spelled(token, "mb/s") ==> token.len() == 4 && token[0] == 109,
{
    reveal_strlit("Mbps");
    lemma_spelling(token, "Mbps", 4, 77);
    reveal_strlit("mbps");
    lemma_spelling(token, "mbps", 4, 109);
    reveal_strlit("Mbit/s");
    lemma_spelling(token, "Mbit/s", 6, 77);
    reveal_strlit("mbit/s");
    lemma_spelling(token, "mbit/s", 6, 109);
    reveal_strlit("Mb/s");
    lemma_spelling(token, "Mb/s", 4, 77);
    reveal_strlit("mb/s");
    lemma_spelling(token, "mb/s", 4, 109);
}

/// How long a token is that spells the decimal unit of level 3, and how it starts.
proof fn lemma_decimal_spellings_3(token: Seq<u8>)
    ensures
        spelled(token, "Gbps") ==> token.len() == 4 && token[0] == 71,
        spelled(token, "gbps") ==> token.len() == 4 && token[0] == 103,
        spelled(token, "Gbit/s") ==> token.len() == 6 && token[0] == 71,
        spelled(token, "gbit/s") ==> token.len() == 6 && token[0] == 103,
        spelled(token, "Gb/s") ==> token.len() == 4 && token[0] == 71,
        spelled(token, "gb/s") ==> token.len() == 4 && token[0] == 103,
{
    reveal_strlit("Gbps");
    lemma_spelling(token, "Gbps", 4, 71);
    reveal_strlit("gbps");
    lemma_spelling(token, "gbps", 4, 103);
    reveal_strlit("Gbit/s");
    lemma_spelling(token, "Gbit/s", 6, 71);
    reveal_strlit("gbit/s");
    lemma_spelling(token, "gbit/s", 6, 103);
    reveal_strlit("Gb/s");
    lemma_spelling(token, "Gb/s", 4, 71);
    reveal_strlit("gb/s");
    lemma_spelling(token, "gb/s", 4, 103);
}

/// How long a token is that spells the decimal unit of level 4, and how it starts.
proof fn lemma_decimal_spellings_4(token: Seq<u8>)
    ensures
        spelled(token, "Tbps") ==> token.len() == 4 && token[0] == 84,
        spelled(token, "tbps") ==> token.len() == 4 && token[0] == 116,
        spelled(token, "Tbit/s") ==> token.len() == 6 && token[0] == 84,
        spelled(token, "tbit/s") ==> token.len() == 6 && token[0] == 116,
        spelled(token, "Tb/s") ==> token.len() == 4 && token[0] == 84,
        spelled(token, "tb/s") ==> token.len() == 4 && token[0] == 116,
{
    reveal_strlit("Tbps");
    lemma_spelling(token, "Tbps", 4, 84);
    reveal_strlit("tbps");
    lemma_spelling(token, "tbps", 4, 116);
    reveal_strlit("Tbit/s");
    lemma_spelling(token, "Tbit/s", 6, 84);
    reveal_strlit("tbit/s");
    lemma_spelling(token, "tbit/s", 6, 116);
    reveal_strlit("Tb/s");
    lemma_spelling(token, "Tb/s", 4, 84);
    reveal_strlit("tb/s");
    lemma_spelling(token, "tb/s", 4, 116);
}

/// How long a token is that spells the binary unit of level 0, and how it starts.
proof fn lemma_binary_spellings_0(token: Seq<u8>)
    ensures
        spelled(token, "Bps") ==> token.len() == 3 && token[0] == 66,
        spelled(token, "Byte/s") ==> token.len() == 6 && token[0] == 66,
        spelled(token, "B/s") ==> token.len() == 3 && token[0] == 66,
        spelled(token, "ops") ==> token.len() == 3 && token[0] == 111,
        spelled(token, "o/s") ==> token.len() == 3 && token[0] == 111,
{
    reveal_strlit("Bps");
    lemma_spelling(token, "Bps", 3, 66);
    reveal_strlit("Byte/s");
    lemma_spelling(token, "Byte/s", 6, 66);
    reveal_strlit("B/s");
    lemma_spelling(token, "B/s", 3, 66);
    reveal_strlit("ops");
    lemma_spelling(token, "ops", 3, 111);
    reveal_strlit("o/s");
    lemma_spelling(token, "o/s", 3, 111);
}

/// How long a token is that spells the binary unit of level 1, and how it starts.
proof fn lemma_binary_spellings_1(token: Seq<u8>)
    ensures
        spelled(token, "kiBps") ==> token.len() == 5 && token[0] == 107,
        spelled(token, "KiBps") ==> token.len() == 5 && token[0] == 75,
        spelled(token, "kiByte/s") ==> token.len() == 8 && token[0] == 107,
        spelled(token, "KiByte/s") ==> token.len() == 8 && token[0] == 75,
        spelled(token, "kiB/s") ==> token.len() == 5 && token[0] == 107,
        spelled(token, "KiB/s") ==> token.len() == 5 && token[0] == 75,
        spelled(token, "kiops") ==> token.len() == 5 && token[0] == 107,
        spelled(token, "Kiops") ==> token.len() == 5 && token[0] == 75,
        spelled(token, "kio/s") ==> token.len() == 5 && token[0] == 107,
        spelled(token, "Kio/s") ==> token.len() == 5 && token[0] == 75,
{
    reveal_strlit("kiBps");
    lemma_spelling(token, "kiBps", 5, 107);
    reveal_strlit("KiBps");
    lemma_spelling(token, "KiBps", 5, 75);
    reveal_strlit("kiByte/s");
    lemma_spelling(token, "kiByte/s", 8, 107);
    reveal_strlit("KiByte/s");
    lemma_spelling(token, "KiByte/s", 8, 75);
    reveal_strlit("kiB/s");
    lemma_spelling(token, "kiB/s", 5, 107);
    reveal_strlit("KiB/s");
    lemma_spelling(token, "KiB/s", 5, 75);
    reveal_strlit("kiops");
    lemma_spelling(token, "kiops", 5, 107);
    reveal_strlit("Kiops");
    lemma_spelling(token, "Kiops", 5, 75);
    reveal_strlit("kio/s");
    lemma_spelling(token, "kio/s", 5, 107);
    reveal_strlit("Kio/s");
    lemma_spelling(token, "Kio/s", 5, 75);
}

/// How long a token is that spells the binary unit of level 2, and how it starts.
proof fn lemma_binary_spellings_2(token: Seq<u8>)
    ensures
        spelled(token, "MiBps") ==> token.len() == 5 && token[0] == 77,
        spelled(token, "miBps") ==> token.len() == 5 && token[0] == 109,
        spelled(token, "MiByte/s") ==> token.len() == 8 && token[0] == 77,
        spelled(token, "miByte/s") ==> token.len() == 8 && token[0] == 109,
        spelled(token, "MiB/s") ==> token.len() == 5 && token[0] == 77,
        spelled(token, "miB/s") ==> token.len() == 5 && token[0] == 109,
        spelled(token, "Miops") ==> token.len() == 5 && token[0] == 77,
        spelled(token, "miops") ==> token.len() == 5 && token[0] == 109,
        spelled(token, "Mio/s") ==> token.len() == 5 && token[0] == 77,
        spelled(token, "mio/s") ==> token.len() == 5 && token[0] == 109,
{
    reveal_strlit("MiBps");
    lemma_spelling(token, "MiBps", 5, 77);
    reveal_strlit("miBps");
    lemma_spelling(token, "miBps", 5, 109);
    reveal_strlit("MiByte/s");
    lemma_spelling(token, "MiByte/s", 8, 77);
    reveal_strlit("miByte/s");
    lemma_spelling(token, "miByte/s", 8, 109);
    reveal_strlit("MiB/s");
    lemma_spelling(token, "MiB/s", 5, 77);
    reveal_strlit("miB/s");
    lemma_spelling(token, "miB/s", 5, 109);
    reveal_strlit("Miops");
    lemma_spelling(token, "Miops", 5, 77);
    reveal_strlit("miops");
    lemma_spelling(token, "miops", 5, 109);
    reveal_strlit("Mio/s");
    lemma_spelling(token, "Mio/s", 5, 77);
    reveal_strlit("mio/s");
    lemma_spelling(token, "mio/s", 5, 109);
}

/// How long a token is that spells the binary unit of level 3, and how it starts.
proof fn lemma_binary_spellings_3(token: Seq<u8>)
    ensures
        spelled(token, "GiBps") ==> token.len() == 5 && token[0] == 71,
        spelled(token, "giBps") ==> token.len() == 5 && token[0] == 103,
        spelled(token, "GiByte/s") ==> token.len() == 8 && token[0] == 71,
        spelled(token, "giByte/s") ==> token.len() == 8 && token[0] == 103,
        spelled(token, "GiB/s") ==> token.len() == 5 && token[0] == 71,
        spelled(token, "giB/s") ==> token.len() == 5 && token[0] == 103,
        spelled(token, "Giops") ==> token.len() == 5 && token[0] == 71,
        spelled(token, "giops") ==> token.len() == 5 && token[0] == 103,
        spelled(token, "Gio/s") ==> token.len() == 5 && token[0] == 71,
        spelled(token, "gio/s") ==> token.len() == 5 && token[0] == 103,
{
    reveal_strlit("GiBps");
    lemma_spelling(token, "GiBps", 5, 71);
    reveal_strlit("giBps");
    lemma_spelling(token, "giBps", 5, 103);
    reveal_strlit("GiByte/s");
    lemma_spelling(token, "GiByte/s", 8, 71);
    reveal_strlit("giByte/s");
    lemma_spelling(token, "giByte/s", 8, 103);
    reveal_strlit("GiB/s");
    lemma_spelling(token, "GiB/s", 5, 71);
    reveal_strlit("giB/s");
    lemma_spelling(token, "giB/s", 5, 103);
    reveal_strlit("Giops");
    lemma_spelling(token, "Giops", 5, 71);
    reveal_strlit("giops");
    lemma_spelling(token, "giops", 5, 103);
    reveal_strlit("Gio/s");
    lemma_spelling(token, "Gio/s", 5, 71);
    reveal_strlit("gio/s");
    lemma_spelling(token, "gio/s", 5, 103);
}

/// How long a token is that spells the binary unit of level 4, and how it starts.
proof fn lemma_binary_spellings_4(token: Seq<u8>)
    ensures
        spelled(token, "TiBps") ==> token.len() == 5 && token[0] == 84,
        spelled(token, "tiBps") ==> token.len() == 5 && token[0] == 116,
        spelled(token, "TiByte/s") ==> token.len() == 8 && token[0] == 84,
        spelled(token, "tiByte/s") ==> token.len() == 8 && token[0] == 116,
        spelled(token, "TiB/s") ==> token.len() == 5 && token[0] == 84,
        spelled(token, "tiB/s") ==> token.len() == 5 && token[0] == 116,
        spelled(token, "Tiops") ==> token.len() == 5 && token[0] == 84,
        spelled(token, "tiops") ==> token.len() == 5 && token[0] == 116,
        spelled(token, "Tio/s") ==> token.len() == 5 && token[0] == 84,
        spelled(token, "tio/s") ==> token.len() == 5 && token[0] == 116,
{
    reveal_strlit("TiBps");
    lemma_spelling(token, "TiBps", 5, 84);
    reveal_strlit("tiBps");
    lemma_spelling(token, "tiBps", 5, 116);
    reveal_strlit("TiByte/s");
    lemma_spelling(token, "TiByte/s", 8, 84);
    reveal_strlit("tiByte/s");
    lemma_spelling(token, "tiByte/s", 8, 116);
    reveal_strlit("TiB/s");
    lemma_spelling(token, "TiB/s", 5, 84);
    reveal_strlit("tiB/s");
    lemma_spelling(token, "tiB/s", 5, 116);
    reveal_strlit("Tiops");
    lemma_spelling(token, "Tiops", 5, 84);
    reveal_strlit("tiops");
    lemma_spelling(token, "tiops", 5, 116);
    reveal_strlit("Tio/s");
    lemma_spelling(token, "Tio/s", 5, 84);
    reveal_strlit("tio/s");
    lemma_spelling(token, "tio/s", 5, 116);
}

/// What the scanner and the table make of the name under which a unit is written.
pub open spec fn name_is_read(system: System, level: nat) -> bool {
    let name = ascii_bytes(unit_name(system, level));
    &&& 0 < name.len() <= 5
    &&& is_ascii_chars(unit_name(system, level))
    &&& forall|i: int| 0 <= i < name.len() ==> is_unit_byte(#[trigger] name[i])
    &&& match system {
        System::Decimal => decimal_level(name) == Some(level),
        System::Binary => binary_level(name) == Some(level),
    }
}

proof fn lemma_decimal_name_0()
    ensures
        name_is_read(System::Decimal, 0),
{
    let name = ascii_bytes(unit_name(System::Decimal, 0));
    reveal_strlit("bps");
    lemma_ascii_literal("bps");
    assert(name =~= "bps".spec_bytes());
    assert(name.len() == 3 && name[0] == 98);
    assert(spelled(name, "bps"));
    reveal(decimal_level);
}

proof fn lemma_decimal_name_1()
    ensures
        name_is_read(System::Decimal, 1),
{
    let name = ascii_bytes(unit_name(System::Decimal, 1));
    reveal_strlit("kbps");
    lemma_ascii_literal("kbps");
    assert(name =~= "kbps".spec_bytes());
    assert(name.len() == 4 && name[0] == 107);
    assert(spelled(name, "kbps"));
    lemma_decimal_spellings_0(name);
    reveal(decimal_level);
}

proof fn lemma_decimal_name_2()
    ensures
        name_is_read(System::Decimal, 2),
{
    let name = ascii_bytes(unit_name(System::Decimal, 2));
    reveal_strlit("Mbps");
    lemma_ascii_literal("Mbps");
    assert(name =~= "Mbps".spec_bytes());
    assert(name.len() == 4 && name[0] == 77);
    assert(spelled(name, "Mbps"));
    lemma_decimal_spellings_0(name);
    lemma_decimal_spellings_1(name);
    reveal(decimal_level);
}

proof fn lemma_decimal_name_3()
    ensures
        name_is_read(System::Decimal, 3),
{
    let name = ascii_bytes(unit_name(System::Decimal, 3));
    reveal_strlit("Gbps");
    lemma_ascii_literal("Gbps");
    assert(name =~= "Gbps".spec_bytes());
    assert(name.len() == 4 && name[0] == 71);
    assert(spelled(name, "Gbps"));
    lemma_decimal_spellings_0(name);
    lemma_decimal_spellings_1(name);
    lemma_decimal_spellings_2(name);
    reveal(decimal_level);
}

proof fn lemma_decimal_name_4()
    ensures
        name_is_read(System::Decimal, 4),
{
    let name = ascii_bytes(unit_name(System::Decimal, 4));
    reveal_strlit("Tbps");
    lemma_ascii_literal("Tbps");
    assert(name =~= "Tbps".spec_bytes());
    assert(name.len() == 4 && name[0] == 84);
    assert(spelled(name, "Tbps"));
    lemma_decimal_spellings_0(name);
    lemma_decimal_spellings_1(name);
    lemma_decimal_spellings_2(name);
    lemma_decimal_spellings_3(name);
    reveal(decimal_level);
}

proof fn lemma_binary_name_0()
    ensures
        name_is_read(System::Binary, 0),
{
    let name = ascii_bytes(unit_name(System::Binary, 0));
    reveal_strlit("B/s");
    lemma_ascii_literal("B/s");
    assert(name =~= "B/s".spec_bytes());
    assert(name.len() == 3 && name[0] == 66);
    assert(spelled(name, "B/s"));
    reveal(binary_level);
}

proof fn lemma_binary_name_1()
    ensures
        name_is_read(System::Binary, 1),
{
    let name = ascii_bytes(unit_name(System::Binary, 1));
    reveal_strlit("kiB/s");
    lemma_ascii_literal("kiB/s");
    assert(name =~= "kiB/s".spec_bytes());
    assert(name.len() == 5 && name[0] == 107);
    assert(spelled(name, "kiB/s"));
    lemma_binary_spellings_0(name);
    reveal(binary_level);
}

proof fn lemma_binary_name_2()
    ensures
        name_is_read(System::Binary, 2),
{
    let name = ascii_bytes(unit_name(System::Binary, 2));
    reveal_strlit("MiB/s");
    lemma_ascii_literal("MiB/s");
    assert(name =~= "MiB/s".spec_bytes());
    assert(name.len() == 5 && name[0] == 77);
    assert(spelled(name, "MiB/s"));
    lemma_binary_spellings_0(name);
    lemma_binary_spellings_1(name);
    reveal(binary_level);
}

proof fn lemma_binary_name_3()
    ensures
        name_is_read(System::Binary, 3),
{
    let name = ascii_bytes(unit_name(System::Binary, 3));
    reveal_strlit("GiB/s");
    lemma_ascii_literal("GiB/s");
    assert(name =~= "GiB/s".spec_bytes());
    assert(name.len() == 5 && name[0] == 71);
    assert(spelled(name, "GiB/s"));
    lemma_binary_spellings_0(name);
    lemma_binary_spellings_1(name);
    lemma_binary_spellings_2(name);
    reveal(binary_level);
}

proof fn lemma_binary_name_4()
    ensures
        name_is_read(System::Binary, 4),
{
    let name = ascii_bytes(unit_name(System::Binary, 4));
    reveal_strlit("TiB/s");
    lemma_ascii_literal("TiB/s");
    assert(name =~= "TiB/s".spec_bytes());
    assert(name.len() == 5 && name[0] == 84);
    assert(spelled(name, "TiB/s"));
    lemma_binary_spellings_0(name);
    lemma_binary_spellings_1(name);
    lemma_binary_spellings_2(name);
    lemma_binary_spellings_3(name);
    reveal(binary_level);
}

/// The name under which a unit is written is read as that unit.
pub proof fn lemma_name_is_read(system: System, level: nat)
    requires
        level <= 4,
    ensures
        name_is_read(system, level),
{
    match system {
        System::Decimal => {
            if level == 0 {
                lemma_decimal_name_0();
            } else if level == 1 {
                lemma_decimal_name_1();
            } else if level == 2 {
                lemma_decimal_name_2();
            } else if level == 3 {
                lemma_decimal_name_3();
            } else {
                lemma_decimal_name_4();
            }
        },
        System::Binary => {
            if level == 0 {
                lemma_binary_name_0();
            } else if level == 1 {
                lemma_binary_name_1();
            } else if level == 2 {
                lemma_binary_name_2();
            } else if level == 3 {
                lemma_binary_name_3();
            } else {
                lemma_binary_name_4();
            }
        },
    }
}

/// A unit has a name: the empty text spells none.
pub proof fn lemma_empty_is_no_unit()
    ensures
        decimal_level(Seq::<u8>::empty()) is None,
        binary_level(Seq::<u8>::empty()) is None,
{
    let nothing = Seq::<u8>::empty();
    lemma_decimal_spellings_0(nothing);
    lemma_decimal_spellings_1(nothing);
    lemma_decimal_spellings_2(nothing);
    lemma_decimal_spellings_3(nothing);
    lemma_decimal_spellings_4(nothing);
    lemma_binary_spellings_0(nothing);
    lemma_binary_spellings_1(nothing);
    lemma_binary_spellings_2(nothing);
    lemma_binary_spellings_3(nothing);
    lemma_binary_spellings_4(nothing);
    reveal(decimal_level);
    reveal(binary_level);
}

} // verus!
