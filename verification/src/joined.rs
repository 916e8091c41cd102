//! Two texts joined by a space: the scanner reads each part of the joined text as it
//! reads the part alone, and the spans of both add up.

use crate::error::Failure;
use crate::grammar::{
    following, lemma_read_span, lemma_scan_numeral, lemma_scan_unit, lemma_seek_digit, numeral_of,
    parse, parse_spans, read_span, scan_numeral, scan_unit, seek_digit, span_bits, Following,
    Numeral, NumeralEnd, Seek, Step, System, UnitEnd, FRACTION_PART_LIMIT,
};
use crate::rate::capacity;
use crate::scanner::{
    byte_at, digit_value, is_digit, is_unit_byte, lemma_whitespace_len, whitespace_len, POINT,
    UNDERSCORE,
};
use crate::spellings::lemma_empty_is_no_unit;
use vstd::prelude::*;

verus! {

/// One text, a space, and another.
pub open spec fn joined(front: Seq<u8>, back: Seq<u8>) -> Seq<u8> {
    front + seq![0x20u8] + back
}

pub proof fn lemma_joined(front: Seq<u8>, back: Seq<u8>)
    ensures
        joined(front, back).len() == front.len() + 1 + back.len(),
        forall|i: int| 0 <= i < front.len() ==> #[trigger] joined(front, back)[i] == front[i],
        joined(front, back)[front.len() as int] == 0x20,
        forall|i: int|
            0 <= i < back.len() ==> #[trigger] joined(front, back)[front.len() + 1 + i] == back[i],
{
}

/// White space in the front text is the same white space in the joined text.
proof fn lemma_whitespace_front(front: Seq<u8>, back: Seq<u8>, at: int)
    requires
        0 <= at < front.len(),
    ensures
        whitespace_len(joined(front, back), at) == whitespace_len(front, at),
{
    lemma_joined(front, back);
    let all = joined(front, back);
    assert(byte_at(all, at) == byte_at(front, at));
    if at + 1 < front.len() {
        assert(byte_at(all, at + 1) == byte_at(front, at + 1));
    } else {
        assert(byte_at(all, at + 1) == 0x20);
        assert(byte_at(front, at + 1) == 0);
    }
    if at + 2 < front.len() {
        assert(byte_at(all, at + 2) == byte_at(front, at + 2));
    } else if at + 2 == front.len() {
        assert(byte_at(all, at + 2) == 0x20);
        assert(byte_at(front, at + 2) == 0);
    } else {
        assert(byte_at(front, at + 2) == 0);
    }
}

/// White space in the back text is the same white space in the joined text.
proof fn lemma_whitespace_back(front: Seq<u8>, back: Seq<u8>, at: int)
    requires
        0 <= at,
    ensures
        whitespace_len(joined(front, back), front.len() + 1 + at) == whitespace_len(back, at),
{
    lemma_joined(front, back);
    let all = joined(front, back);
    let shift = front.len() + 1;
    assert(byte_at(all, shift + at) == byte_at(back, at)) by {
        if at < back.len() {
            assert(all[front.len() + 1 + at] == back[at]);
        }
    }
    assert(byte_at(all, shift + at + 1) == byte_at(back, at + 1)) by {
        if at + 1 < back.len() {
            assert(all[front.len() + 1 + (at + 1)] == back[at + 1]);
        }
    }
    assert(byte_at(all, shift + at + 2) == byte_at(back, at + 2)) by {
        if at + 2 < back.len() {
            assert(all[front.len() + 1 + (at + 2)] == back[at + 2]);
        }
    }
}

proof fn lemma_seek_back(front: Seq<u8>, back: Seq<u8>, at: int)
    requires
        0 <= at <= back.len(),
    ensures
        seek_digit(joined(front, back), front.len() + 1 + at) == match seek_digit(back, at) {
            Seek::Digit(found) => Seek::Digit(found + front.len() + 1),
            Seek::End => Seek::End,
            Seek::Other => Seek::Other,
        },
    decreases back.len() - at,
{
    lemma_joined(front, back);
    lemma_whitespace_back(front, back, at);
    lemma_whitespace_len(back, at);
    if at < back.len() {
        assert(joined(front, back)[front.len() + 1 + at] == back[at]);
        if !is_digit(back[at]) && whitespace_len(back, at) > 0 {
            lemma_seek_back(front, back, at + whitespace_len(back, at));
        }
    }
}

pub proof fn lemma_seek_front(front: Seq<u8>, back: Seq<u8>, at: int)
    requires
        0 <= at <= front.len(),
    ensures
        match seek_digit(front, at) {
            Seek::Digit(found) => seek_digit(joined(front, back), at) == Seek::Digit(found),
            Seek::End => seek_digit(joined(front, back), at) == seek_digit(
                joined(front, back),
                front.len() as int + 1,
            ),
            Seek::Other => true,
        },
    decreases front.len() - at,
{
    lemma_joined(front, back);
    let all = joined(front, back);
    if at < front.len() {
        lemma_whitespace_front(front, back, at);
        lemma_whitespace_len(front, at);
        assert(all[at] == front[at]);
        if !is_digit(front[at]) && whitespace_len(front, at) > 0 {
            lemma_seek_front(front, back, at + whitespace_len(front, at));
        }
    } else {
        assert(all[at] == 0x20);
        assert(byte_at(all, at) == 0x20);
        assert(whitespace_len(all, at) == 1);
    }
}

proof fn lemma_numeral_back(
    front: Seq<u8>,
    back: Seq<u8>,
    at: int,
    so_far: Numeral,
    system: System,
)
    requires
        0 <= at <= back.len(),
    ensures
        match scan_numeral(back, at, so_far, system) {
            NumeralEnd::Unit(numeral, start) => scan_numeral(
                joined(front, back),
                front.len() + 1 + at,
                so_far,
                system,
            ) == NumeralEnd::Unit(numeral, start + front.len() + 1),
            _ => true,
        },
    decreases back.len() - at,
{
    lemma_joined(front, back);
    lemma_whitespace_back(front, back, at);
    lemma_whitespace_len(back, at);
    if at < back.len() {
        let byte = back[at];
        assert(joined(front, back)[front.len() + 1 + at] == byte);
        if is_digit(byte) {
            let digit = digit_value(byte);
            if !so_far.point {
                let whole = 10 * so_far.whole + digit;
                if whole <= u64::MAX {
                    lemma_numeral_back(front, back, at + 1, Numeral { whole, ..so_far }, system);
                }
            } else if so_far.places >= FRACTION_PART_LIMIT {
                lemma_numeral_back(front, back, at + 1, so_far, system);
            } else {
                lemma_numeral_back(
                    front,
                    back,
                    at + 1,
                    Numeral {
                        fraction: 10 * so_far.fraction + digit,
                        places: so_far.places + 1,
                        ..so_far
                    },
                    system,
                );
            }
        } else if whitespace_len(back, at) > 0 {
            lemma_numeral_back(front, back, at + whitespace_len(back, at), so_far, system);
        } else if byte == UNDERSCORE && system == System::Decimal {
            lemma_numeral_back(front, back, at + 1, so_far, system);
        } else if byte == POINT {
            if !so_far.point {
                lemma_numeral_back(front, back, at + 1, Numeral { point: true, ..so_far }, system);
            }
        }
    }
}

proof fn lemma_numeral_front(
    front: Seq<u8>,
    back: Seq<u8>,
    at: int,
    so_far: Numeral,
    system: System,
)
    requires
        0 <= at <= front.len(),
    ensures
        match scan_numeral(front, at, so_far, system) {
            NumeralEnd::Unit(numeral, start) => start < front.len() ==> scan_numeral(
                joined(front, back),
                at,
                so_far,
                system,
            ) == NumeralEnd::Unit(numeral, start),
            _ => true,
        },
    decreases front.len() - at,
{
    lemma_joined(front, back);
    if at < front.len() {
        lemma_whitespace_front(front, back, at);
        lemma_whitespace_len(front, at);
        let byte = front[at];
        assert(joined(front, back)[at] == byte);
        if is_digit(byte) {
            let digit = digit_value(byte);
            if !so_far.point {
                let whole = 10 * so_far.whole + digit;
                if whole <= u64::MAX {
                    lemma_numeral_front(front, back, at + 1, Numeral { whole, ..so_far }, system);
                }
            } else if so_far.places >= FRACTION_PART_LIMIT {
                lemma_numeral_front(front, back, at + 1, so_far, system);
            } else {
                lemma_numeral_front(
                    front,
                    back,
                    at + 1,
                    Numeral {
                        fraction: 10 * so_far.fraction + digit,
                        places: so_far.places + 1,
                        ..so_far
                    },
                    system,
                );
            }
        } else if whitespace_len(front, at) > 0 {
            lemma_numeral_front(front, back, at + whitespace_len(front, at), so_far, system);
        } else if byte == UNDERSCORE && system == System::Decimal {
            lemma_numeral_front(front, back, at + 1, so_far, system);
        } else if byte == POINT {
            if !so_far.point {
                lemma_numeral_front(front, back, at + 1, Numeral { point: true, ..so_far }, system);
            }
        }
    }
}

proof fn lemma_unit_back(front: Seq<u8>, back: Seq<u8>, at: int)
    requires
        0 <= at <= back.len(),
    ensures
        match scan_unit(back, at) {
            UnitEnd::Digit(end) => scan_unit(joined(front, back), front.len() + 1 + at)
                == UnitEnd::Digit(end + front.len() + 1),
            UnitEnd::Space(end) => scan_unit(joined(front, back), front.len() + 1 + at)
                == UnitEnd::Space(end + front.len() + 1),
            UnitEnd::End(end) => scan_unit(joined(front, back), front.len() + 1 + at)
                == UnitEnd::End(end + front.len() + 1),
            UnitEnd::Invalid(_) => true,
        },
    decreases back.len() - at,
{
    lemma_joined(front, back);
    lemma_whitespace_back(front, back, at);
    if at < back.len() {
        assert(joined(front, back)[front.len() + 1 + at] == back[at]);
        if !is_digit(back[at]) && whitespace_len(back, at) == 0 && is_unit_byte(back[at]) {
            lemma_unit_back(front, back, at + 1);
        }
    }
}

proof fn lemma_unit_front(front: Seq<u8>, back: Seq<u8>, at: int)
    requires
        0 <= at <= front.len(),
    ensures
        match scan_unit(front, at) {
            UnitEnd::Digit(end) => scan_unit(joined(front, back), at) == UnitEnd::Digit(end),
            UnitEnd::Space(end) => scan_unit(joined(front, back), at) == UnitEnd::Space(end),
            UnitEnd::End(end) => scan_unit(joined(front, back), at) == UnitEnd::Space(end),
            UnitEnd::Invalid(_) => true,
        },
    decreases front.len() - at,
{
    lemma_joined(front, back);
    let all = joined(front, back);
    if at < front.len() {
        lemma_whitespace_front(front, back, at);
        assert(all[at] == front[at]);
        if !is_digit(front[at]) && whitespace_len(front, at) == 0 && is_unit_byte(front[at]) {
            lemma_unit_front(front, back, at + 1);
        }
    } else {
        assert(all[at] == 0x20);
        assert(byte_at(all, at) == 0x20);
        assert(whitespace_len(all, at) == 1);
    }
}

/// What follows a span, `by` bytes further on.
pub open spec fn moved(after: Following, by: int) -> Following {
    match after {
        Following::End => Following::End,
        Following::Span { first, at } => Following::Span { first, at: at + by },
        Following::NumberExpected(from) => Following::NumberExpected(from + by),
    }
}

/// The end of a unit, `by` bytes further on.
pub open spec fn moved_end(end: UnitEnd, by: int) -> UnitEnd {
    match end {
        UnitEnd::Digit(at) => UnitEnd::Digit(at + by),
        UnitEnd::Space(at) => UnitEnd::Space(at + by),
        UnitEnd::End(at) => UnitEnd::End(at + by),
        UnitEnd::Invalid(at) => UnitEnd::Invalid(at + by),
    }
}

/// What follows a unit of the back text follows it in the joined text.
proof fn lemma_following_back(front: Seq<u8>, back: Seq<u8>, start: int)
    requires
        0 <= start <= back.len(),
        !(scan_unit(back, start) is Invalid),
    ensures
        following(joined(front, back), moved_end(scan_unit(back, start), front.len() as int + 1))
            == moved(following(back, scan_unit(back, start)), front.len() as int + 1),
{
    let all = joined(front, back);
    let shift = front.len() as int + 1;
    lemma_joined(front, back);
    lemma_scan_unit(back, start);
    let end = scan_unit(back, start);
    lemma_whitespace_back(front, back, end.at());
    lemma_whitespace_len(back, end.at());
    match end {
        UnitEnd::Space(space) => {
            let from = space + whitespace_len(back, space);
            lemma_seek_back(front, back, from);
            lemma_seek_digit(back, from);
            match seek_digit(back, from) {
                Seek::Digit(next) => {
                    assert(all[front.len() + 1 + next] == back[next]);
                },
                _ => {},
            }
        },
        UnitEnd::Digit(next) => {
            assert(all[front.len() + 1 + next] == back[next]);
        },
        _ => {},
    }
}

/// A span of the back text is the same span in the joined text.
proof fn lemma_read_span_back(front: Seq<u8>, back: Seq<u8>, at: int, first: nat, system: System)
    requires
        0 <= at <= back.len(),
    ensures
        match read_span(back, at, first, system) {
            Step::Span { bits, after } => read_span(
                joined(front, back),
                front.len() + 1 + at,
                first,
                system,
            ) == (Step::Span { bits, after: moved(after, front.len() as int + 1) }),
            Step::Fail(_) => true,
        },
{
    let all = joined(front, back);
    let shift = front.len() as int + 1;
    lemma_joined(front, back);
    lemma_numeral_back(front, back, at, numeral_of(first), system);
    lemma_scan_numeral(back, at, numeral_of(first), system);
    match scan_numeral(back, at, numeral_of(first), system) {
        NumeralEnd::Unit(numeral, start) => {
            lemma_unit_back(front, back, start);
            lemma_scan_unit(back, start);
            let end = scan_unit(back, start);
            if !(end is Invalid) {
                let far = scan_unit(all, shift + start);
                assert(far == moved_end(end, shift));
                let token = back.subrange(start, end.at());
                let far_token = all.subrange(shift + start, shift + end.at());
                assert(far_token =~= token) by {
                    assert forall|i: int| 0 <= i < token.len() implies #[trigger] far_token[i]
                        == token[i] by {
                        assert(all[front.len() + 1 + (start + i)] == back[start + i]);
                    }
                }
                lemma_following_back(front, back, start);
                let bits = span_bits(system, token, numeral, start, end.at());
                let far_bits = span_bits(system, token, numeral, shift + start, shift + end.at());
                assert(bits is Ok ==> far_bits == bits);
            }
        },
        _ => {},
    }
}

/// The spans of the back text add up in the joined text as they do alone, on top of
/// whatever has been added before.
proof fn lemma_spans_back(
    front: Seq<u8>,
    back: Seq<u8>,
    at: int,
    first: nat,
    total: nat,
    more: nat,
    system: System,
)
    requires
        0 <= at <= back.len(),
        parse_spans(back, at, first, total, system) is Ok,
    ensures
        parse_spans(back, at, first, total, system)->Ok_0 >= total,
        parse_spans(joined(front, back), front.len() + 1 + at, first, total + more, system) == (
        if parse_spans(back, at, first, total, system)->Ok_0 + more < capacity() {
            Ok::<nat, Failure>((parse_spans(back, at, first, total, system)->Ok_0 + more) as nat)
        } else {
            Err(Failure::NumberOverflow)
        }),
    decreases back.len() - at,
{
    lemma_joined(front, back);
    lemma_read_span_back(front, back, at, first, system);
    lemma_read_span(back, at, first, system);
    match read_span(back, at, first, system) {
        Step::Span { bits, after } => {
            match after {
                Following::Span { first: digit, at: next } => {
                    lemma_spans_back(front, back, next, digit, total + bits, more, system);
                },
                _ => {},
            }
        },
        Step::Fail(_) => {},
    }
}

/// What the two texts come to together: the sum, where it can be held.
pub open spec fn sum_of(first: nat, second: nat) -> Result<nat, Failure> {
    if first + second < capacity() {
        Ok((first + second) as nat)
    } else {
        Err(Failure::NumberOverflow)
    }
}

/// Where the front text has been read to its end, reading goes on in the back text.
proof fn lemma_enter_back(front: Seq<u8>, back: Seq<u8>, sum: nat, rest: nat, system: System)
    requires
        parse(back, system) == Ok::<nat, Failure>(rest),
    ensures
        match seek_digit(joined(front, back), front.len() as int + 1) {
            Seek::Digit(next) => next < joined(front, back).len() && parse_spans(
                joined(front, back),
                next + 1,
                digit_value(joined(front, back)[next]),
                sum,
                system,
            ) == sum_of(sum, rest),
            _ => false,
        },
{
    lemma_joined(front, back);
    lemma_seek_back(front, back, 0);
    lemma_seek_digit(back, 0);
    match seek_digit(back, 0) {
        Seek::Digit(found) => {
            assert(joined(front, back)[front.len() + 1 + found] == back[found]);
            lemma_spans_back(front, back, found + 1, digit_value(back[found]), 0, sum, system);
        },
        _ => {},
    }
}

/// The sum of the spans, one step on.
proof fn lemma_spans_unfold(bytes: Seq<u8>, at: int, first: nat, total: nat, system: System)
    requires
        0 <= at <= bytes.len(),
    ensures
        parse_spans(bytes, at, first, total, system) == match read_span(bytes, at, first, system) {
            Step::Fail(failure) => Err::<nat, Failure>(failure),
            Step::Span { bits, after } => if total + bits >= capacity() {
                Err(Failure::NumberOverflow)
            } else {
                match after {
                    Following::End => Ok((total + bits) as nat),
                    Following::NumberExpected(from) => Err(Failure::NumberExpected(from)),
                    Following::Span { first: digit, at: next } => parse_spans(
                        bytes,
                        next,
                        digit,
                        (total + bits) as nat,
                        system,
                    ),
                }
            },
        },
{
    lemma_read_span(bytes, at, first, system);
}

/// The spans of the front text add up in the joined text as they do alone, and those of
/// the back text are added to them.
pub proof fn lemma_spans_front(
    front: Seq<u8>,
    back: Seq<u8>,
    at: int,
    first: nat,
    total: nat,
    sum: nat,
    rest: nat,
    system: System,
)
    requires
        0 <= at <= front.len(),
        parse_spans(front, at, first, total, system) == Ok::<nat, Failure>(sum),
        parse(back, system) == Ok::<nat, Failure>(rest),
    ensures
        parse_spans(joined(front, back), at, first, total, system) == sum_of(sum, rest),
    decreases front.len() - at,
{
    let all = joined(front, back);
    lemma_joined(front, back);
    lemma_read_span(front, at, first, system);
    lemma_numeral_front(front, back, at, numeral_of(first), system);
    lemma_scan_numeral(front, at, numeral_of(first), system);
    lemma_empty_is_no_unit();
    match scan_numeral(front, at, numeral_of(first), system) {
        NumeralEnd::Unit(numeral, start) => {
            lemma_scan_unit(front, start);
            lemma_unit_front(front, back, start);
            let end = scan_unit(front, start);
            if start == front.len() {
                assert(front.subrange(start, end.at()) =~= Seq::<u8>::empty());
                assert(false);
            }
            let far = scan_unit(all, start);
            assert(far.at() == end.at());
            assert(all.subrange(start, end.at()) =~= front.subrange(start, end.at()));
            let bits = span_bits(system, front.subrange(start, end.at()), numeral, start, end.at());
            assert(read_span(all, at, first, system) == (Step::Span {
                bits: bits->Ok_0,
                after: following(all, far),
            }));
            lemma_enter_back(front, back, sum, rest, system);
            let value = bits->Ok_0;
            assert(read_span(front, at, first, system) == (Step::Span {
                bits: value,
                after: following(front, end),
            }));
            assert(total + value < capacity());
            let after = following(all, far);
            lemma_spans_unfold(all, at, first, total, system);
            lemma_spans_unfold(front, at, first, total, system);
            assert(parse_spans(all, at, first, total, system) == match after {
                Following::End => Ok::<nat, Failure>(total + value),
                Following::NumberExpected(from) => Err(Failure::NumberExpected(from)),
                Following::Span { first: digit, at: next } => parse_spans(
                    all,
                    next,
                    digit,
                    total + value,
                    system,
                ),
            });
            match end {
                UnitEnd::Digit(next) => {
                    assert(all[next] == front[next]);
                    assert(after == Following::Span {
                        first: digit_value(front[next]),
                        at: next + 1,
                    });
                    lemma_spans_front(
                        front,
                        back,
                        next + 1,
                        digit_value(front[next]),
                        total + value,
                        sum,
                        rest,
                        system,
                    );
                },
                UnitEnd::Space(space) => {
                    lemma_whitespace_front(front, back, space);
                    lemma_whitespace_len(front, space);
                    let from = space + whitespace_len(front, space);
                    lemma_seek_front(front, back, from);
                    lemma_seek_digit(front, from);
                    match seek_digit(front, from) {
                        Seek::Digit(next) => {
                            assert(all[next] == front[next]);
                            assert(after == Following::Span {
                                first: digit_value(front[next]),
                                at: next + 1,
                            });
                            lemma_spans_front(
                                front,
                                back,
                                next + 1,
                                digit_value(front[next]),
                                total + value,
                                sum,
                                rest,
                                system,
                            );
                        },
                        Seek::End => {
                            assert(sum == total + value);
                            assert(seek_digit(all, from) == seek_digit(all, front.len() as int + 1));
                        },
                        Seek::Other => {},
                    }
                },
                UnitEnd::End(_) => {
                    assert(sum == total + value);
                    assert(far == UnitEnd::Space(front.len() as int));
                    assert(all[front.len() as int] == 0x20);
                    assert(byte_at(all, front.len() as int) == 0x20);
                    assert(whitespace_len(all, front.len() as int) == 1);
                },
                UnitEnd::Invalid(_) => {},
            }
        },
        _ => {},
    }
}

} // verus!
