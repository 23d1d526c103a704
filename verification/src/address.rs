//! Internet addresses, as numbers and as text.

use core::str::FromStr;
use vstd::prelude::*;

use crate::number::parse_number;
use crate::text::{characters, split_bounds};

verus! {

/// An Internet address: the number that its bytes make up, the first byte being the highest.
#[derive(Clone, Copy, Debug, PartialEq, Eq, Structural)]
pub enum IpAddress {
    V4(u32),
    V6(u128),
}

/// A text that is no address.
#[derive(Clone, Copy, Debug, PartialEq, Eq, Structural)]
pub struct AddressParseError;

/// One byte of an IPv4 address: up to three decimal digits without a leading zero.
pub open spec fn octet(part: Seq<char>) -> Option<int> {
    if part.len() == 0 || part.len() > 3 || part[0] == '+' || (part.len() > 1 && part[0] == '0') {
        None
    } else {
        match crate::number::parsed(part, 10, 255) {
            Ok(value) => Some(value),
            Err(_) => None,
        }
    }
}

/// The number of an IPv4 address: four bytes with dots between them.
pub open spec fn parsed_v4(s: Seq<char>) -> Option<int> {
    let parts = crate::text::split(s, '.');
    if parts.len() == 4 {
        match (octet(parts[0]), octet(parts[1]), octet(parts[2]), octet(parts[3])) {
            (Some(a), Some(b), Some(c), Some(d)) => Some(
                a * 0x1000000 + b * 0x10000 + c * 0x100 + d,
            ),
            _ => None,
        }
    } else {
        None
    }
}

/// One group of an IPv6 address: up to four hexadecimal digits.
pub open spec fn group(part: Seq<char>) -> Option<int> {
    if part.len() == 0 || part.len() > 4 || part[0] == '+' {
        None
    } else {
        match crate::number::parsed(part, 16, 0xffff) {
            Ok(value) => Some(value),
            Err(_) => None,
        }
    }
}

/// The groups that the parts stand for. If `embedded`, the last part may be an IPv4 address, which
/// stands for two groups.
pub open spec fn groups(parts: Seq<Seq<char>>, embedded: bool) -> Option<Seq<int>>
    decreases parts.len(),
{
    if parts.len() == 0 {
        Some(seq![])
    } else if embedded && parts.len() == 1 && parsed_v4(parts[0]) is Some {
        let number = parsed_v4(parts[0])->0;
        Some(seq![number / 0x10000, number % 0x10000])
    } else {
        match (group(parts[0]), groups(parts.drop_first(), embedded)) {
            (Some(first), Some(rest)) => Some(seq![first] + rest),
            _ => None,
        }
    }
}

/// The groups of a text with colons between them; an empty text has none.
pub open spec fn groups_of(s: Seq<char>, embedded: bool) -> Option<Seq<int>> {
    if s.len() == 0 {
        Some(seq![])
    } else {
        groups(crate::text::split(s, ':'), embedded)
    }
}

/// Where two colons first stand side by side, or the length of `s` without any.
pub open spec fn gap(s: Seq<char>) -> int
    decreases s.len(),
{
    if s.len() == 0 {
        0
    } else if s.len() > 1 && s[0] == ':' && s[1] == ':' {
        0
    } else {
        1 + gap(s.drop_first())
    }
}

/// The number that eight groups make up.
pub open spec fn number_of(g: Seq<int>) -> int {
    g[0] * 0x10000000000000000000000000000 + g[1] * 0x1000000000000000000000000 + g[2]
        * 0x100000000000000000000 + g[3] * 0x10000000000000000 + g[4] * 0x1000000000000 + g[5]
        * 0x100000000 + g[6] * 0x10000 + g[7]
}

/// The number of an IPv6 address: eight groups with colons between them, of which two colons side
/// by side stand for one or more that are zero.
pub open spec fn parsed_v6(s: Seq<char>) -> Option<int> {
    let n = gap(s);
    if n == s.len() {
        match groups_of(s, true) {
            Some(g) => if g.len() == 8 {
                Some(number_of(g))
            } else {
                None
            },
            None => None,
        }
    } else {
        match (groups_of(s.take(n), false), groups_of(s.skip(n + 2), true)) {
            (Some(head), Some(tail)) => if head.len() + tail.len() <= 7 {
                Some(
                    number_of(
                        head + Seq::new((8 - head.len() - tail.len()) as nat, |i: int| 0int) + tail,
                    ),
                )
            } else {
                None
            },
            _ => None,
        }
    }
}

/// The address that a text stands for.
pub open spec fn parsed_address(s: Seq<char>) -> Option<IpAddress> {
    match (parsed_v4(s), parsed_v6(s)) {
        (Some(number), _) => Some(IpAddress::V4(number as u32)),
        (None, Some(number)) => Some(IpAddress::V6(number as u128)),
        (None, None) => None,
    }
}

/// Reads one byte of an IPv4 address.
fn read_octet(part: &[char]) -> (value: Option<u32>)
    ensures
        match value {
            Some(v) => octet(part@) == Some(v as int) && v <= 255,
            None => octet(part@) is None,
        },
{
    if part.len() == 0 || part.len() > 3 || part[0] == '+' || (part.len() > 1 && part[0] == '0') {
        return None;
    }
    proof {
        if crate::number::parsed(part@, 10, 255) is Ok {
            crate::number::lemma_parsed_range(part@, 10, 255);
        }
    }
    match parse_number(part, 10, 255) {
        Ok(value) => Some(value as u32),
        Err(_) => None,
    }
}

/// Reads an IPv4 address.
fn read_v4(chars: &[char]) -> (number: Option<u32>)
    ensures
        match number {
            Some(n) => parsed_v4(chars@) == Some(n as int),
            None => parsed_v4(chars@) is None,
        },
{
    let bounds = split_bounds(chars, '.');
    if bounds.len() != 4 {
        return None;
    }
    let a = read_octet(vstd::slice::slice_subrange(chars, bounds[0].0, bounds[0].1));
    let b = read_octet(vstd::slice::slice_subrange(chars, bounds[1].0, bounds[1].1));
    let c = read_octet(vstd::slice::slice_subrange(chars, bounds[2].0, bounds[2].1));
    let d = read_octet(vstd::slice::slice_subrange(chars, bounds[3].0, bounds[3].1));
    match (a, b, c, d) {
        (Some(a), Some(b), Some(c), Some(d)) => Some(a * 0x1000000 + b * 0x10000 + c * 0x100 + d),
        _ => None,
    }
}

/// Reads one group of an IPv6 address.
fn read_group(part: &[char]) -> (value: Option<u16>)
    ensures
        match value {
            Some(v) => group(part@) == Some(v as int),
            None => group(part@) is None,
        },
{
    if part.len() == 0 || part.len() > 4 || part[0] == '+' {
        return None;
    }
    proof {
        if crate::number::parsed(part@, 16, 0xffff) is Ok {
            crate::number::lemma_parsed_range(part@, 16, 0xffff);
        }
    }
    match parse_number(part, 16, 0xffff) {
        Ok(value) => Some(value as u16),
        Err(_) => None,
    }
}

/// The values of machine numbers.
pub open spec fn values(g: Seq<u16>) -> Seq<int> {
    g.map_values(|v: u16| v as int)
}

/// Reads the groups of a text with colons between them.
fn read_groups(chars: &[char], embedded: bool) -> (found: Option<Vec<u16>>)
    ensures
        match found {
            Some(g) => groups_of(chars@, embedded) == Some(values(g@)),
            None => groups_of(chars@, embedded) is None,
        },
{
    let mut found: Vec<u16> = Vec::new();
    assert(values(found@) == Seq::<int>::empty());
    if chars.len() == 0 {
        return Some(found);
    }
    let bounds = split_bounds(chars, ':');
    let ghost parts = crate::text::split(chars@, ':');
    assert(parts.skip(0) == parts);
    for i in 0..bounds.len()
        invariant
            parts == crate::text::split(chars@, ':'),
            parts.len() == bounds@.len(),
            chars@.len() > 0,
            forall|i: int|
                0 <= i < bounds@.len() ==> (#[trigger] bounds@[i]).0 <= bounds@[i].1 <= chars@.len()
                    && chars@.subrange(bounds@[i].0 as int, bounds@[i].1 as int) == parts[i],
            match groups(parts.skip(i as int), embedded) {
                Some(rest) => groups(parts, embedded) == Some(values(found@) + rest),
                None => groups(parts, embedded) is None,
            },
    {
        let part = vstd::slice::slice_subrange(chars, bounds[i].0, bounds[i].1);
        let ghost before = found@;
        assert(parts.skip(i as int)[0] == part@);
        assert(parts.skip(i as int).drop_first() == parts.skip(i + 1));
        if embedded && i + 1 == bounds.len() {
            if let Some(number) = read_v4(part) {
                found.push((number / 0x10000) as u16);
                found.push((number % 0x10000) as u16);
                assert(values(found@) == values(before) + seq![
                    (number / 0x10000) as int,
                    (number % 0x10000) as int,
                ]);
                return Some(found);
            }
        }
        match read_group(part) {
            None => {
                return None;
            },
            Some(value) => {
                found.push(value);
                assert(values(found@) == values(before).push(value as int));
                proof {
                    if let Some(rest) = groups(parts.skip(i + 1), embedded) {
                        assert(values(before) + (seq![value as int] + rest) == values(found@)
                            + rest);
                    }
                }
            },
        }
    }
    assert(parts.skip(parts.len() as int) == Seq::<Seq<char>>::empty());
    assert(groups(Seq::<Seq<char>>::empty(), embedded) == Some(Seq::<int>::empty()));
    assert(values(found@) + Seq::<int>::empty() == values(found@));
    Some(found)
}

/// Finds two colons side by side.
fn find_gap(chars: &[char]) -> (index: usize)
    ensures
        index == gap(chars@),
        index <= chars@.len(),
        index < chars@.len() ==> index + 2 <= chars@.len(),
{
    let mut index: usize = 0;
    assert(chars@.skip(0) == chars@);
    while index < chars.len()
        invariant
            index <= chars@.len(),
            gap(chars@) == index + gap(chars@.skip(index as int)),
        decreases chars@.len() - index,
    {
        if chars.len() - index > 1 && chars[index] == ':' && chars[index + 1] == ':' {
            return index;
        }
        assert(chars@.skip(index as int).drop_first() == chars@.skip(index + 1));
        index += 1;
    }
    index
}

/// The number that eight groups make up.
fn combine(g: &Vec<u16>) -> (number: u128)
    requires
        g@.len() == 8,
    ensures
        number == number_of(values(g@)),
{
    (g[0] as u128) * 0x10000000000000000000000000000 + (g[1] as u128) * 0x1000000000000000000000000
        + (g[2] as u128) * 0x100000000000000000000 + (g[3] as u128) * 0x10000000000000000 + (
    g[4] as u128) * 0x1000000000000 + (g[5] as u128) * 0x100000000 + (g[6] as u128) * 0x10000 + (
    g[7] as u128)
}

/// Reads an IPv6 address.
fn read_v6(chars: &[char]) -> (number: Option<u128>)
    ensures
        match number {
            Some(n) => parsed_v6(chars@) == Some(n as int),
            None => parsed_v6(chars@) is None,
        },
{
    let n = find_gap(chars);
    if n == chars.len() {
        return match read_groups(chars, true) {
            None => None,
            Some(g) => if g.len() == 8 {
                Some(combine(&g))
            } else {
                None
            },
        };
    }
    let front = vstd::slice::slice_subrange(chars, 0, n);
    let back = vstd::slice::slice_subrange(chars, n + 2, chars.len());
    assert(front@ == chars@.take(n as int));
    assert(back@ == chars@.skip(n + 2));
    match (read_groups(front, false), read_groups(back, true)) {
        (Some(head), Some(tail)) => {
            if head.len() > 7 || tail.len() > 7 - head.len() {
                return None;
            }
            let ghost zeros = Seq::new(
                (8 - head@.len() - tail@.len()) as nat,
                |i: int| 0int,
            );
            let mut all: Vec<u16> = Vec::new();
            let zero_end: usize = 8 - tail.len();
            for i in 0..8usize
                invariant
                    head@.len() + tail@.len() <= 7,
                    zero_end == 8 - tail@.len(),
                    all@.len() == i,
                    forall|j: int|
                        0 <= j < i ==> #[trigger] all@[j] == if j < head@.len() {
                            head@[j]
                        } else if j < zero_end {
                            0
                        } else {
                            tail@[j - zero_end]
                        },
            {
                if i < head.len() {
                    all.push(head[i]);
                } else if i < zero_end {
                    all.push(0);
                } else {
                    all.push(tail[i - zero_end]);
                }
            }
            assert(values(all@) == values(head@) + zeros + values(tail@));
            Some(combine(&all))
        },
        _ => None,
    }
}

impl FromStr for IpAddress {
    type Err = AddressParseError;

    /// Reads an address.
    fn from_str(input: &str) -> (address: Result<Self, AddressParseError>)
        ensures
            match address {
                Ok(a) => parsed_address(input@) == Some(a),
                Err(_) => parsed_address(input@) is None,
            },
    {
        let chars = characters(input);
        if let Some(number) = read_v4(chars.as_slice()) {
            return Ok(IpAddress::V4(number));
        }
        match read_v6(chars.as_slice()) {
            Some(number) => Ok(IpAddress::V6(number)),
            None => Err(AddressParseError),
        }
    }
}

/// Digits without a needless zero in front are the decimal text of what they stand for.
proof fn lemma_canonical_digits(s: Seq<char>)
    requires
        s.len() > 0,
        forall|i: int| 0 <= i < s.len() ==> '0' <= #[trigger] s[i] <= '9',
        s.len() > 1 ==> s[0] != '0',
    ensures
        crate::number::value_of(s, 10) >= 0,
        s[0] != '0' ==> crate::number::value_of(s, 10) > 0,
        s == crate::number::decimal(crate::number::value_of(s, 10) as nat),
    decreases s.len(),
{
    let front = s.drop_last();
    let d = crate::number::digit_of(s.last());
    assert(s == front.push(s.last()));
    assert('0' <= s[s.len() - 1] <= '9');
    assert(0 <= d <= 9);
    assert(s.last() == crate::number::digit_char(d));
    if s.len() == 1 {
        assert(front == Seq::<char>::empty());
        assert(crate::number::value_of(front, 10) == 0);
        assert(s == seq![crate::number::digit_char(d)]);
    } else {
        assert forall|i: int| 0 <= i < front.len() implies '0' <= #[trigger] front[i] <= '9' by {
            assert(front[i] == s[i]);
        }
        assert(front[0] == s[0]);
        lemma_canonical_digits(front);
        let n = crate::number::value_of(s, 10);
        assert(n / 10 == crate::number::value_of(front, 10) && n % 10 == d);
        assert(n >= 10);
    }
}

/// A byte of an IPv4 address is written as a decimal number from 0 to 255, and in no other way.
pub proof fn law_bytes_are_decimal(part: Seq<char>, value: int)
    ensures
        octet(part) == Some(value) <==> 0 <= value <= 255 && part == crate::number::decimal(
            value as nat,
        ),
{
    if octet(part) == Some(value) {
        crate::number::lemma_parsed_range(part, 10, 255);
        assert forall|i: int| 0 <= i < part.len() implies '0' <= #[trigger] part[i] <= '9' by {
            crate::number::law_numbers_are_numerals(part, 10, 255, i);
            let d = choose|d: int| 0 <= d < 10 && #[trigger] crate::number::numeral(part[i], d);
            assert(part[i] as int == 48 + d);
        }
        lemma_canonical_digits(part);
        assert(crate::number::unsigned(part) == part);
    }
    if 0 <= value <= 255 && part == crate::number::decimal(value as nat) {
        crate::number::law_decimal_round_trip(value as nat, 255);
        crate::number::lemma_decimal_digits(value as nat);
        assert('0' <= part[0] <= '9');
        lemma_short_decimal(value as nat);
    }
}

/// The decimal text of a byte has up to three digits, the first of which is no needless zero.
proof fn lemma_short_decimal(n: nat)
    requires
        n <= 255,
    ensures
        crate::number::decimal(n).len() <= 3,
        crate::number::decimal(n).len() > 1 ==> crate::number::decimal(n)[0] != '0',
{
    reveal_with_fuel(crate::number::decimal, 4);
    if n >= 100 {
        assert(n / 10 / 10 < 10 && n / 10 / 10 > 0);
    } else if n >= 10 {
        assert(n / 10 < 10 && n / 10 > 0);
    }
}

/// An IPv4 address is four decimal bytes with dots between them, the first being the highest, and
/// nothing else is one.
pub proof fn law_dotted_address(parts: Seq<Seq<char>>, a: int, b: int, c: int, d: int)
    requires
        parts.len() > 0,
        forall|i: int| 0 <= i < parts.len() ==> crate::text::lacks(#[trigger] parts[i], '.'),
    ensures
        parts.len() != 4 ==> parsed_v4(crate::text::joined(parts, '.')) is None,
        parts.len() == 4 && (exists|i: int|
            0 <= i < 4 && octet(#[trigger] parts[i]) is None) ==> parsed_v4(
            crate::text::joined(parts, '.'),
        ) is None,
        parts.len() == 4 && octet(parts[0]) == Some(a) && octet(parts[1]) == Some(b) && octet(
            parts[2],
        ) == Some(c) && octet(parts[3]) == Some(d) ==> parsed_v4(crate::text::joined(parts, '.'))
            == Some(((a * 256 + b) * 256 + c) * 256 + d),
{
    crate::text::law_parts_are_split(parts, '.');
}

/// Whether a character is a hexadecimal numeral.
pub open spec fn is_hexadecimal(c: char) -> bool {
    '0' <= c <= '9' || 'a' <= c <= 'f' || 'A' <= c <= 'F'
}

/// A group of an IPv6 address is one to four hexadecimal numerals, and nothing else is one.
pub proof fn law_groups_are_hexadecimal(part: Seq<char>, value: int)
    ensures
        group(part) == Some(value) <==> {
            &&& 1 <= part.len() <= 4
            &&& forall|i: int| 0 <= i < part.len() ==> is_hexadecimal(#[trigger] part[i])
            &&& crate::number::parsed(part, 16, 65535) == Ok::<int, crate::number::NumberError>(
                value,
            )
        },
{
    if group(part) == Some(value) {
        assert forall|i: int| 0 <= i < part.len() implies is_hexadecimal(#[trigger] part[i]) by {
            crate::number::law_numbers_are_numerals(part, 16, 65535, i);
            let d = choose|d: int| 0 <= d < 16 && #[trigger] crate::number::numeral(part[i], d);
            assert(crate::number::numeral(part[i], d));
        }
    }
    if 1 <= part.len() <= 4 && (forall|i: int|
        0 <= i < part.len() ==> is_hexadecimal(#[trigger] part[i])) {
        assert(is_hexadecimal(part[0]));
    }
}

/// A group holds neither a colon nor a dot.
proof fn lemma_group_characters(part: Seq<char>)
    requires
        group(part) is Some,
    ensures
        part.len() > 0,
        crate::text::lacks(part, ':'),
        crate::text::lacks(part, '.'),
        parsed_v4(part) is None,
{
    assert forall|i: int| 0 <= i < part.len() implies #[trigger] part[i] != ':' && part[i]
        != '.' by {
        crate::number::law_numbers_are_numerals(part, 16, 65535, i);
        let d = choose|d: int| 0 <= d < 16 && #[trigger] crate::number::numeral(part[i], d);
        assert(crate::number::numeral(part[i], d));
    }
    crate::text::lemma_first_index_unique(part, '.', part.len() as int);
}

/// Groups stand for their values, and one part that is no group spoils them all.
proof fn lemma_groups_of_parts(parts: Seq<Seq<char>>, values: Seq<int>, embedded: bool)
    requires
        parts.len() == values.len(),
    ensures
        (forall|i: int| 0 <= i < parts.len() ==> group(#[trigger] parts[i]) == Some(values[i]))
            ==> groups(parts, embedded) == Some(values),
        (exists|i: int|
            0 <= i < parts.len() && group(#[trigger] parts[i]) is None && (i < parts.len() - 1
                || !embedded || parsed_v4(parts[i]) is None)) ==> groups(parts, embedded) is None,
    decreases parts.len(),
{
    if parts.len() == 0 {
        assert(values == Seq::<int>::empty());
    } else {
        let rest = parts.drop_first();
        let others = values.drop_first();
        assert forall|i: int| 0 <= i < rest.len() implies #[trigger] rest[i] == parts[i + 1]
            && others[i] == values[i + 1] by {}
        lemma_groups_of_parts(rest, others, embedded);
        if forall|i: int| 0 <= i < parts.len() ==> group(#[trigger] parts[i]) == Some(values[i]) {
            assert forall|i: int| 0 <= i < rest.len() implies group(#[trigger] rest[i]) == Some(
                others[i],
            ) by {
                assert(group(parts[i + 1]) == Some(values[i + 1]));
            }
            assert(group(parts[0]) == Some(values[0]));
            lemma_group_characters(parts[0]);
            assert(seq![values[0]] + others == values);
        }
        if exists|i: int|
            0 <= i < parts.len() && group(#[trigger] parts[i]) is None && (i < parts.len() - 1
                || !embedded || parsed_v4(parts[i]) is None) {
            let i = choose|i: int|
                0 <= i < parts.len() && group(#[trigger] parts[i]) is None && (i < parts.len() - 1
                    || !embedded || parsed_v4(parts[i]) is None);
            if i > 0 {
                assert(rest[i - 1] == parts[i]);
            }
        }
    }
}

/// Groups with an IPv4 address behind them stand for their values and for its two halves.
proof fn lemma_groups_with_v4(parts: Seq<Seq<char>>, values: Seq<int>, last: Seq<char>, number: int)
    requires
        parts.len() == values.len(),
        forall|i: int| 0 <= i < parts.len() ==> group(#[trigger] parts[i]) == Some(values[i]),
        parsed_v4(last) == Some(number),
    ensures
        groups(parts.push(last), true) == Some(values + seq![number / 65536, number % 65536]),
    decreases parts.len(),
{
    let all = parts.push(last);
    let halves = seq![number / 65536, number % 65536];
    if parts.len() == 0 {
        assert(values + halves == halves);
        assert(all[0] == last);
    } else {
        let rest = parts.drop_first();
        let others = values.drop_first();
        assert forall|i: int| 0 <= i < rest.len() implies group(#[trigger] rest[i]) == Some(
            others[i],
        ) by {
            assert(group(parts[i + 1]) == Some(values[i + 1]));
        }
        lemma_groups_with_v4(rest, others, last, number);
        assert(all.drop_first() == rest.push(last));
        assert(all[0] == parts[0]);
        assert(group(parts[0]) == Some(values[0]));
        assert(seq![values[0]] + (others + halves) == values + halves);
    }
}

/// Parts that are not empty and hold no colon leave no two colons side by side between them.
proof fn lemma_no_gap(parts: Seq<Seq<char>>)
    requires
        forall|i: int|
            0 <= i < parts.len() ==> (#[trigger] parts[i]).len() > 0 && crate::text::lacks(
                parts[i],
                ':',
            ),
    ensures
        ({
            let s = crate::text::joined(parts, ':');
            &&& forall|i: int| 0 <= i < s.len() - 1 ==> !(#[trigger] s[i] == ':' && s[i + 1] == ':')
            &&& s.len() > 0 ==> s[0] != ':' && s.last() != ':'
            &&& s.len() > 0 <==> parts.len() > 0
        }),
    decreases parts.len(),
{
    let s = crate::text::joined(parts, ':');
    if parts.len() == 1 {
        assert(parts[0].len() > 0 && crate::text::lacks(parts[0], ':'));
    } else if parts.len() > 1 {
        let rest = parts.drop_first();
        assert forall|i: int| 0 <= i < rest.len() implies (#[trigger] rest[i]).len() > 0
            && crate::text::lacks(rest[i], ':') by {
            assert(rest[i] == parts[i + 1]);
        }
        lemma_no_gap(rest);
        assert(parts[0].len() > 0 && crate::text::lacks(parts[0], ':'));
        let n = parts[0].len() as int;
        let after = crate::text::joined(rest, ':');
        assert forall|i: int| 0 <= i < s.len() - 1 implies !(#[trigger] s[i] == ':' && s[i + 1]
            == ':') by {
            if i < n {
                assert(s[i] == parts[0][i]);
            } else if i == n {
                assert(s[i + 1] == after[0]);
            } else {
                assert(s[i] == after[i - n - 1] && s[i + 1] == after[i - n]);
            }
        }
        assert(s[0] == parts[0][0]);
        assert(s.last() == after.last());
    }
}

/// Where two colons first stand side by side.
proof fn lemma_gap(s: Seq<char>, n: int)
    requires
        0 <= n <= s.len(),
        forall|i: int| 0 <= i < n && i + 1 < s.len() ==> !(#[trigger] s[i] == ':' && s[i + 1] == ':'),
        n < s.len() ==> n + 1 < s.len() && s[n] == ':' && s[n + 1] == ':',
    ensures
        gap(s) == n,
    decreases s.len(),
{
    if s.len() > 0 {
        if n > 0 {
            assert(!(s.len() > 1 && s[0] == ':' && s[1] == ':'));
            let rest = s.drop_first();
            assert forall|i: int| 0 <= i < n - 1 && i + 1 < rest.len() implies !(#[trigger] rest[i]
                == ':' && rest[i + 1] == ':') by {
                assert(rest[i] == s[i + 1] && rest[i + 1] == s[i + 2]);
            }
            lemma_gap(rest, n - 1);
        }
    }
}

/// The groups of an address, possibly with an IPv4 address in the last two places.
pub open spec fn written_groups(
    parts: Seq<Seq<char>>,
    values: Seq<int>,
    v4: Option<(Seq<char>, int)>,
) -> bool {
    &&& parts.len() == values.len()
    &&& forall|i: int| 0 <= i < parts.len() ==> group(#[trigger] parts[i]) == Some(values[i])
    &&& v4 matches Some((text, number)) ==> parsed_v4(text) == Some(number) && crate::text::lacks(
        text,
        ':',
    ) && text.len() > 0
}

/// The parts of an address, with the IPv4 address among them.
pub open spec fn all_parts(parts: Seq<Seq<char>>, v4: Option<(Seq<char>, int)>) -> Seq<Seq<char>> {
    match v4 {
        Some((text, _)) => parts.push(text),
        None => parts,
    }
}

/// The values of the groups, with the two halves of the IPv4 address among them.
pub open spec fn all_values(values: Seq<int>, v4: Option<(Seq<char>, int)>) -> Seq<int> {
    match v4 {
        Some((_, number)) => values + seq![number / 65536, number % 65536],
        None => values,
    }
}

/// The parts of groups are groups of the text between colons.
proof fn lemma_written_groups(
    parts: Seq<Seq<char>>,
    values: Seq<int>,
    v4: Option<(Seq<char>, int)>,
    embedded: bool,
)
    requires
        written_groups(parts, values, v4),
        v4 is Some ==> embedded,
    ensures
        groups_of(crate::text::joined(all_parts(parts, v4), ':'), embedded) == Some(
            all_values(values, v4),
        ),
        forall|i: int|
            0 <= i < all_parts(parts, v4).len() ==> (#[trigger] all_parts(parts, v4)[i]).len() > 0
                && crate::text::lacks(all_parts(parts, v4)[i], ':'),
{
    let all = all_parts(parts, v4);
    assert forall|i: int| 0 <= i < all.len() implies (#[trigger] all[i]).len() > 0
        && crate::text::lacks(all[i], ':') by {
        if i < parts.len() {
            assert(all[i] == parts[i]);
            assert(group(parts[i]) == Some(values[i]));
            lemma_group_characters(parts[i]);
        }
    }
    lemma_no_gap(all);
    if all.len() == 0 {
        assert(values == Seq::<int>::empty());
    } else {
        crate::text::law_parts_are_split(all, ':');
        match v4 {
            Some((text, number)) => lemma_groups_with_v4(parts, values, text, number),
            None => lemma_groups_of_parts(parts, values, embedded),
        }
    }
}

/// The number that eight groups make up, the first being the highest.
pub open spec fn composed(g: Seq<int>) -> int
    decreases g.len(),
{
    if g.len() == 0 {
        0
    } else {
        composed(g.drop_last()) * 65536 + g.last()
    }
}

/// Eight groups are composed place by place.
proof fn lemma_composed(g: Seq<int>)
    requires
        g.len() == 8,
    ensures
        number_of(g) == composed(g),
{
    reveal_with_fuel(composed, 9);
    let g7 = g.drop_last();
    let g6 = g7.drop_last();
    let g5 = g6.drop_last();
    let g4 = g5.drop_last();
    let g3 = g4.drop_last();
    let g2 = g3.drop_last();
    let g1 = g2.drop_last();
    assert(g7.last() == g[6] && g6.last() == g[5] && g5.last() == g[4] && g4.last() == g[3]
        && g3.last() == g[2] && g2.last() == g[1] && g1.last() == g[0]);
    assert(g1.drop_last().len() == 0);
}

/// An IPv6 address is eight groups with colons between them, the first being the highest; an IPv4
/// address may stand for the last two. Any other number of groups is none.
pub proof fn law_full_address(
    parts: Seq<Seq<char>>,
    values: Seq<int>,
    v4: Option<(Seq<char>, int)>,
)
    requires
        written_groups(parts, values, v4),
    ensures
        parsed_v6(crate::text::joined(all_parts(parts, v4), ':')) == if all_values(
            values,
            v4,
        ).len() == 8 {
            Some(composed(all_values(values, v4)))
        } else {
            None
        },
{
    let s = crate::text::joined(all_parts(parts, v4), ':');
    lemma_written_groups(parts, values, v4, true);
    lemma_no_gap(all_parts(parts, v4));
    lemma_gap(s, s.len() as int);
    if all_values(values, v4).len() == 8 {
        lemma_composed(all_values(values, v4));
    }
}

/// Two colons side by side stand for one or more groups of zero between the groups before and those
/// behind, so that there are eight. With eight groups or more besides it is no address.
pub proof fn law_shortened_address(
    parts: Seq<Seq<char>>,
    values: Seq<int>,
    more_parts: Seq<Seq<char>>,
    more_values: Seq<int>,
    v4: Option<(Seq<char>, int)>,
)
    requires
        written_groups(parts, values, None),
        written_groups(more_parts, more_values, v4),
    ensures
        ({
            let tail = all_values(more_values, v4);
            let s = crate::text::joined(parts, ':') + seq![':', ':'] + crate::text::joined(
                all_parts(more_parts, v4),
                ':',
            );
            parsed_v6(s) == if values.len() + tail.len() <= 7 {
                Some(
                    composed(
                        values + Seq::new((8 - values.len() - tail.len()) as nat, |i: int| 0int)
                            + tail,
                    ),
                )
            } else {
                None
            }
        }),
{
    let tail = all_values(more_values, v4);
    let front = crate::text::joined(parts, ':');
    let back = crate::text::joined(all_parts(more_parts, v4), ':');
    let s = front + seq![':', ':'] + back;
    let n = front.len() as int;
    lemma_written_groups(parts, values, None, false);
    lemma_written_groups(more_parts, more_values, v4, true);
    lemma_no_gap(parts);
    assert forall|i: int| 0 <= i < n && i + 1 < s.len() implies !(#[trigger] s[i] == ':' && s[i + 1]
        == ':') by {
        assert(s[i] == front[i]);
        if i + 1 < n {
            assert(s[i + 1] == front[i + 1]);
        } else {
            assert(front[i] == front.last());
        }
    }
    assert(s[n] == ':' && s[n + 1] == ':');
    lemma_gap(s, n);
    assert(s.take(n) == front);
    assert(s.skip(n + 2) == back);
    if values.len() + tail.len() <= 7 {
        let all = values + Seq::new((8 - values.len() - tail.len()) as nat, |i: int| 0int) + tail;
        lemma_composed(all);
    }
}

/// One part between colons that is no group makes a text no address, unless it stands last and is
/// an IPv4 address.
pub proof fn law_other_parts_are_refused(parts: Seq<Seq<char>>, i: int)
    requires
        0 <= i < parts.len(),
        forall|j: int|
            0 <= j < parts.len() ==> (#[trigger] parts[j]).len() > 0 && crate::text::lacks(
                parts[j],
                ':',
            ),
        group(parts[i]) is None,
        i < parts.len() - 1 || parsed_v4(parts[i]) is None,
    ensures
        parsed_v6(crate::text::joined(parts, ':')) is None,
{
    let s = crate::text::joined(parts, ':');
    lemma_no_gap(parts);
    lemma_gap(s, s.len() as int);
    crate::text::law_parts_are_split(parts, ':');
    lemma_groups_of_parts(parts, Seq::new(parts.len(), |j: int| 0int), true);
}

/// A text is read as an IPv4 address if it is one, else as an IPv6 address if it is one.
pub proof fn law_either_address_is_read(s: Seq<char>)
    ensures
        match parsed_v4(s) {
            Some(number) => parsed_address(s) == Some(IpAddress::V4(number as u32)),
            None => match parsed_v6(s) {
                Some(number) => parsed_address(s) == Some(IpAddress::V6(number as u128)),
                None => parsed_address(s) is None,
            },
        },
{
}

} // verus!
