//! Unsigned numbers in text: reading them in base ten or sixteen, and writing them.

use vstd::prelude::*;
use vstd::string::*;

verus! {

/// Why a text is not a number.
#[derive(Clone, Copy, Debug, PartialEq, Eq, Structural)]
pub enum NumberError {
    /// There is no character at all.
    Empty,
    /// A character is not a digit, or a lone sign has no digit behind it.
    InvalidDigit,
    /// The digits stand for a number above the limit.
    TooLarge,
}

impl NumberError {
    /// Describes the error.
    pub fn message(&self) -> (text: &'static str)
        ensures
            text@ == self.message_text(),
    {
        match self {
            NumberError::Empty => "cannot parse integer from empty string",
            NumberError::InvalidDigit => "invalid digit found in string",
            NumberError::TooLarge => "number too large to fit in target type",
        }
    }

    /// The text of `message`.
    pub open spec fn message_text(&self) -> Seq<char> {
        match self {
            NumberError::Empty => "cannot parse integer from empty string"@,
            NumberError::InvalidDigit => "invalid digit found in string"@,
            NumberError::TooLarge => "number too large to fit in target type"@,
        }
    }
}

/// What a digit stands for, in either case; -1 for any other character.
pub open spec fn digit_of(c: char) -> int {
    if '0' <= c <= '9' {
        c as int - '0' as int
    } else if 'a' <= c <= 'z' {
        c as int - 'a' as int + 10
    } else if 'A' <= c <= 'Z' {
        c as int - 'A' as int + 10
    } else {
        -1
    }
}

/// Whether `c` is a digit in base `radix`.
pub open spec fn is_digit(c: char, radix: int) -> bool {
    0 <= digit_of(c) < radix
}

/// What the digits `s` stand for in base `radix`.
pub open spec fn value_of(s: Seq<char>, radix: int) -> int
    decreases s.len(),
{
    if s.len() == 0 {
        0
    } else {
        value_of(s.drop_last(), radix) * radix + digit_of(s.last())
    }
}

/// How many digits `s` begins with.
pub open spec fn leading_digits(s: Seq<char>, radix: int) -> int
    decreases s.len(),
{
    if s.len() == 0 || !is_digit(s[0], radix) {
        0
    } else {
        1 + leading_digits(s.drop_first(), radix)
    }
}

/// `s` without the plus sign in front, if there is one.
pub open spec fn unsigned(s: Seq<char>) -> Seq<char> {
    if s.len() > 0 && s[0] == '+' {
        s.drop_first()
    } else {
        s
    }
}

/// What reading `s` as a number up to `max` comes to. Digits are read from the left, so that
/// whichever comes first decides: a character that is no digit, or a value above `max`.
pub open spec fn parsed(s: Seq<char>, radix: int, max: int) -> Result<int, NumberError> {
    let digits = unsigned(s);
    let count = leading_digits(digits, radix);
    if s.len() == 0 {
        Err(NumberError::Empty)
    } else if value_of(digits.take(count), radix) > max {
        Err(NumberError::TooLarge)
    } else if digits.len() == 0 || count < digits.len() {
        Err(NumberError::InvalidDigit)
    } else {
        Ok(value_of(digits, radix))
    }
}

/// The digits in front are digits, and what follows them is not.
pub proof fn lemma_leading_digits(s: Seq<char>, radix: int)
    ensures
        0 <= leading_digits(s, radix) <= s.len(),
        forall|i: int| 0 <= i < leading_digits(s, radix) ==> is_digit(#[trigger] s[i], radix),
        leading_digits(s, radix) < s.len() ==> !is_digit(s[leading_digits(s, radix)], radix),
    decreases s.len(),
{
    if s.len() > 0 && is_digit(s[0], radix) {
        let rest = s.drop_first();
        lemma_leading_digits(rest, radix);
        assert forall|i: int| 0 <= i < leading_digits(s, radix) implies is_digit(
            #[trigger] s[i],
            radix,
        ) by {
            if i > 0 {
                assert(rest[i - 1] == s[i]);
            }
        }
    }
}

/// More digits never make a number smaller.
proof fn lemma_value_grows(s: Seq<char>, radix: int, n: int, m: int)
    requires
        radix >= 1,
        0 <= n <= m <= s.len(),
        forall|i: int| 0 <= i < m ==> is_digit(#[trigger] s[i], radix),
    ensures
        0 <= value_of(s.take(n), radix) <= value_of(s.take(m), radix),
    decreases m,
{
    if m > 0 {
        assert(s.take(m).drop_last() == s.take(m - 1));
        assert(is_digit(s[m - 1], radix));
        let before = value_of(s.take(m - 1), radix);
        if n < m {
            lemma_value_grows(s, radix, n, m - 1);
        } else {
            lemma_value_grows(s, radix, m - 1, m - 1);
        }
        assert(before * radix >= before) by (nonlinear_arith)
            requires
                before >= 0,
                radix >= 1,
        ;
    }
}

/// Reads a digit in base `radix`.
fn read_digit(c: char, radix: u32) -> (digit: Option<u32>)
    requires
        radix <= 36,
    ensures
        digit is Some <==> is_digit(c, radix as int),
        digit matches Some(d) ==> d == digit_of(c),
{
    let code: u32 = c as u32;
    let digit: u32 = if '0' <= c && c <= '9' {
        code - 48
    } else if 'a' <= c && c <= 'z' {
        code - 97 + 10
    } else if 'A' <= c && c <= 'Z' {
        code - 65 + 10
    } else {
        return None;
    };
    if digit < radix {
        Some(digit)
    } else {
        None
    }
}

/// Reads `chars` as a number up to `max`: an optional plus sign, then digits in base `radix`.
pub fn parse_number(chars: &[char], radix: u32, max: usize) -> (number: Result<usize, NumberError>)
    requires
        2 <= radix <= 36,
    ensures
        match number {
            Ok(n) => parsed(chars@, radix as int, max as int) == Ok::<int, NumberError>(n as int),
            Err(e) => parsed(chars@, radix as int, max as int) == Err::<int, NumberError>(e),
        },
{
    if chars.len() == 0 {
        return Err(NumberError::Empty);
    }
    let start: usize = if chars[0] == '+' {
        1
    } else {
        0
    };
    let digits = vstd::slice::slice_subrange(chars, start, chars.len());
    assert(digits@ == unsigned(chars@));
    let ghost count = leading_digits(digits@, radix as int);
    proof {
        lemma_leading_digits(digits@, radix as int);
    }
    let mut value: u128 = 0;
    let mut index: usize = 0;
    while index < digits.len()
        invariant
            2 <= radix <= 36,
            chars@.len() > 0,
            digits@ == unsigned(chars@),
            count == leading_digits(digits@, radix as int),
            0 <= count <= digits@.len(),
            forall|i: int| 0 <= i < count ==> is_digit(#[trigger] digits@[i], radix as int),
            count < digits@.len() ==> !is_digit(digits@[count], radix as int),
            0 <= index <= count,
            value == value_of(digits@.take(index as int), radix as int),
            value <= max,
        decreases digits@.len() - index,
    {
        match read_digit(digits[index], radix) {
            Some(digit) => {
                assert(digits@.take(index + 1).drop_last() == digits@.take(index as int));
                assert(value * radix <= usize::MAX * 36) by (nonlinear_arith)
                    requires
                        0 <= value <= usize::MAX,
                        0 <= radix <= 36,
                ;
                value = value * (radix as u128) + digit as u128;
                index += 1;
                if value > max as u128 {
                    proof {
                        lemma_value_grows(digits@, radix as int, index as int, count);
                    }
                    return Err(NumberError::TooLarge);
                }
            },
            None => {
                return Err(NumberError::InvalidDigit);
            },
        }
    }
    assert(digits@.take(digits@.len() as int) == digits@);
    if digits.len() == 0 {
        Err(NumberError::InvalidDigit)
    } else {
        Ok(value as usize)
    }
}

/// The digit character for a value below sixteen.
pub open spec fn digit_char(digit: int) -> char {
    if digit < 10 {
        (48 + digit) as char
    } else {
        (87 + digit) as char
    }
}

/// `n` in base ten.
pub open spec fn decimal(n: nat) -> Seq<char>
    decreases n,
{
    if n < 10 {
        seq![digit_char(n as int)]
    } else {
        decimal(n / 10).push(digit_char((n % 10) as int))
    }
}

/// `n` in base sixteen with exactly `width` digits.
pub open spec fn hexadecimal(n: nat, width: nat) -> Seq<char>
    decreases width,
{
    if width == 0 {
        seq![]
    } else {
        hexadecimal(n / 16, (width - 1) as nat).push(digit_char((n % 16) as int))
    }
}

/// Appends one digit.
fn push_digit(out: &mut String, digit: u32)
    requires
        digit < 16,
    ensures
        final(out)@ == old(out)@.push(digit_char(digit as int)),
{
    let text = match digit {
        0 => "0",
        1 => "1",
        2 => "2",
        3 => "3",
        4 => "4",
        5 => "5",
        6 => "6",
        7 => "7",
        8 => "8",
        9 => "9",
        10 => "a",
        11 => "b",
        12 => "c",
        13 => "d",
        14 => "e",
        _ => "f",
    };
    proof {
        reveal_strlit("0");
        reveal_strlit("1");
        reveal_strlit("2");
        reveal_strlit("3");
        reveal_strlit("4");
        reveal_strlit("5");
        reveal_strlit("6");
        reveal_strlit("7");
        reveal_strlit("8");
        reveal_strlit("9");
        reveal_strlit("a");
        reveal_strlit("b");
        reveal_strlit("c");
        reveal_strlit("d");
        reveal_strlit("e");
        reveal_strlit("f");
    }
    assert(text@ == seq![digit_char(digit as int)]);
    out.append(text);
    assert(out@ == old(out)@.push(digit_char(digit as int)));
}

/// Appends `n` in base ten.
pub fn push_decimal(out: &mut String, n: u64)
    ensures
        final(out)@ == old(out)@ + decimal(n as nat),
    decreases n,
{
    if n >= 10 {
        push_decimal(out, n / 10);
    }
    push_digit(out, (n % 10) as u32);
    assert(out@ == old(out)@ + decimal(n as nat));
}

/// Appends `n` in base sixteen with eight digits.
pub fn push_hexadecimal(out: &mut String, n: u32)
    ensures
        final(out)@ == old(out)@ + hexadecimal(n as nat, 8),
{
    push_nibbles(out, n, 8);
}

/// Appends the last `width` digits of `n` in base sixteen.
fn push_nibbles(out: &mut String, n: u32, width: u32)
    ensures
        final(out)@ == old(out)@ + hexadecimal(n as nat, width as nat),
    decreases width,
{
    if width > 0 {
        push_nibbles(out, n / 16, width - 1);
        push_digit(out, n % 16);
    }
    assert(out@ == old(out)@ + hexadecimal(n as nat, width as nat));
}

/// Decimal text consists of digits only, and at least one.
pub proof fn lemma_decimal_digits(n: nat)
    ensures
        decimal(n).len() > 0,
        forall|i: int| 0 <= i < decimal(n).len() ==> '0' <= #[trigger] decimal(n)[i] <= '9',
    decreases n,
{
    if n >= 10 {
        lemma_decimal_digits(n / 10);
    }
}

/// The digits of a decimal text stand for the number it was made from.
proof fn lemma_decimal_value(n: nat)
    ensures
        value_of(decimal(n), 10) == n,
    decreases n,
{
    if n >= 10 {
        lemma_decimal_value(n / 10);
        assert(decimal(n).drop_last() == decimal(n / 10));
    } else {
        assert(decimal(n).drop_last() == Seq::<char>::empty());
        assert(value_of(Seq::<char>::empty(), 10) == 0);
    }
    assert(digit_of(decimal(n).last()) == n % 10);
}

/// A number that was read lies between zero and the limit.
pub proof fn lemma_parsed_range(s: Seq<char>, radix: int, max: int)
    requires
        radix >= 1,
        parsed(s, radix, max) is Ok,
    ensures
        0 <= parsed(s, radix, max)->Ok_0 <= max,
{
    let digits = unsigned(s);
    lemma_leading_digits(digits, radix);
    assert(digits.take(digits.len() as int) == digits);
    lemma_value_grows(digits, radix, 0, digits.len() as int);
}

/// Digits only are all in front.
proof fn lemma_all_digits(s: Seq<char>, radix: int)
    requires
        forall|i: int| 0 <= i < s.len() ==> is_digit(#[trigger] s[i], radix),
    ensures
        leading_digits(s, radix) == s.len(),
{
    lemma_leading_digits(s, radix);
}

/// Reading back a written number gives the number.
pub proof fn law_decimal_round_trip(n: nat, max: int)
    requires
        n <= max,
    ensures
        parsed(decimal(n), 10, max) == Ok::<int, NumberError>(n as int),
{
    let s = decimal(n);
    lemma_decimal_digits(n);
    lemma_decimal_value(n);
    assert(unsigned(s) == s);
    lemma_all_digits(s, 10);
    assert(s.take(s.len() as int) == s);
}

/// Whether `c` is the numeral for `d`: 0 to 9, then letters in either case.
pub open spec fn numeral(c: char, d: int) -> bool {
    ||| 0 <= d <= 9 && c as int == 48 + d
    ||| 10 <= d <= 35 && (c as int == 87 + d || c as int == 55 + d)
}

/// A digit is a numeral below the base.
proof fn lemma_numeral(c: char, radix: int)
    requires
        2 <= radix <= 36,
    ensures
        is_digit(c, radix) ==> numeral(c, digit_of(c)),
        forall|d: int| 0 <= d < radix && #[trigger] numeral(c, d) ==> is_digit(c, radix)
            && digit_of(c) == d,
{
}

/// The digits in front of a text with one more character behind it.
proof fn lemma_leading_push(s: Seq<char>, c: char, radix: int)
    ensures
        leading_digits(s.push(c), radix) == if leading_digits(s, radix) == s.len() && is_digit(
            c,
            radix,
        ) {
            s.len() as int + 1
        } else {
            leading_digits(s, radix)
        },
    decreases s.len(),
{
    lemma_leading_digits(s, radix);
    if s.len() == 0 {
        assert(s.push(c).drop_first() == Seq::<char>::empty());
        assert(leading_digits(s.push(c).drop_first(), radix) == 0);
    } else {
        assert(s.push(c).drop_first() == s.drop_first().push(c));
        lemma_leading_push(s.drop_first(), c, radix);
        lemma_leading_digits(s.drop_first(), radix);
    }
}

/// The text without its sign, and the digits in front of it, with one more character behind.
proof fn lemma_parsed_push(s: Seq<char>, c: char, radix: int)
    requires
        s.len() > 0 || c != '+',
    ensures
        unsigned(s.push(c)) == unsigned(s).push(c),
        ({
            let digits = unsigned(s);
            let count = leading_digits(digits, radix);
            let more = leading_digits(digits.push(c), radix);
            if count == digits.len() && is_digit(c, radix) {
                &&& more == digits.len() + 1
                &&& digits.push(c).take(more) == digits.push(c)
                &&& digits.take(count) == digits
                &&& value_of(digits.push(c), radix) == value_of(digits, radix) * radix + digit_of(c)
            } else {
                &&& more == count
                &&& digits.push(c).take(more) == digits.take(count)
            }
        }),
{
    let digits = unsigned(s);
    assert(unsigned(s.push(c)) == digits.push(c));
    lemma_leading_push(digits, c, radix);
    lemma_leading_digits(digits, radix);
    assert(digits.push(c).drop_last() == digits);
    assert(digits.take(digits.len() as int) == digits);
    let count = leading_digits(digits, radix);
    assert(digits.push(c).take(count) == digits.take(count));
    assert(digits.push(c).take(digits.len() as int + 1) == digits.push(c));
}

/// A text without characters is no number. One more numeral behind a number makes it that many
/// times the base, and the value of the numeral more, up to the limit; behind a fault it changes
/// nothing, except that the first numeral behind a lone sign makes a number.
pub proof fn law_numerals_make_up_a_number(s: Seq<char>, c: char, d: int, radix: int, max: int)
    requires
        2 <= radix <= 36,
        max >= 0,
        0 <= d < radix,
        numeral(c, d),
    ensures
        parsed(Seq::empty(), radix, max) == Err::<int, NumberError>(NumberError::Empty),
        ({
            let longer = parsed(s.push(c), radix, max);
            if s.len() == 0 || s == seq!['+'] {
                longer == if d <= max {
                    Ok::<int, NumberError>(d)
                } else {
                    Err::<int, NumberError>(NumberError::TooLarge)
                }
            } else {
                match parsed(s, radix, max) {
                    Ok(value) => longer == if value * radix + d <= max {
                        Ok::<int, NumberError>(value * radix + d)
                    } else {
                        Err::<int, NumberError>(NumberError::TooLarge)
                    },
                    Err(fault) => longer == Err::<int, NumberError>(fault),
                }
            }
        }),
{
    lemma_numeral(c, radix);
    lemma_parsed_push(s, c, radix);
    let digits = unsigned(s);
    if s.len() == 0 || s == seq!['+'] {
        assert(digits == Seq::<char>::empty());
        assert(value_of(digits, radix) == 0);
        assert(0 * radix == 0) by (nonlinear_arith);
    } else {
        assert(digits.len() > 0) by {
            if s[0] == '+' && s.len() == 1 {
                assert(s == seq!['+']);
            }
        }
        lemma_leading_digits(digits, radix);
        let count = leading_digits(digits, radix);
        lemma_value_grows(digits, radix, 0, count);
        let value = value_of(digits.take(count), radix);
        assert(value * radix >= value) by (nonlinear_arith)
            requires
                value >= 0,
                radix >= 1,
        ;
    }
}

/// A character that is no numeral of the base makes a text no number, wherever it stands, but for a
/// sign in front.
pub proof fn law_other_characters_are_refused(s: Seq<char>, c: char, radix: int, max: int)
    requires
        2 <= radix <= 36,
        max >= 0,
        forall|d: int| 0 <= d < radix ==> !#[trigger] numeral(c, d),
    ensures
        parsed(s.push(c), radix, max) == Err::<int, NumberError>(
            if parsed(s, radix, max) == Err::<int, NumberError>(NumberError::TooLarge) {
                NumberError::TooLarge
            } else {
                NumberError::InvalidDigit
            },
        ),
{
    lemma_numeral(c, radix);
    if s.len() > 0 || c != '+' {
        lemma_parsed_push(s, c, radix);
        lemma_leading_digits(unsigned(s), radix);
        let digits = unsigned(s);
        assert(digits.take(digits.len() as int) == digits);
        if s.len() == 0 {
            assert(value_of(digits.take(0), radix) == 0);
        }
    } else {
        let digits = unsigned(s.push(c));
        assert(digits == Seq::<char>::empty());
        assert(digits.take(0) == digits);
        assert(value_of(digits, radix) == 0);
        assert(unsigned(s).take(0) == digits);
    }
}

/// A sign in front of a number changes nothing.
pub proof fn law_sign_changes_nothing(s: Seq<char>, radix: int, max: int)
    requires
        s.len() > 0,
        s[0] != '+',
    ensures
        parsed(seq!['+'] + s, radix, max) == parsed(s, radix, max),
{
    assert((seq!['+'] + s).drop_first() == s);
}

/// A number that is read consists of numerals, but for a sign in front.
pub proof fn law_numbers_are_numerals(s: Seq<char>, radix: int, max: int, i: int)
    requires
        2 <= radix <= 36,
        parsed(s, radix, max) is Ok,
        0 <= i < s.len(),
    ensures
        (i == 0 && s[i] == '+') || exists|d: int| 0 <= d < radix && #[trigger] numeral(s[i], d),
{
    let digits = unsigned(s);
    lemma_leading_digits(digits, radix);
    if !(i == 0 && s[i] == '+') {
        if s[0] == '+' {
            assert(digits[i - 1] == s[i]);
        } else {
            assert(digits[i] == s[i]);
        }
        lemma_numeral(s[i], radix);
        assert(numeral(s[i], digit_of(s[i])));
    }
}

/// The reader of numbers keeps to what is said of `parsed`: it gives the number or the fault.
pub proof fn law_parse_number(
    chars: &[char],
    radix: u32,
    max: usize,
    number: Result<usize, NumberError>,
)
    requires
        2 <= radix <= 36,
        call_ensures(parse_number, (chars, radix, max), number),
    ensures
        number is Ok <==> parsed(chars@, radix as int, max as int) is Ok,
        number matches Ok(n) ==> parsed(chars@, radix as int, max as int) == Ok::<int, NumberError>(
            n as int,
        ) && n <= max,
        number matches Err(e) ==> parsed(chars@, radix as int, max as int) == Err::<
            int,
            NumberError,
        >(e),
{
    if parsed(chars@, radix as int, max as int) is Ok {
        lemma_parsed_range(chars@, radix as int, max as int);
    }
}

/// The decimal text of a number has no needless zero in front, and one more digit for one more
/// place: it is the text of the number without its last digit, and then that digit.
pub proof fn law_decimal_digit_by_digit(n: nat, out: &mut String, m: u64)
    requires
        call_ensures(push_decimal, (out, m), ()),
    ensures
        n < 10 ==> decimal(n).len() == 1 && decimal(n)[0] as int == 48 + n,
        n >= 10 ==> decimal(n).drop_last() == decimal(n / 10) && decimal(n).last() as int == 48 + n
            % 10,
        n > 0 ==> decimal(n)[0] != '0',
        final(out)@ == old(out)@ + decimal(m as nat),
    decreases n,
{
    if n >= 10 {
        law_decimal_digit_by_digit(n / 10, out, m);
        lemma_decimal_digits(n / 10);
        assert(decimal(n).drop_last() == decimal(n / 10));
        assert(decimal(n)[0] == decimal(n / 10)[0]);
    }
}

/// A number that has at most so many hexadecimal places is written with exactly so many small
/// digits, and reading them gives it back.
pub proof fn law_hexadecimal_round_trip(n: nat, width: nat, max: int)
    requires
        n < vstd::arithmetic::power::pow(16, width),
        n <= max,
    ensures
        hexadecimal(n, width).len() == width,
        forall|i: int|
            0 <= i < width ==> {
                ||| '0' <= #[trigger] hexadecimal(n, width)[i] <= '9'
                ||| 'a' <= hexadecimal(n, width)[i] <= 'f'
            },
        width > 0 ==> parsed(hexadecimal(n, width), 16, max) == Ok::<int, NumberError>(n as int),
        width == 0 ==> n == 0,
    decreases width,
{
    vstd::arithmetic::power::lemma_pow0(16);
    if width > 0 {
        let less = (width - 1) as nat;
        let front = hexadecimal(n / 16, less);
        let d = (n % 16) as int;
        vstd::arithmetic::power::lemma_pow1(16);
        vstd::arithmetic::power::lemma_pow_adds(16, 1, less);
        assert(n / 16 < vstd::arithmetic::power::pow(16, less)) by (nonlinear_arith)
            requires
                n < vstd::arithmetic::power::pow(16, width),
                vstd::arithmetic::power::pow(16, width) == 16 * vstd::arithmetic::power::pow(
                    16,
                    less,
                ),
        ;
        law_hexadecimal_round_trip(n / 16, less, max);
        assert(numeral(digit_char(d), d));
        law_numerals_make_up_a_number(front, digit_char(d), d, 16, max);
        if less > 0 {
            assert('0' <= front[0] <= '9' || 'a' <= front[0] <= 'f');
            assert(front != seq!['+']) by {
                assert(seq!['+'][0] == '+');
            }
        }
    }
}

/// Each fault of a number is described in its own words.
pub proof fn law_number_errors_are_described(error: &NumberError, text: &'static str)
    requires
        call_ensures(NumberError::message, (error,), text),
    ensures
        text@ == match error {
            NumberError::Empty => "cannot parse integer from empty string"@,
            NumberError::InvalidDigit => "invalid digit found in string"@,
            NumberError::TooLarge => "number too large to fit in target type"@,
        },
{
}

} // verus!
