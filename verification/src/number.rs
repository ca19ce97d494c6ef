//! Decimal numbers: how they are written and how they are read.
use vstd::prelude::*;

use crate::text;

verus! {

/// Why a text is not a number.
#[derive(Clone, Copy, Debug, PartialEq, Eq, Structural)]
pub enum ParseIntError {
    /// The text is empty.
    Empty,
    /// The text holds a character that is no decimal digit.
    InvalidDigit,
    /// The number is larger than the largest one allowed.
    PosOverflow,
}

impl ParseIntError {
    /// The words in which the error is reported.
    pub open spec fn words(self) -> Seq<char> {
        match self {
            ParseIntError::Empty => "cannot parse integer from empty string"@,
            ParseIntError::InvalidDigit => "invalid digit found in string"@,
            ParseIntError::PosOverflow => "number too large to fit in target type"@,
        }
    }

    /// The words in which the error is reported.
    pub fn message(&self) -> (r: String)
        ensures
            r@ == self.words(),
    {
        match self {
            ParseIntError::Empty => "cannot parse integer from empty string".to_owned(),
            ParseIntError::InvalidDigit => "invalid digit found in string".to_owned(),
            ParseIntError::PosOverflow => "number too large to fit in target type".to_owned(),
        }
    }
}

/// Whether `c` is a decimal digit.
pub open spec fn is_digit(c: char) -> bool {
    48 <= c as u32 <= 57
}

/// The value of a decimal digit.
pub open spec fn digit_value(c: char) -> nat {
    (c as u32 - 48) as nat
}

/// The decimal digit of a value below ten.
pub open spec fn digit_char(d: nat) -> char {
    if d == 0 {
        '0'
    } else if d == 1 {
        '1'
    } else if d == 2 {
        '2'
    } else if d == 3 {
        '3'
    } else if d == 4 {
        '4'
    } else if d == 5 {
        '5'
    } else if d == 6 {
        '6'
    } else if d == 7 {
        '7'
    } else if d == 8 {
        '8'
    } else {
        '9'
    }
}

/// `n` in decimal digits, without leading zeros.
pub open spec fn decimal(n: nat) -> Seq<char>
    decreases n,
{
    if n < 10 {
        seq![digit_char(n)]
    } else {
        decimal(n / 10).push(digit_char(n % 10))
    }
}

/// `n` in decimal digits, with a minus sign in front where it is negative.
pub open spec fn signed_decimal(n: int) -> Seq<char> {
    if n < 0 {
        seq!['-'] + decimal((-n) as nat)
    } else {
        decimal(n as nat)
    }
}

/// What reading the digits `s` behind the number `so_far` gives, where no
/// number may be larger than `max`. The first fault from the left counts.
pub open spec fn read_digits(s: Seq<char>, max: nat, so_far: nat) -> Result<nat, ParseIntError>
    decreases s.len(),
{
    if s.len() == 0 {
        Ok(so_far)
    } else if !is_digit(s[0]) {
        Err(ParseIntError::InvalidDigit)
    } else if so_far * 10 + digit_value(s[0]) > max {
        Err(ParseIntError::PosOverflow)
    } else {
        read_digits(s.drop_first(), max, so_far * 10 + digit_value(s[0]))
    }
}

/// What the text `s` reads as: digits, with a plus sign in front or without.
pub open spec fn read_number(s: Seq<char>, max: nat) -> Result<nat, ParseIntError> {
    if s.len() == 0 {
        Err(ParseIntError::Empty)
    } else if s[0] == '+' {
        if s.len() == 1 {
            Err(ParseIntError::InvalidDigit)
        } else {
            read_digits(s.drop_first(), max, 0)
        }
    } else {
        read_digits(s, max, 0)
    }
}

/// Reads an unsigned number that is at most `max`.
pub fn parse_number(s: &str, max: u64) -> (r: Result<u64, ParseIntError>)
    ensures
        match r {
            Ok(n) => n <= max && read_number(s@, max as nat) == Ok::<nat, ParseIntError>(n as nat),
            Err(e) => read_number(s@, max as nat) == Err::<nat, ParseIntError>(e),
        },
{
    let v = text::chars_of(s);
    if v.len() == 0 {
        return Err(ParseIntError::Empty);
    }
    let mut i: usize = 0;
    if v[0] == '+' {
        if v.len() == 1 {
            return Err(ParseIntError::InvalidDigit);
        }
        i = 1;
        assert(v@.skip(1) =~= v@.drop_first());
    } else {
        assert(v@.skip(0) =~= v@);
    }
    let mut n: u64 = 0;
    while i < v.len()
        invariant
            i <= v.len(),
            n <= max,
            read_number(s@, max as nat) == read_digits(v@.skip(i as int), max as nat, n as nat),
        decreases v.len() - i,
    {
        let code: u32 = v[i] as u32;
        let ghost rest = v@.skip(i as int);
        if code < 48 || code > 57 {
            return Err(ParseIntError::InvalidDigit);
        }
        let d: u64 = (code - 48) as u64;
        if n > max / 10 || d > max - n * 10 {
            return Err(ParseIntError::PosOverflow);
        }
        n = n * 10 + d;
        assert(rest.drop_first() =~= v@.skip(i + 1));
        i = i + 1;
    }
    Ok(n)
}

/// Reads a number of 16 bits.
pub fn parse_u16(s: &str) -> (r: Result<u16, ParseIntError>)
    ensures
        match r {
            Ok(n) => read_number(s@, 0xffff) == Ok::<nat, ParseIntError>(n as nat),
            Err(e) => read_number(s@, 0xffff) == Err::<nat, ParseIntError>(e),
        },
{
    match parse_number(s, 0xffff) {
        Ok(n) => Ok(n as u16),
        Err(e) => Err(e),
    }
}

/// The decimal digit of a value below ten.
fn write_digit(d: u64) -> (c: char)
    requires
        d < 10,
    ensures
        c == digit_char(d as nat),
{
    if d == 0 {
        '0'
    } else if d == 1 {
        '1'
    } else if d == 2 {
        '2'
    } else if d == 3 {
        '3'
    } else if d == 4 {
        '4'
    } else if d == 5 {
        '5'
    } else if d == 6 {
        '6'
    } else if d == 7 {
        '7'
    } else if d == 8 {
        '8'
    } else {
        '9'
    }
}

/// `n` in decimal digits.
pub fn write_number(n: u64) -> (r: String)
    ensures
        r@ == decimal(n as nat),
    decreases n,
{
    if n < 10 {
        let mut r = String::new();
        r.push(write_digit(n));
        assert(r@ =~= seq![digit_char(n as nat)]);
        r
    } else {
        let mut r = write_number(n / 10);
        r.push(write_digit(n % 10));
        r
    }
}

/// `n` in decimal digits, with a minus sign in front where it is negative.
pub fn write_signed(n: i32) -> (r: String)
    ensures
        r@ == signed_decimal(n as int),
{
    if n < 0 {
        let mut r = String::new();
        r.push('-');
        let m: u64 = (-(n as i64)) as u64;
        let digits = write_number(m);
        r.append(digits.as_str());
        assert(r@ =~= seq!['-'] + decimal((-(n as int)) as nat));
        r
    } else {
        write_number(n as u64)
    }
}

proof fn lemma_digit(d: nat)
    requires
        d < 10,
    ensures
        is_digit(digit_char(d)),
        digit_value(digit_char(d)) == d,
        digit_char(d) != '+',
{
}

proof fn lemma_read_append(s: Seq<char>, c: char, max: nat, so_far: nat, n: nat)
    requires
        read_digits(s, max, so_far) == Ok::<nat, ParseIntError>(n),
        is_digit(c),
        n * 10 + digit_value(c) <= max,
    ensures
        read_digits(s.push(c), max, so_far) == Ok::<nat, ParseIntError>(n * 10 + digit_value(c)),
    decreases s.len(),
{
    if s.len() == 0 {
        assert(s.push(c).drop_first() =~= Seq::empty());
        assert(read_digits(s.push(c).drop_first(), max, n * 10 + digit_value(c)) == Ok::<
            nat,
            ParseIntError,
        >(n * 10 + digit_value(c)));
    } else {
        assert(s.push(c).drop_first() =~= s.drop_first().push(c));
        lemma_read_append(s.drop_first(), c, max, so_far * 10 + digit_value(s[0]), n);
    }
}

proof fn lemma_read_decimal(n: nat, max: nat)
    requires
        n <= max,
    ensures
        decimal(n).len() > 0,
        decimal(n)[0] != '+',
        forall|k: int| 0 <= k < decimal(n).len() ==> is_digit(#[trigger] decimal(n)[k]),
        read_digits(decimal(n), max, 0) == Ok::<nat, ParseIntError>(n),
    decreases n,
{
    if n < 10 {
        lemma_digit(n);
        assert(read_digits(decimal(n).drop_first(), max, n) == Ok::<nat, ParseIntError>(n));
    } else {
        lemma_read_decimal(n / 10, max);
        lemma_digit(n % 10);
        lemma_read_append(decimal(n / 10), digit_char(n % 10), max, 0, n / 10);
    }
}

/// A number that was written reads back as itself, whatever the largest
/// number allowed, as long as that is not smaller.
pub proof fn written_number_reads_back(n: nat, max: nat)
    requires
        n <= max,
    ensures
        read_number(decimal(n), max) == Ok::<nat, ParseIntError>(n),
{
    lemma_read_decimal(n, max);
}

/// A written number holds decimal digits only, and at least one.
pub proof fn written_number_is_digits(n: nat)
    ensures
        decimal(n).len() > 0,
        forall|k: int| 0 <= k < decimal(n).len() ==> is_digit(#[trigger] decimal(n)[k]),
{
    lemma_read_decimal(n, n);
}

proof fn lemma_read_digits(s: Seq<char>, max: nat, so_far: nat)
    requires
        so_far <= max,
    ensures
        read_digits(s, max, so_far) matches Ok(n) ==> {
            &&& so_far <= n <= max
            &&& forall|k: int| 0 <= k < s.len() ==> is_digit(#[trigger] s[k])
        },
        read_digits(s, max, so_far) != Err::<nat, ParseIntError>(ParseIntError::Empty),
    decreases s.len(),
{
    if s.len() > 0 && is_digit(s[0]) && so_far * 10 + digit_value(s[0]) <= max {
        lemma_read_digits(s.drop_first(), max, so_far * 10 + digit_value(s[0]));
        if read_digits(s, max, so_far) is Ok {
            assert forall|k: int| 0 <= k < s.len() implies is_digit(#[trigger] s[k]) by {
                if k > 0 {
                    assert(s.drop_first()[k - 1] == s[k]);
                }
            }
        }
    }
}

/// A number that is read fits, and its text is digits, behind a plus sign or
/// not. Only an empty text is said to be empty.
pub proof fn number_that_is_read_fits(s: Seq<char>, max: nat)
    ensures
        read_number(s, max) matches Ok(n) ==> {
            &&& n <= max
            &&& s.len() > 0
            &&& forall|k: int| 1 <= k < s.len() ==> is_digit(#[trigger] s[k])
            &&& is_digit(s[0]) || s[0] == '+' && s.len() > 1
        },
        read_number(s, max) == Err::<nat, ParseIntError>(ParseIntError::Empty) <==> s.len() == 0,
{
    lemma_read_digits(s, max, 0);
    if s.len() > 0 {
        lemma_read_digits(s.drop_first(), max, 0);
        if read_number(s, max) is Ok {
            assert forall|k: int| 1 <= k < s.len() implies is_digit(#[trigger] s[k]) by {
                assert(s.drop_first()[k - 1] == s[k]);
            }
        }
    }
}

proof fn lemma_too_large(n: nat, max: nat)
    requires
        n > max,
    ensures
        read_digits(decimal(n), max, 0) == Err::<nat, ParseIntError>(ParseIntError::PosOverflow),
    decreases n,
{
    lemma_digit(n % 10);
    if n < 10 {
        let s = decimal(n);
        assert(s[0] == digit_char(n));
    } else {
        let front = decimal(n / 10);
        let c = digit_char(n % 10);
        if n / 10 > max {
            lemma_too_large(n / 10, max);
            lemma_failure_stays(front, c, max, 0);
        } else {
            lemma_read_decimal(n / 10, max);
            lemma_last_digit_is_too_much(front, c, max, 0, n / 10);
        }
    }
}

proof fn lemma_failure_stays(s: Seq<char>, c: char, max: nat, so_far: nat)
    requires
        read_digits(s, max, so_far) is Err,
    ensures
        read_digits(s.push(c), max, so_far) == read_digits(s, max, so_far),
    decreases s.len(),
{
    assert(s.push(c)[0] == s[0]);
    assert(s.push(c).drop_first() =~= s.drop_first().push(c));
    if is_digit(s[0]) && so_far * 10 + digit_value(s[0]) <= max {
        lemma_failure_stays(s.drop_first(), c, max, so_far * 10 + digit_value(s[0]));
    }
}

proof fn lemma_last_digit_is_too_much(s: Seq<char>, c: char, max: nat, so_far: nat, n: nat)
    requires
        read_digits(s, max, so_far) == Ok::<nat, ParseIntError>(n),
        is_digit(c),
        n * 10 + digit_value(c) > max,
    ensures
        read_digits(s.push(c), max, so_far) == Err::<nat, ParseIntError>(
            ParseIntError::PosOverflow,
        ),
    decreases s.len(),
{
    if s.len() == 0 {
        assert(s.push(c)[0] == c);
    } else {
        assert(s.push(c)[0] == s[0]);
        assert(s.push(c).drop_first() =~= s.drop_first().push(c));
        lemma_last_digit_is_too_much(
            s.drop_first(),
            c,
            max,
            so_far * 10 + digit_value(s[0]),
            n,
        );
    }
}

proof fn lemma_zeros(zeros: Seq<char>, s: Seq<char>, max: nat)
    requires
        forall|k: int| 0 <= k < zeros.len() ==> #[trigger] zeros[k] == '0',
    ensures
        read_digits(zeros + s, max, 0) == read_digits(s, max, 0),
    decreases zeros.len(),
{
    if zeros.len() == 0 {
        assert(zeros + s =~= s);
    } else {
        assert((zeros + s)[0] == zeros[0]);
        assert((zeros + s).drop_first() =~= zeros.drop_first() + s);
        assert forall|k: int| 0 <= k < zeros.drop_first().len() implies
            #[trigger] zeros.drop_first()[k] == '0' by {
            assert(zeros.drop_first()[k] == zeros[k + 1]);
        }
        lemma_zeros(zeros.drop_first(), s, max);
    }
}

/// A number is read with zeros and a plus sign in front of it, and it is refused
/// exactly where it is larger than what it is read for.
pub proof fn every_number_that_fits_is_read(zeros: Seq<char>, n: nat, max: nat)
    requires
        forall|k: int| 0 <= k < zeros.len() ==> #[trigger] zeros[k] == '0',
    ensures
        n <= max ==> {
            &&& read_number(zeros + decimal(n), max) == Ok::<nat, ParseIntError>(n)
            &&& read_number("+"@ + zeros + decimal(n), max) == Ok::<nat, ParseIntError>(n)
        },
        n > max ==> {
            &&& read_number(zeros + decimal(n), max) == Err::<nat, ParseIntError>(
                ParseIntError::PosOverflow,
            )
            &&& read_number("+"@ + zeros + decimal(n), max) == Err::<nat, ParseIntError>(
                ParseIntError::PosOverflow,
            )
        },
{
    reveal_strlit("+");
    let digits = decimal(n);
    let s = zeros + digits;
    written_number_is_digits(n);
    lemma_zeros(zeros, digits, max);
    if n <= max {
        lemma_read_decimal(n, max);
    } else {
        lemma_too_large(n, max);
    }
    assert(is_digit(digits[0]));
    assert(s[0] == if zeros.len() == 0 {
        digits[0]
    } else {
        zeros[0]
    });
    let signed = "+"@ + zeros + digits;
    assert(signed[0] == '+');
    assert(signed.drop_first() =~= s);
}

/// A number below zero is written with a sign in front of it, and any other as
/// it is.
pub proof fn sign_stands_in_front(n: nat)
    ensures
        signed_decimal(n as int) == decimal(n),
        n > 0 ==> signed_decimal(-(n as int)) == "-"@ + decimal(n),
{
    reveal_strlit("-");
    assert(seq!['-'] =~= "-"@);
}

proof fn lemma_then_no_digit(s: Seq<char>, c: char, rest: Seq<char>, max: nat, so_far: nat)
    requires
        read_digits(s, max, so_far) is Ok,
        !is_digit(c),
    ensures
        read_digits(s + seq![c] + rest, max, so_far) == Err::<nat, ParseIntError>(
            ParseIntError::InvalidDigit,
        ),
    decreases s.len(),
{
    let all = s + seq![c] + rest;
    if s.len() == 0 {
        assert(all[0] == c);
    } else {
        assert(all[0] == s[0]);
        assert(all.drop_first() =~= s.drop_first() + seq![c] + rest);
        lemma_then_no_digit(s.drop_first(), c, rest, max, so_far * 10 + digit_value(s[0]));
    }
}

/// A text with a character that is no digit is no number, wherever it stands
/// behind a number that fits, and a sign alone is none.
pub proof fn other_characters_are_refused(n: nat, max: nat, c: char, rest: Seq<char>)
    requires
        n <= max,
        !is_digit(c),
    ensures
        read_number(decimal(n) + seq![c] + rest, max) == Err::<nat, ParseIntError>(
            ParseIntError::InvalidDigit,
        ),
        c != '+' ==> read_number(seq![c] + rest, max) == Err::<nat, ParseIntError>(
            ParseIntError::InvalidDigit,
        ),
        read_number("+"@, max) == Err::<nat, ParseIntError>(ParseIntError::InvalidDigit),
{
    reveal_strlit("+");
    lemma_read_decimal(n, max);
    lemma_then_no_digit(decimal(n), c, rest, max, 0);
    assert((decimal(n) + seq![c] + rest)[0] == decimal(n)[0]);
    assert((seq![c] + rest)[0] == c);
}

} // verus!
