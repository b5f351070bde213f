//! Sizes: the grammar of a size argument, the bytes it stands for, and the
//! sectors an image of that many bytes needs.
//!
//! A size is written as a decimal number, directly followed by an optional
//! unit and an optional `b` that means nothing. The unit is one of `k`, `m`,
//! `g`, alone or with an `i` after it for the binary scale. Letters count
//! in either case. `"10"`, `"1.5M"`, `"2GiB"` and `"512b"` are sizes;
//! `"abc"`, `".5"`, `"-5M"`, `"10 M"` and `"10i"` are not.
use vstd::prelude::*;
use vstd::string::*;
use vstd::arithmetic::div_mod::*;
use crate::error::Error;

verus! {

/// Bytes in one sector of an image.
pub const SECTOR_SIZE: u32 = 512;

/// The number of sectors that hold `byte_size` bytes: the least `n` with
/// `n * 512 >= byte_size`.
pub fn sector_count(byte_size: u32) -> (sectors: u32)
    ensures
        sectors * SECTOR_SIZE >= byte_size,
        byte_size > 0 ==> (sectors - 1) * SECTOR_SIZE < byte_size,
        byte_size == 0 ==> sectors == 0,
        sectors == (byte_size + 511) / 512,
{
    let whole: u32 = byte_size / SECTOR_SIZE;
    if byte_size % SECTOR_SIZE == 0 {
        whole
    } else {
        whole + 1
    }
}

/// The factor that a unit multiplies a number by.
#[derive(Clone, Copy, Debug, PartialEq, Eq, Structural)]
pub enum Scale {
    /// No unit: bytes.
    One,
    /// `k`: 1000.
    Kilo,
    /// `ki`: 1024.
    Kibi,
    /// `m`: 1000 * 1000.
    Mega,
    /// `mi`: 1024 * 1024.
    Mebi,
    /// `g`: 1000 * 1000 * 1000.
    Giga,
    /// `gi`: 1024 * 1024 * 1024.
    Gibi,
}

impl Scale {
    pub open spec fn spec_multiplier(self) -> nat {
        match self {
            Scale::One => 1,
            Scale::Kilo => 1000,
            Scale::Kibi => 1024,
            Scale::Mega => 1000000,
            Scale::Mebi => 1048576,
            Scale::Giga => 1000000000,
            Scale::Gibi => 1073741824,
        }
    }

    /// The factor itself.
    pub fn multiplier(self) -> (factor: u32)
        ensures
            factor == self.spec_multiplier(),
    {
        match self {
            Scale::One => 1,
            Scale::Kilo => 1000,
            Scale::Kibi => 1024,
            Scale::Mega => 1000000,
            Scale::Mebi => 1048576,
            Scale::Giga => 1000000000,
            Scale::Gibi => 1073741824,
        }
    }

    /// Ten to the thirtieth, divided by the factor. Every factor divides it.
    fn thirty_digits_over(self) -> (quotient: u128)
        ensures
            quotient * self.spec_multiplier() == pow10(30),
            quotient > 0,
    {
        proof {
            lemma_pow10_thirty();
        }
        match self {
            Scale::One => 1000000000000000000000000000000,
            Scale::Kilo => 1000000000000000000000000000,
            Scale::Kibi => 976562500000000000000000000,
            Scale::Mega => 1000000000000000000000000,
            Scale::Mebi => 953674316406250000000000,
            Scale::Giga => 1000000000000000000000,
            Scale::Gibi => 931322574615478515625,
        }
    }
}

pub open spec fn is_digit(c: char) -> bool {
    '0' <= c && c <= '9'
}

/// What a digit counts for; nothing, for any other character.
pub open spec fn digit_value(c: char) -> nat {
    if is_digit(c) {
        (c as u32 - '0' as u32) as nat
    } else {
        0
    }
}

/// The number that a string of decimal digits writes.
pub open spec fn digits_value(digits: Seq<char>) -> nat
    decreases digits.len(),
{
    if digits.len() == 0 {
        0
    } else {
        digits_value(digits.drop_last()) * 10 + digit_value(digits.last())
    }
}

pub open spec fn pow10(n: nat) -> nat
    decreases n,
{
    if n == 0 {
        1
    } else {
        10 * pow10((n - 1) as nat)
    }
}

/// The end of the longest run of digits in `s` that starts at `from`.
pub open spec fn digits_end(s: Seq<char>, from: int) -> int
    decreases s.len() - from,
{
    if 0 <= from < s.len() && is_digit(s[from]) {
        digits_end(s, from + 1)
    } else {
        from
    }
}

/// The scale that a unit letter names: the decimal one, or with `binary`
/// the binary one. `None` for any other character.
pub open spec fn letter_scale(c: char, binary: bool) -> Option<Scale> {
    if c == 'k' || c == 'K' {
        Some(if binary { Scale::Kibi } else { Scale::Kilo })
    } else if c == 'm' || c == 'M' {
        Some(if binary { Scale::Mebi } else { Scale::Mega })
    } else if c == 'g' || c == 'G' {
        Some(if binary { Scale::Gibi } else { Scale::Giga })
    } else {
        None
    }
}

/// The scale that the letters after the number select, if they are a unit
/// and at most one `b` after it. The unit is nothing, or one of `k`, `m`,
/// `g`, or one of those with an `i` after it; an `i` alone is no unit.
pub open spec fn suffix_scale(letters: Seq<char>) -> Option<Scale> {
    let unit = if letters.len() > 0 && (letters.last() == 'b' || letters.last() == 'B') {
        letters.drop_last()
    } else {
        letters
    };
    if unit.len() == 0 {
        Some(Scale::One)
    } else if unit.len() == 1 {
        letter_scale(unit[0], false)
    } else if unit.len() == 2 && (unit[1] == 'i' || unit[1] == 'I') {
        letter_scale(unit[0], true)
    } else {
        None
    }
}

/// A size as it was written: the digits before the point, the digits after
/// it, and the scale of the unit.
pub struct Magnitude {
    pub whole: Seq<char>,
    pub fraction: Seq<char>,
    pub scale: Scale,
}

impl Magnitude {
    /// The bytes that the size stands for: the number times the factor,
    /// with what is left after the point cut off.
    pub open spec fn byte_count(self) -> nat {
        digits_value(self.whole + self.fraction) * self.scale.spec_multiplier() / pow10(
            self.fraction.len(),
        )
    }
}

/// Reads `s` as a size: the number is the digits at its head and, where a
/// point follows them, the point and the digits after it; all that follows
/// the number is the unit. `None` where `s` is not a size.
pub open spec fn read_size(s: Seq<char>) -> Option<Magnitude> {
    let whole_end = digits_end(s, 0);
    let has_point = whole_end < s.len() && s[whole_end] == '.';
    let number_end = if has_point {
        digits_end(s, whole_end + 1)
    } else {
        whole_end
    };
    let scale = suffix_scale(s.subrange(number_end, s.len() as int));
    if whole_end >= 1 && scale is Some {
        Some(
            Magnitude {
                whole: s.subrange(0, whole_end),
                fraction: if has_point {
                    s.subrange(whole_end + 1, number_end)
                } else {
                    Seq::empty()
                },
                scale: scale->0,
            },
        )
    } else {
        None
    }
}

/// A size argument, taken apart but not yet turned into bytes.
pub struct SizeSpec {
    whole: Vec<char>,
    fraction: Vec<char>,
    scale: Scale,
}

impl View for SizeSpec {
    type V = Magnitude;

    closed spec fn view(&self) -> Magnitude {
        Magnitude { whole: self.whole@, fraction: self.fraction@, scale: self.scale }
    }
}

fn is_digit_char(c: char) -> (yes: bool)
    ensures
        yes == is_digit(c),
{
    '0' <= c && c <= '9'
}

fn digit_of(c: char) -> (d: u8)
    ensures
        d == digit_value(c),
        d <= 9,
{
    if is_digit_char(c) {
        (c as u32 - '0' as u32) as u8
    } else {
        0
    }
}

/// The characters of `text`, one by one.
fn chars_of(text: &str) -> (chars: Vec<char>)
    ensures
        chars@ == text@,
{
    let mut chars: Vec<char> = Vec::new();
    for c in it: text.chars()
        invariant
            chars@ == it.seq().take(it.index() as int),
            it.seq() == text@,
    {
        chars.push(c);
    }
    chars
}

fn scale_of_letter(c: char, binary: bool) -> (scale: Option<Scale>)
    ensures
        scale == letter_scale(c, binary),
{
    if c == 'k' || c == 'K' {
        Some(if binary { Scale::Kibi } else { Scale::Kilo })
    } else if c == 'm' || c == 'M' {
        Some(if binary { Scale::Mebi } else { Scale::Mega })
    } else if c == 'g' || c == 'G' {
        Some(if binary { Scale::Gibi } else { Scale::Giga })
    } else {
        None
    }
}

/// The scale that `letters[from..]` selects.
fn scale_of_suffix(letters: &Vec<char>, from: usize) -> (scale: Option<Scale>)
    requires
        from <= letters.len(),
    ensures
        scale == suffix_scale(letters@.subrange(from as int, letters.len() as int)),
{
    let ghost tail = letters@.subrange(from as int, letters.len() as int);
    let mut end: usize = letters.len();
    if end > from && (letters[end - 1] == 'b' || letters[end - 1] == 'B') {
        end = end - 1;
    }
    let ghost unit = letters@.subrange(from as int, end as int);
    assert(unit == if tail.len() > 0 && (tail.last() == 'b' || tail.last() == 'B') {
        tail.drop_last()
    } else {
        tail
    });
    if end == from {
        Some(Scale::One)
    } else if end - from == 1 {
        assert(unit[0] == letters@[from as int]);
        scale_of_letter(letters[from], false)
    } else if end - from == 2 && (letters[from + 1] == 'i' || letters[from + 1] == 'I') {
        assert(unit[0] == letters@[from as int]);
        assert(unit[1] == letters@[from + 1]);
        scale_of_letter(letters[from], true)
    } else {
        assert(unit.len() == 2 ==> unit[1] == letters@[from + 1]);
        None
    }
}

impl SizeSpec {
    /// Takes a size argument apart. Fails with `Error::Argument`, which
    /// holds the argument, exactly where `input` is not a size.
    pub fn parse(input: &str) -> (res: Result<SizeSpec, Error>)
        ensures
            match res {
                Ok(spec) => read_size(input@) == Some(spec@),
                Err(Error::Argument { input: text }) => read_size(input@) is None && text@
                    == input@,
                Err(_) => false,
            },
    {
        let chars = chars_of(input);
        let n = chars.len();
        let mut i: usize = 0;
        let mut whole: Vec<char> = Vec::new();
        while i < n && is_digit_char(chars[i])
            invariant
                i <= n,
                n == chars.len(),
                digits_end(chars@, 0) == digits_end(chars@, i as int),
                whole@ == chars@.subrange(0, i as int),
            decreases n - i,
        {
            whole.push(chars[i]);
            i = i + 1;
        }
        let whole_end = i;
        let mut fraction: Vec<char> = Vec::new();
        if i < n && chars[i] == '.' {
            i = i + 1;
            while i < n && is_digit_char(chars[i])
                invariant
                    whole_end < i <= n,
                    n == chars.len(),
                    digits_end(chars@, whole_end + 1) == digits_end(chars@, i as int),
                    fraction@ == chars@.subrange(whole_end + 1, i as int),
                decreases n - i,
            {
                fraction.push(chars[i]);
                i = i + 1;
            }
        }
        let scale = scale_of_suffix(&chars, i);
        if whole_end >= 1 {
            if let Some(scale) = scale {
                return Ok(SizeSpec { whole, fraction, scale });
            }
        }
        Err(Error::Argument { input: input.to_owned() })
    }

    /// The bytes that the size stands for. Fails with `Error::Overflow`
    /// exactly where they are more than 32 bits hold.
    pub fn resolve(&self) -> (res: Result<u32, Error>)
        ensures
            match res {
                Ok(bytes) => bytes == self@.byte_count(),
                Err(Error::Overflow) => self@.byte_count() > u32::MAX,
                Err(_) => false,
            },
    {
        let ghost whole = self.whole@;
        let ghost fraction = self.fraction@;
        // The number before the point, or 2^32 where it is that or more.
        let mut units: u64 = 0;
        let mut i: usize = 0;
        while i < self.whole.len()
            invariant
                i <= self.whole.len(),
                whole == self.whole@,
                units <= 0x1_0000_0000,
                units < 0x1_0000_0000 ==> units == digits_value(whole.take(i as int)),
                units == 0x1_0000_0000 ==> digits_value(whole.take(i as int)) >= 0x1_0000_0000,
            decreases self.whole.len() - i,
        {
            let c = self.whole[i];
            assert(whole.take(i + 1).drop_last() == whole.take(i as int));
            units = units * 10 + digit_of(c) as u64;
            if units > 0x1_0000_0000 {
                units = 0x1_0000_0000;
            }
            i = i + 1;
        }
        assert(whole.take(i as int) == whole);
        // The first thirty digits after the point, as a number of thirty
        // digits. The digits after those change nothing in the result.
        let mut parts: u128 = 0;
        let mut taken: usize = 0;
        proof {
            lemma_pow10_thirty();
        }
        while taken < self.fraction.len() && taken < 30
            invariant
                taken <= self.fraction.len(),
                taken <= 30,
                fraction == self.fraction@,
                parts == digits_value(fraction.take(taken as int)),
                pow10(30) == 1000000000000000000000000000000,
            decreases 30 - taken,
        {
            let c = self.fraction[taken];
            proof {
                assert(fraction.take(taken + 1).drop_last() == fraction.take(taken as int));
                lemma_value_bound(fraction.take(taken as int));
                lemma_pow10_grows((taken + 1) as nat, 30);
            }
            parts = parts * 10 + digit_of(c) as u128;
            taken = taken + 1;
        }
        let ghost read = taken;
        let mut padded: usize = taken;
        proof {
            lemma_value_bound(fraction.take(read as int));
            let v = digits_value(fraction.take(read as int)) as int;
            let one = pow10((padded - read) as nat) as int;
            assert(one == 1);
            assert(v == v * one) by (nonlinear_arith)
                requires
                    one == 1,
            ;
        }
        while padded < 30
            invariant
                read <= padded <= 30,
                parts == digits_value(fraction.take(read as int)) * pow10((padded - read) as nat),
                parts < pow10(padded as nat),
                pow10(30) == 1000000000000000000000000000000,
            decreases 30 - padded,
        {
            proof {
                lemma_pow10_grows((padded + 1) as nat, 30);
                let v = digits_value(fraction.take(read as int)) as int;
                let p = pow10((padded - read) as nat) as int;
                assert((v * p) * 10 == v * (10 * p)) by (nonlinear_arith);
            }
            parts = parts * 10;
            padded = padded + 1;
        }
        let factor: u64 = self.scale.multiplier() as u64;
        let divisor: u128 = self.scale.thirty_digits_over();
        let after_point: u128 = parts / divisor;
        proof {
            let k = fraction.len();
            let fv = digits_value(fraction);
            lemma_value_concat(whole, fraction);
            lemma_value_bound(fraction);
            if k <= 30 {
                assert(fraction.take(read as int) == fraction);
            } else {
                let v = digits_value(fraction.take(30)) as int;
                let one = pow10((padded - read) as nat) as int;
                assert(one == 1);
                assert(v * one == v) by (nonlinear_arith)
                    requires
                        one == 1,
                ;
                let head = fraction.take(30);
                let tail = fraction.skip(30);
                assert(head + tail == fraction);
                lemma_value_concat(head, tail);
                lemma_value_bound(tail);
                lemma_pow10_positive((k - 30) as nat);
                lemma_fundamental_div_mod_converse(
                    fv as int,
                    pow10((k - 30) as nat) as int,
                    digits_value(head) as int,
                    digits_value(tail) as int,
                );
            }
            lemma_scaled_fraction(
                digits_value(whole),
                fv,
                k,
                factor as nat,
                divisor as nat,
                parts as nat,
            );
            assert(self@.byte_count() == digits_value(whole) * factor + after_point);
            assert(parts / divisor < factor) by (nonlinear_arith)
                requires
                    parts < divisor * factor,
                    divisor > 0,
            ;
        }
        if units >= 0x1_0000_0000 {
            proof {
                let w = digits_value(whole) as int;
                let f = factor as int;
                assert(w * f >= w) by (nonlinear_arith)
                    requires
                        w >= 0,
                        f >= 1,
                ;
            }
            return Err(Error::Overflow);
        }
        assert(units * factor <= 0xffff_ffff * 0x4000_0000) by (nonlinear_arith)
            requires
                units <= 0xffff_ffff,
                factor <= 0x4000_0000,
        ;
        let total: u64 = units * factor + after_point as u64;
        if total > 0xffff_ffff {
            Err(Error::Overflow)
        } else {
            Ok(total as u32)
        }
    }
}

/// The bytes that a size argument stands for.
///
/// Fails with `Error::Argument` exactly where `input` is not a size, and
/// with `Error::Overflow` exactly where it is one of more bytes than 32
/// bits hold.
pub fn try_from_size_str(input: &str) -> (res: Result<u32, Error>)
    ensures
        match res {
            Ok(bytes) => read_size(input@) matches Some(size) && size.byte_count() == bytes,
            Err(Error::Argument { input: text }) => read_size(input@) is None && text@ == input@,
            Err(Error::Overflow) => read_size(input@) matches Some(size) && size.byte_count()
                > u32::MAX,
            Err(_) => false,
        },
{
    match SizeSpec::parse(input) {
        Ok(spec) => spec.resolve(),
        Err(e) => Err(e),
    }
}

/// Every character is a decimal digit.
pub open spec fn all_digits(s: Seq<char>) -> bool {
    forall|i: int| 0 <= i < s.len() ==> is_digit(#[trigger] s[i])
}

/// A size as it is written: the digits before the point; where there is a
/// point, the point and the digits after it; and directly after the number
/// the letters of the unit.
pub open spec fn written(whole: Seq<char>, point: bool, fraction: Seq<char>, letters: Seq<char>) -> Seq<
    char,
> {
    whole + (if point {
        seq!['.'] + fraction
    } else {
        Seq::empty()
    }) + letters
}

/// The parts fit the grammar: at least one digit before the point, digits
/// after it and none without it, and letters that are a unit.
pub open spec fn is_size(whole: Seq<char>, point: bool, fraction: Seq<char>, letters: Seq<char>) -> bool {
    &&& whole.len() >= 1
    &&& all_digits(whole)
    &&& all_digits(fraction)
    &&& point || fraction.len() == 0
    &&& suffix_scale(letters) is Some
}

/// The letters that are a unit, with the `b` that may follow: there are
/// fourteen, taken without regard to case, and these are all.
pub proof fn lemma_units(letters: Seq<char>)
    ensures
        suffix_scale(letters) is Some <==> {
            let unit = if letters.len() > 0 && (letters.last() == 'b' || letters.last() == 'B') {
                letters.drop_last()
            } else {
                letters
            };
            let is_letter = |c: char|
                c == 'k' || c == 'K' || c == 'm' || c == 'M' || c == 'g' || c == 'G';
            ||| unit.len() == 0
            ||| unit.len() == 1 && is_letter(unit[0])
            ||| unit.len() == 2 && is_letter(unit[0]) && (unit[1] == 'i' || unit[1] == 'I')
        },
{
}

/// What is written by the grammar is read as it was written: the same
/// digits before and after the point, and the scale of the unit.
pub proof fn lemma_written_size_is_read(
    whole: Seq<char>,
    point: bool,
    fraction: Seq<char>,
    letters: Seq<char>,
)
    requires
        is_size(whole, point, fraction, letters),
    ensures
        read_size(written(whole, point, fraction, letters)) == Some(
            Magnitude { whole, fraction, scale: suffix_scale(letters)->0 },
        ),
{
    let s = written(whole, point, fraction, letters);
    let a = whole.len() as int;
    let b = if point {
        a + 1 + fraction.len()
    } else {
        a
    };
    lemma_unit_letters(letters);
    assert(s.len() == b + letters.len());
    assert forall|j: int| 0 <= j < a implies is_digit(#[trigger] s[j]) by {
        assert(s[j] == whole[j]);
    }
    assert(a < s.len() ==> !is_digit(s[a]) && (s[a] == '.' <==> point)) by {
        if a < s.len() {
            if point {
                assert(s[a] == '.');
            } else {
                assert(s[a] == letters[0]);
            }
        }
    }
    lemma_digits_run(s, 0, a);
    if point {
        assert forall|j: int| a + 1 <= j < b implies is_digit(#[trigger] s[j]) by {
            assert(s[j] == fraction[j - a - 1]);
        }
        assert(b < s.len() ==> !is_digit(s[b])) by {
            if b < s.len() {
                assert(s[b] == letters[0]);
            }
        }
        lemma_digits_run(s, a + 1, b);
        assert(s.subrange(a + 1, b) == fraction);
    } else {
        assert(fraction == Seq::<char>::empty());
    }
    assert(s.subrange(b, s.len() as int) == letters);
    assert(s.subrange(0, a) == whole);
}

/// What is read as a size is written by the grammar: it is the digits that
/// were read, with a point or without, and the letters of a unit of the
/// scale that was read. Whatever is not written so is no size.
pub proof fn lemma_read_size_is_written(s: Seq<char>)
    requires
        read_size(s) is Some,
    ensures
        exists|point: bool, letters: Seq<char>|
            {
                &&& #[trigger] written(
                    read_size(s)->0.whole,
                    point,
                    read_size(s)->0.fraction,
                    letters,
                ) == s
                &&& is_size(read_size(s)->0.whole, point, read_size(s)->0.fraction, letters)
                &&& suffix_scale(letters) == Some(read_size(s)->0.scale)
            },
{
    let size = read_size(s)->0;
    let a = digits_end(s, 0);
    lemma_digits_end(s, 0);
    let point = a < s.len() && s[a] == '.';
    let b = if point {
        digits_end(s, a + 1)
    } else {
        a
    };
    if point {
        lemma_digits_end(s, a + 1);
    }
    let letters = s.subrange(b, s.len() as int);
    assert(written(size.whole, point, size.fraction, letters) == s);
    assert(is_size(size.whole, point, size.fraction, letters));
}

/// The letters of a unit are letters: no digit and no point is among
/// them.
proof fn lemma_unit_letters(letters: Seq<char>)
    requires
        suffix_scale(letters) is Some,
    ensures
        letters.len() <= 3,
        forall|j: int|
            0 <= j < letters.len() ==> {
                let c = #[trigger] letters[j];
                !is_digit(c) && c != '.'
            },
{
    let unit = if letters.len() > 0 && (letters.last() == 'b' || letters.last() == 'B') {
        letters.drop_last()
    } else {
        letters
    };
    assert forall|j: int| 0 <= j < letters.len() implies {
        let c = #[trigger] letters[j];
        !is_digit(c) && c != '.'
    } by {
        if j < unit.len() {
            assert(letters[j] == unit[j]);
        } else {
            assert(letters[j] == letters.last());
        }
    }
}

proof fn lemma_digits_run(s: Seq<char>, from: int, to: int)
    requires
        0 <= from <= to <= s.len(),
        forall|j: int| from <= j < to ==> is_digit(#[trigger] s[j]),
        to < s.len() ==> !is_digit(s[to]),
    ensures
        digits_end(s, from) == to,
    decreases to - from,
{
    if from < to {
        lemma_digits_run(s, from + 1, to);
    }
}

proof fn lemma_digits_end(s: Seq<char>, from: int)
    requires
        0 <= from <= s.len(),
    ensures
        from <= digits_end(s, from) <= s.len(),
        all_digits(s.subrange(from, digits_end(s, from))),
        digits_end(s, from) < s.len() ==> !is_digit(s[digits_end(s, from)]),
    decreases s.len() - from,
{
    if from < s.len() && is_digit(s[from]) {
        lemma_digits_end(s, from + 1);
        let end = digits_end(s, from);
        assert forall|i: int| 0 <= i < end - from implies is_digit(
            #[trigger] s.subrange(from, end)[i],
        ) by {
            if i > 0 {
                assert(s.subrange(from, end)[i] == s.subrange(from + 1, end)[i - 1]);
            }
        }
    }
}

proof fn lemma_pow10_thirty()
    ensures
        pow10(30) == 1000000000000000000000000000000,
{
    reveal_with_fuel(pow10, 31);
}

proof fn lemma_pow10_positive(n: nat)
    ensures
        pow10(n) > 0,
    decreases n,
{
    if n > 0 {
        lemma_pow10_positive((n - 1) as nat);
    }
}

proof fn lemma_pow10_grows(a: nat, b: nat)
    requires
        a <= b,
    ensures
        pow10(a) <= pow10(b),
    decreases b,
{
    if a < b {
        lemma_pow10_grows(a, (b - 1) as nat);
    }
}

proof fn lemma_pow10_adds(a: nat, b: nat)
    ensures
        pow10(a + b) == pow10(a) * pow10(b),
    decreases a,
{
    if a == 0 {
        assert(pow10(0) == 1);
    } else {
        lemma_pow10_adds((a - 1) as nat, b);
        let x = pow10((a - 1) as nat) as int;
        let y = pow10(b) as int;
        assert(pow10(a + b) == 10 * pow10((a - 1 + b) as nat));
        assert(10 * (x * y) == (10 * x) * y) by (nonlinear_arith);
    }
}

/// A string of digits writes a number below ten to the power of its length.
proof fn lemma_value_bound(digits: Seq<char>)
    ensures
        digits_value(digits) < pow10(digits.len()),
    decreases digits.len(),
{
    if digits.len() > 0 {
        lemma_value_bound(digits.drop_last());
    }
}

/// Digits written after other digits shift those to the left.
proof fn lemma_value_concat(a: Seq<char>, b: Seq<char>)
    ensures
        digits_value(a + b) == digits_value(a) * pow10(b.len()) + digits_value(b),
    decreases b.len(),
{
    let x = digits_value(a) as int;
    if b.len() == 0 {
        assert(a + b == a);
        let one = pow10(b.len()) as int;
        assert(x * one == x) by (nonlinear_arith)
            requires
                one == 1,
        ;
    } else {
        let front = b.drop_last();
        lemma_value_concat(a, front);
        assert((a + b).drop_last() == a + front);
        assert((a + b).last() == b.last());
        assert(pow10(b.len()) == 10 * pow10(front.len()));
        let p = pow10(front.len()) as int;
        let y = digits_value(front) as int;
        assert(digits_value(a + b) == (x * p + y) * 10 + digit_value(b.last()));
        assert((x * p + y) * 10 == x * (10 * p) + y * 10) by (nonlinear_arith);
    }
}

/// The number `w.f`, with `k` digits after the point, times `m`, cut off
/// after the point, is `w * m` and what the first thirty digits of `f` give:
/// `f30` is `f` brought to thirty digits, and `d * m` is ten to the
/// thirtieth.
proof fn lemma_scaled_fraction(w: nat, f: nat, k: nat, m: nat, d: nat, f30: nat)
    requires
        f < pow10(k),
        m > 0,
        d > 0,
        d * m == pow10(30),
        k <= 30 ==> f30 == f * pow10((30 - k) as nat),
        k > 30 ==> f30 == f / pow10((k - 30) as nat),
    ensures
        (w * pow10(k) + f) * m / pow10(k) == w * m + f30 / d,
        f30 < d * m,
{
    let p = pow10(k) as int;
    let (wi, fi, mi, di) = (w as int, f as int, m as int, d as int);
    lemma_pow10_positive(k);
    assert((wi * p + fi) * mi == fi * mi + (wi * mi) * p) by (nonlinear_arith);
    lemma_hoist_over_denominator(fi * mi, wi * mi, p as nat);
    assert((wi * p + fi) * mi / p == wi * mi + (fi * mi) / p);
    if k <= 30 {
        let x = pow10((30 - k) as nat) as int;
        lemma_pow10_positive((30 - k) as nat);
        lemma_pow10_adds((30 - k) as nat, k);
        assert(x * p == di * mi);
        assert(0 <= fi * mi) by (nonlinear_arith)
            requires
                fi >= 0,
                mi >= 0,
        ;
        lemma_div_multiples_vanish_quotient(x, fi * mi, p);
        assert(x * (fi * mi) == mi * (fi * x)) by (nonlinear_arith);
        assert(x * p == mi * di) by (nonlinear_arith)
            requires
                x * p == di * mi,
        ;
        assert(0 <= fi * x) by (nonlinear_arith)
            requires
                fi >= 0,
                x >= 0,
        ;
        lemma_div_multiples_vanish_quotient(mi, fi * x, di);
        assert(fi * x < x * p) by (nonlinear_arith)
            requires
                fi < p,
                x > 0,
        ;
    } else {
        let y = pow10((k - 30) as nat) as int;
        lemma_pow10_positive((k - 30) as nat);
        lemma_pow10_adds(30, (k - 30) as nat);
        assert(p == (di * mi) * y);
        assert(p == mi * (y * di)) by (nonlinear_arith)
            requires
                p == (di * mi) * y,
        ;
        assert(0 < y * di) by (nonlinear_arith)
            requires
                y > 0,
                di > 0,
        ;
        lemma_div_multiples_vanish_quotient(mi, fi, y * di);
        assert(fi * mi == mi * fi) by (nonlinear_arith);
        lemma_div_denominator(fi, y, di);
        assert(fi / y < di * mi) by (nonlinear_arith)
            requires
                fi < (di * mi) * y,
                y > 0,
                fi >= 0,
        ;
    }
}

} // verus!
