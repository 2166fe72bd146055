//! The texts that write a number in decimal notation: an integer or a real.
//!
//! An integer is written with an optional sign and then digits only. A real
//! is written with an optional sign, then either one of the words
//! `inf`, `infinity` and `nan` in any mix of upper and lower case, or a
//! decimal number: digits with an optional point among them, then an
//! optional exponent, which is the letter `e` or `E`, an optional sign and
//! at least one digit. Only the shape of the text is decided here; its value
//! is left to the caller.

use crate::text::chars_of;
use vstd::prelude::*;

verus! {

/// The decimal digits `0` to `9`.
pub open spec fn is_digit(c: char) -> bool {
    0x30 <= c as u32 <= 0x39
}

/// Every character is a decimal digit.
pub open spec fn all_digits(s: Seq<char>) -> bool {
    forall|i: int| 0 <= i < s.len() ==> is_digit(#[trigger] s[i])
}

/// The signs `+` and `-`.
pub open spec fn is_sign(c: char) -> bool {
    c == '+' || c == '-'
}

/// A text without the sign that it starts with, where it starts with one.
pub open spec fn unsigned(s: Seq<char>) -> Seq<char> {
    if s.len() > 0 && is_sign(s[0]) {
        s.drop_first()
    } else {
        s
    }
}

/// The code of a character, an upper-case letter of the Latin alphabet
/// counted as its lower-case letter.
pub open spec fn lower(c: char) -> u32 {
    if 0x41 <= c as u32 <= 0x5A {
        (c as u32 + 0x20) as u32
    } else {
        c as u32
    }
}

/// The text is `word`, in any mix of upper and lower case.
pub open spec fn is_word(s: Seq<char>, word: Seq<char>) -> bool {
    &&& s.len() == word.len()
    &&& forall|i: int| 0 <= i < s.len() ==> lower(#[trigger] s[i]) == word[i] as u32
}

/// How many digits stand in a row from place `from` on.
pub open spec fn digits_from(s: Seq<char>, from: int) -> int
    decreases s.len() - from,
{
    if 0 <= from < s.len() && is_digit(s[from]) {
        1 + digits_from(s, from + 1)
    } else {
        0
    }
}

/// What may follow the letter `e`: an optional sign and at least one digit.
pub open spec fn is_exponent(s: Seq<char>) -> bool {
    unsigned(s).len() > 0 && all_digits(unsigned(s))
}

/// Where the mantissa of a number ends: behind its leading digits and, where
/// a point follows them, behind the point and the digits after it.
pub open spec fn mantissa_end(s: Seq<char>) -> int {
    let whole = digits_from(s, 0);
    if whole < s.len() && s[whole] == '.' {
        whole + 1 + digits_from(s, whole + 1)
    } else {
        whole
    }
}

/// The number of digits in the mantissa.
pub open spec fn mantissa_digits(s: Seq<char>) -> int {
    let whole = digits_from(s, 0);
    if whole < s.len() && s[whole] == '.' {
        whole + digits_from(s, whole + 1)
    } else {
        whole
    }
}

/// A decimal number without sign: a mantissa with at least one digit, and
/// then either nothing or the letter `e` and an exponent.
pub open spec fn is_number(s: Seq<char>) -> bool {
    let end = mantissa_end(s);
    &&& mantissa_digits(s) >= 1
    &&& (end == s.len() || (lower(s[end]) == 'e' as u32 && is_exponent(s.skip(end + 1))))
}

/// The text writes a real.
pub open spec fn is_real_text(s: Seq<char>) -> bool {
    let body = unsigned(s);
    ||| is_word(body, seq!['i', 'n', 'f'])
    ||| is_word(body, seq!['i', 'n', 'f', 'i', 'n', 'i', 't', 'y'])
    ||| is_word(body, seq!['n', 'a', 'n'])
    ||| is_number(body)
}

/// The code of a character in lower case.
fn to_lower(c: char) -> (out: u32)
    ensures
        out == lower(c),
{
    let u: u32 = c as u32;
    if 0x41 <= u && u <= 0x5A {
        u + 0x20
    } else {
        u
    }
}

/// Tells whether a character is a decimal digit.
fn digit(c: char) -> (b: bool)
    ensures
        b == is_digit(c),
{
    let u: u32 = c as u32;
    0x30 <= u && u <= 0x39
}

/// The place behind the digits that stand in a row from `from` on.
fn digit_run(chars: &Vec<char>, from: usize) -> (end: usize)
    requires
        from <= chars@.len(),
    ensures
        from <= end <= chars@.len(),
        end - from == digits_from(chars@, from as int),
        forall|j: int| from <= j < end ==> is_digit(#[trigger] chars@[j]),
        end < chars@.len() ==> !is_digit(chars@[end as int]),
{
    let mut k: usize = from;
    while k < chars.len() && digit(chars[k])
        invariant
            from <= k <= chars@.len(),
            digits_from(chars@, from as int) == (k - from) + digits_from(chars@, k as int),
            forall|j: int| from <= j < k ==> is_digit(#[trigger] chars@[j]),
        decreases chars@.len() - k,
    {
        k = k + 1;
    }
    k
}

/// Tells whether the characters from `from` on are `word`, in any case.
fn word_at(chars: &Vec<char>, from: usize, word: &Vec<char>) -> (b: bool)
    requires
        from <= chars@.len(),
    ensures
        b == is_word(chars@.skip(from as int), word@),
{
    let n: usize = chars.len();
    if n - from != word.len() {
        return false;
    }
    let mut k: usize = 0;
    while k < word.len()
        invariant
            k <= word@.len(),
            from <= n,
            n == chars@.len(),
            n - from == word@.len(),
            forall|i: int|
                0 <= i < k ==> lower(#[trigger] chars@.skip(from as int)[i]) == word@[i] as u32,
        decreases word@.len() - k,
    {
        let letter: char = word[k];
        if to_lower(chars[from + k]) != letter as u32 {
            assert(lower(chars@.skip(from as int)[k as int]) != word@[k as int] as u32);
            return false;
        }
        k = k + 1;
    }
    true
}

/// Tells whether the characters from `from` on are an exponent.
fn exponent_at(chars: &Vec<char>, from: usize) -> (b: bool)
    requires
        from <= chars@.len(),
    ensures
        b == is_exponent(chars@.skip(from as int)),
{
    let n: usize = chars.len();
    let ghost s = chars@.skip(from as int);
    let signed = from < n && (chars[from] == '+' || chars[from] == '-');
    let start: usize = if signed {
        from + 1
    } else {
        from
    };
    assert(unsigned(s) =~= chars@.skip(start as int));
    let end = digit_run(chars, start);
    if end == n {
        start < n
    } else {
        assert(!is_digit(chars@.skip(start as int)[end - start]));
        false
    }
}

/// Tells whether the characters from `from` on are a number without sign.
fn number_at(chars: &Vec<char>, from: usize) -> (b: bool)
    requires
        from <= chars@.len(),
    ensures
        b == is_number(chars@.skip(from as int)),
{
    let n: usize = chars.len();
    let ghost s = chars@.skip(from as int);
    proof {
        run_of_tail(chars@, from as int, from as int);
    }
    let whole = digit_run(chars, from);
    let pointed = whole < n && chars[whole] == '.';
    let end: usize = if pointed {
        proof {
            run_of_tail(chars@, from as int, whole + 1);
        }
        digit_run(chars, whole + 1)
    } else {
        whole
    };
    let count: usize = if pointed {
        (end - from - 1) as usize
    } else {
        (end - from) as usize
    };
    assert(mantissa_end(s) == end - from);
    assert(mantissa_digits(s) == count);
    if count < 1 {
        return false;
    }
    if end == n {
        return true;
    }
    if to_lower(chars[end]) != 'e' as u32 {
        return false;
    }
    assert(s.skip(end - from + 1) =~= chars@.skip(end + 1));
    exponent_at(chars, end + 1)
}

/// The digits that stand in a row in a text are those that stand in a row
/// in what is left of it behind its first `cut` characters.
proof fn run_of_tail(s: Seq<char>, cut: int, from: int)
    requires
        0 <= cut <= from <= s.len(),
    ensures
        digits_from(s.skip(cut), from - cut) == digits_from(s, from),
    decreases s.len() - from,
{
    if from < s.len() && is_digit(s[from]) {
        run_of_tail(s, cut, from + 1);
    }
}

/// Tells whether a text writes a real.
pub fn is_real(token: &str) -> (b: bool)
    ensures
        b == is_real_text(token@),
{
    let chars = chars_of(token);
    let n: usize = chars.len();
    let signed = n > 0 && (chars[0] == '+' || chars[0] == '-');
    let start: usize = if signed {
        1
    } else {
        0
    };
    assert(unsigned(token@) =~= chars@.skip(start as int));
    let inf: Vec<char> = vec!['i', 'n', 'f'];
    let infinity: Vec<char> = vec!['i', 'n', 'f', 'i', 'n', 'i', 't', 'y'];
    let nan: Vec<char> = vec!['n', 'a', 'n'];
    word_at(&chars, start, &inf) || word_at(&chars, start, &infinity) || word_at(&chars, start, &nan)
        || number_at(&chars, start)
}

/// The value of a decimal digit; a character that is no digit counts as zero.
pub open spec fn digit_of(c: char) -> nat {
    if is_digit(c) {
        (c as u32 - 0x30) as nat
    } else {
        0
    }
}

/// The number that a sequence of digits writes in base ten.
pub open spec fn decimal(s: Seq<char>) -> nat
    decreases s.len(),
{
    if s.len() == 0 {
        0
    } else {
        decimal(s.drop_last()) * 10 + digit_of(s.last())
    }
}

/// The integer that a field writes: an optional `+` or `-`, then at least one
/// decimal digit and nothing else, with a value that a 32-bit signed integer
/// holds.
pub open spec fn int_of_text(s: Seq<char>) -> Option<i32> {
    let signed = s.len() > 0 && (s[0] == '-' || s[0] == '+');
    let digits = if signed {
        s.drop_first()
    } else {
        s
    };
    let value = if signed && s[0] == '-' {
        -(decimal(digits) as int)
    } else {
        decimal(digits) as int
    };
    if digits.len() > 0 && all_digits(digits) && i32::MIN <= value <= i32::MAX {
        Some(value as i32)
    } else {
        None
    }
}

/// The digits read so far never write more than all of them do.
proof fn decimal_grows(s: Seq<char>, k: int)
    requires
        0 <= k <= s.len(),
    ensures
        decimal(s.take(k)) <= decimal(s),
    decreases s.len(),
{
    if k == s.len() {
        assert(s.take(k) =~= s);
    } else {
        assert(s.drop_last().take(k) =~= s.take(k));
        decimal_grows(s.drop_last(), k);
    }
}

/// Reads one field as an integer.
pub fn parse_int(token: &str) -> (cell: Option<i32>)
    ensures
        cell == int_of_text(token@),
{
    let chars = chars_of(token);
    let n: usize = chars.len();
    if n == 0 {
        return None;
    }
    let negative = chars[0] == '-';
    let signed = negative || chars[0] == '+';
    let first: usize = if signed {
        1
    } else {
        0
    };
    let ghost digits = if signed {
        token@.drop_first()
    } else {
        token@
    };
    if first == n {
        return None;
    }
    let mut acc: i64 = 0;
    let mut i: usize = first;
    assert(digits.take(0) =~= Seq::<char>::empty());
    while i < n
        invariant
            first <= i <= n,
            n == token@.len(),
            chars@ == token@,
            n > 0,
            signed == (token@[0] == '-' || token@[0] == '+'),
            first == if signed { 1int } else { 0int },
            digits == if signed { token@.drop_first() } else { token@ },
            all_digits(digits.take(i - first)),
            acc == decimal(digits.take(i - first)),
            0 <= acc <= 2147483648,
        decreases n - i,
    {
        let c: char = chars[i];
        let u: u32 = c as u32;
        let ghost upto = digits.take(i + 1 - first);
        assert(upto.drop_last() =~= digits.take(i - first));
        assert(upto.last() == token@[i as int]);
        if !(0x30 <= u && u <= 0x39) {
            assert(!is_digit(digits[i - first]));
            return None;
        }
        acc = acc * 10 + (u - 0x30) as i64;
        if acc > 2147483648 {
            proof {
                decimal_grows(digits, i + 1 - first);
            }
            return None;
        }
        i = i + 1;
    }
    assert(digits.take(n - first) =~= digits);
    if negative {
        Some((-acc) as i32)
    } else if acc <= 2147483647 {
        Some(acc as i32)
    } else {
        None
    }
}

/// A decimal number put together from its parts: the digits before the
/// point, then, where it is `pointed`, the point and the digits behind it,
/// then, where it is `scaled`, the letter `e` and the exponent.
pub open spec fn number_of(
    whole: Seq<char>,
    pointed: bool,
    fraction: Seq<char>,
    scaled: bool,
    e: char,
    exponent: Seq<char>,
) -> Seq<char> {
    whole + (if pointed {
        seq!['.'] + fraction
    } else {
        Seq::<char>::empty()
    }) + (if scaled {
        seq![e] + exponent
    } else {
        Seq::<char>::empty()
    })
}

/// The parts that a decimal number can be put together from: digits before
/// and behind the point, at least one in all, none behind a point that is
/// not there; and for the exponent the letter `e`, in either case, a sign
/// or none, and at least one digit.
pub open spec fn number_parts(
    whole: Seq<char>,
    pointed: bool,
    fraction: Seq<char>,
    e: char,
    exponent: Seq<char>,
) -> bool {
    &&& all_digits(whole)
    &&& all_digits(fraction)
    &&& pointed || fraction.len() == 0
    &&& whole.len() + fraction.len() >= 1
    &&& lower(e) == 'e' as u32
    &&& is_exponent(exponent)
}

/// Digits in a row, with no digit behind them, are counted in full.
proof fn run_of_digits(s: Seq<char>, from: int, n: int)
    requires
        0 <= from,
        0 <= n,
        from + n <= s.len(),
        forall|j: int| from <= j < from + n ==> is_digit(#[trigger] s[j]),
        from + n == s.len() || !is_digit(s[from + n]),
    ensures
        digits_from(s, from) == n,
    decreases n,
{
    if n > 0 {
        run_of_digits(s, from + 1, n - 1);
    }
}

/// What is put together from the parts of a decimal number is one.
pub proof fn parts_make_a_number(
    whole: Seq<char>,
    pointed: bool,
    fraction: Seq<char>,
    scaled: bool,
    e: char,
    exponent: Seq<char>,
)
    requires
        number_parts(whole, pointed, fraction, e, exponent),
    ensures
        is_number(number_of(whole, pointed, fraction, scaled, e, exponent)),
{
    let s = number_of(whole, pointed, fraction, scaled, e, exponent);
    let w = whole.len() as int;
    let f = fraction.len() as int;
    assert forall|j: int| 0 <= j < w implies is_digit(#[trigger] s[j]) by {
        assert(s[j] == whole[j]);
    }
    if pointed {
        assert(s[w] == '.');
        run_of_digits(s, 0, w);
        assert forall|j: int| w + 1 <= j < w + 1 + f implies is_digit(#[trigger] s[j]) by {
            assert(s[j] == fraction[j - w - 1]);
        }
        if scaled {
            assert(s[w + 1 + f] == e);
            assert(s.skip(w + 1 + f + 1) =~= exponent);
        }
        run_of_digits(s, w + 1, f);
    } else {
        if scaled {
            assert(s[w] == e);
            assert(s.skip(w + 1) =~= exponent);
        }
        run_of_digits(s, 0, w);
    }
}

/// A decimal number is put together from parts of a decimal number.
pub proof fn number_has_parts(s: Seq<char>)
    requires
        is_number(s),
    ensures
        ({
            let w = digits_from(s, 0);
            let end = mantissa_end(s);
            let pointed = end > w;
            let fraction = if pointed {
                s.subrange(w + 1, end)
            } else {
                Seq::<char>::empty()
            };
            let scaled = end < s.len();
            let e = if scaled {
                s[end]
            } else {
                'e'
            };
            let exponent = if scaled {
                s.skip(end + 1)
            } else {
                seq!['0']
            };
            &&& number_parts(s.take(w), pointed, fraction, e, exponent)
            &&& s == number_of(s.take(w), pointed, fraction, scaled, e, exponent)
        }),
{
    let w = digits_from(s, 0);
    let end = mantissa_end(s);
    run_within(s, 0);
    assert forall|j: int| 0 <= j < w implies is_digit(#[trigger] s.take(w)[j]) by {
        run_holds_digits(s, 0, j);
    }
    run_within(s, w + 1);
    if end > w {
        let fraction = s.subrange(w + 1, end);
        assert forall|j: int| 0 <= j < fraction.len() implies is_digit(#[trigger] fraction[j]) by {
            run_holds_digits(s, w + 1, w + 1 + j);
        }
    }
    let pointed = end > w;
    let fraction = if pointed {
        s.subrange(w + 1, end)
    } else {
        Seq::<char>::empty()
    };
    let scaled = end < s.len();
    let e = if scaled {
        s[end]
    } else {
        'e'
    };
    let exponent = if scaled {
        s.skip(end + 1)
    } else {
        seq!['0']
    };
    assert(unsigned(seq!['0']) =~= seq!['0']);
    assert(0 <= w <= end <= s.len());
    let built = number_of(s.take(w), pointed, fraction, scaled, e, exponent);
    assert(built.len() == s.len());
    assert forall|j: int| 0 <= j < s.len() implies s[j] == built[j] by {
        if j < w {
            assert(built[j] == s.take(w)[j]);
        } else if j < end {
            if j > w {
                assert(built[j] == fraction[j - w - 1]);
            }
        } else if j > end {
            assert(built[j] == exponent[j - end - 1]);
        }
    }
    assert(s =~= built);
}

/// The digits counted from a place on lie within the text.
proof fn run_within(s: Seq<char>, from: int)
    requires
        0 <= from,
    ensures
        0 <= digits_from(s, from),
        from + digits_from(s, from) <= s.len() || digits_from(s, from) == 0,
    decreases s.len() - from,
{
    if from < s.len() && is_digit(s[from]) {
        run_within(s, from + 1);
    }
}

/// The letters of the Latin alphabet, in upper and lower case.
pub open spec fn is_letter(c: char) -> bool {
    0x41 <= c as u32 <= 0x5A || 0x61 <= c as u32 <= 0x7A
}

/// The characters that the text of a real is made of.
pub open spec fn is_real_char(c: char) -> bool {
    is_digit(c) || is_sign(c) || c == '.' || is_letter(c)
}

/// The places that `digits_from` counts hold digits.
proof fn run_holds_digits(s: Seq<char>, from: int, j: int)
    requires
        0 <= from <= j < from + digits_from(s, from),
    ensures
        j < s.len(),
        is_digit(s[j]),
    decreases s.len() - from,
{
    if from < j {
        run_holds_digits(s, from + 1, j);
    }
}

/// A decimal number without sign is made of digits, signs, a point and the
/// letter `e`.
proof fn number_chars(s: Seq<char>, i: int)
    requires
        is_number(s),
        0 <= i < s.len(),
    ensures
        is_real_char(s[i]),
{
    let whole = digits_from(s, 0);
    let end = mantissa_end(s);
    if i < whole {
        run_holds_digits(s, 0, i);
    } else if i < end {
        if i > whole {
            run_holds_digits(s, whole + 1, i);
        }
    } else if i > end {
        let tail = s.skip(end + 1);
        assert(tail[i - end - 1] == s[i]);
        if tail.len() > 0 && is_sign(tail[0]) && i > end + 1 {
            assert(unsigned(tail)[i - end - 2] == s[i]);
        }
    }
}

/// A word is made of letters.
proof fn word_chars(s: Seq<char>, i: int)
    requires
        is_word(s, seq!['i', 'n', 'f']) || is_word(s, seq!['i', 'n', 'f', 'i', 'n', 'i', 't', 'y'])
            || is_word(s, seq!['n', 'a', 'n']),
        0 <= i < s.len(),
    ensures
        is_letter(s[i]),
{
    let inf = seq!['i', 'n', 'f'];
    let infinity = seq!['i', 'n', 'f', 'i', 'n', 'i', 't', 'y'];
    let nan = seq!['n', 'a', 'n'];
    if is_word(s, inf) {
        assert(lower(s[i]) == inf[i] as u32);
        assert(is_letter(inf[i]));
    } else if is_word(s, infinity) {
        assert(lower(s[i]) == infinity[i] as u32);
        assert(is_letter(infinity[i]));
    } else {
        assert(lower(s[i]) == nan[i] as u32);
        assert(is_letter(nan[i]));
    }
}

/// The text of a real is made of digits, signs, points and letters: it
/// holds no blank, no parenthesis and no comma.
pub proof fn real_text_chars(s: Seq<char>)
    requires
        is_real_text(s),
    ensures
        forall|i: int| 0 <= i < s.len() ==> is_real_char(#[trigger] s[i]),
{
    let body = unsigned(s);
    assert forall|i: int| 0 <= i < s.len() implies is_real_char(#[trigger] s[i]) by {
        let shift: int = if is_sign(s[0]) {
            1
        } else {
            0
        };
        if i >= shift {
            assert(body[i - shift] == s[i]);
            if is_number(body) {
                number_chars(body, i - shift);
            } else {
                word_chars(body, i - shift);
            }
        }
    }
}

} // verus!
