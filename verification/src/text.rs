//! Reading and writing short pieces of text.

use vstd::prelude::*;

verus! {

/// The characters of a text.
pub fn to_chars(text: &str) -> (chars: Vec<char>)
    ensures
        chars@ == text@,
{
    let mut chars: Vec<char> = Vec::new();
    for c in it: text.chars()
        invariant
            chars@ == it.seq().take(it.index() as int),
            it.seq() == text@,
    {
        chars.push(c);
    }
    assert(chars@ =~= text@);
    chars
}

/// Whether `part` stands in `chars` from `at` on.
pub open spec fn stands_at(chars: Seq<char>, at: int, part: Seq<char>) -> bool {
    at + part.len() <= chars.len() && chars.subrange(at, at + part.len()) == part
}

fn is_at(chars: &Vec<char>, at: usize, part: &Vec<char>) -> (result: bool)
    requires
        at <= chars@.len(),
    ensures
        result == stands_at(chars@, at as int, part@),
{
    let n: usize = chars.len();
    if part.len() > n - at {
        return false;
    }
    for i in 0..part.len()
        invariant
            n == chars@.len(),
            at + part@.len() <= n,
            forall|j: int| 0 <= j < i ==> chars@[at + j] == #[trigger] part@[j],
    {
        if chars[at + i] != part[i] {
            proof {
                let cut = chars@.subrange(at as int, at + part@.len());
                assert(cut[i as int] == chars@[at + i]);
            }
            return false;
        }
    }
    assert(chars@.subrange(at as int, at + part@.len()) =~= part@);
    true
}

/// Whether two texts are the same.
pub fn same_text(a: &str, b: &str) -> (result: bool)
    ensures
        result == (a@ == b@),
{
    let a_chars = to_chars(a);
    let b_chars = to_chars(b);
    if a_chars.len() != b_chars.len() {
        return false;
    }
    let result = is_at(&a_chars, 0, &b_chars);
    assert(a@.subrange(0, a@.len() as int) =~= a@);
    result
}

/// What is left of a text when a prefix is taken off as often as it is there.
pub open spec fn trimmed(text: Seq<char>, prefix: Seq<char>) -> Seq<char>
    decreases text.len(),
{
    if prefix.len() > 0 && prefix.is_prefix_of(text) {
        trimmed(text.skip(prefix.len() as int), prefix)
    } else {
        text
    }
}

/// Where the text begins that is left when a prefix is taken off as often as
/// it is there.
pub fn trim_start(chars: &Vec<char>, prefix: &Vec<char>) -> (at: usize)
    requires
        prefix@.len() > 0,
    ensures
        at <= chars@.len(),
        chars@.skip(at as int) == trimmed(chars@, prefix@),
        at > 0 <==> prefix@.is_prefix_of(chars@),
{
    let n: usize = chars.len();
    let mut at: usize = 0;
    assert(chars@.skip(0) =~= chars@);
    while is_at(chars, at, prefix)
        invariant
            n == chars@.len(),
            prefix@.len() > 0,
            at <= n,
            trimmed(chars@.skip(at as int), prefix@) == trimmed(chars@, prefix@),
            at == 0 || prefix@.is_prefix_of(chars@),
        decreases n - at,
    {
        proof {
            let rest = chars@.skip(at as int);
            assert(rest.subrange(0, prefix@.len() as int) =~= chars@.subrange(
                at as int,
                at + prefix@.len(),
            ));
            assert(rest.skip(prefix@.len() as int) =~= chars@.skip(at + prefix@.len()));
            if at == 0 {
                assert(chars@.skip(0) =~= chars@);
            }
        }
        at = at + prefix.len();
    }
    proof {
        let rest = chars@.skip(at as int);
        if prefix@.is_prefix_of(rest) {
            assert(rest.subrange(0, prefix@.len() as int) =~= chars@.subrange(
                at as int,
                at + prefix@.len(),
            ));
        }
        if at == 0 {
            assert(chars@.skip(0) =~= chars@);
        }
    }
    at
}

/// Whether a character is a decimal digit.
pub open spec fn is_digit(c: char) -> bool {
    '0' <= c && c <= '9'
}

/// The number that decimal digits write.
pub open spec fn digits_value(digits: Seq<char>) -> int
    decreases digits.len(),
{
    if digits.len() == 0 {
        0
    } else {
        digits_value(digits.drop_last()) * 10 + (digits.last() as int - '0' as int)
    }
}

/// The text without one leading plus sign.
pub open spec fn without_plus(text: Seq<char>) -> Seq<char> {
    if text.len() > 0 && text[0] == '+' {
        text.skip(1)
    } else {
        text
    }
}

/// The unsigned number, at most `max`, that a text writes: one digit or more,
/// which a plus sign may precede, and nothing else.
pub open spec fn number_in(text: Seq<char>, max: int) -> Option<int> {
    let digits = without_plus(text);
    if digits.len() > 0 && (forall|i: int| 0 <= i < digits.len() ==> is_digit(#[trigger] digits[i]))
        && digits_value(digits) <= max {
        Some(digits_value(digits))
    } else {
        None
    }
}

/// More digits write no smaller number.
proof fn lemma_value_grows(digits: Seq<char>, n: int)
    requires
        0 <= n <= digits.len(),
        forall|i: int| 0 <= i < digits.len() ==> is_digit(#[trigger] digits[i]),
    ensures
        0 <= digits_value(digits.take(n)) <= digits_value(digits),
    decreases digits.len(),
{
    if n < digits.len() {
        lemma_value_grows(digits.drop_last(), n);
        assert(digits.drop_last().take(n) =~= digits.take(n));
    } else {
        assert(digits.take(n) =~= digits);
        if n > 0 {
            lemma_value_grows(digits.drop_last(), n - 1);
        }
    }
}

/// Reads the unsigned number that is written from `from` on.
pub fn parse_u64_at(chars: &Vec<char>, from: usize) -> (number: Option<u64>)
    requires
        from <= chars@.len(),
    ensures
        match number {
            Some(n) => number_in(chars@.skip(from as int), u64::MAX as int) == Some(n as int),
            None => number_in(chars@.skip(from as int), u64::MAX as int) is None,
        },
{
    let start: usize = if from < chars.len() && chars[from] == '+' {
        from + 1
    } else {
        from
    };
    let ghost digits = without_plus(chars@.skip(from as int));
    assert(digits =~= chars@.skip(start as int));
    if start == chars.len() {
        return None;
    }
    let mut number: u64 = 0;
    let mut i: usize = start;
    assert(digits.take(0) =~= Seq::empty());
    while i < chars.len()
        invariant
            start <= i <= chars@.len(),
            digits == chars@.skip(start as int),
            digits == without_plus(chars@.skip(from as int)),
            forall|j: int| 0 <= j < i - start ==> is_digit(#[trigger] digits[j]),
            number == digits_value(digits.take(i - start)),
        decreases chars@.len() - i,
    {
        let c: char = chars[i];
        assert(digits[i - start] == c);
        if c < '0' || c > '9' {
            return None;
        }
        let digit: u64 = c as u64 - '0' as u64;
        let ghost next = digits.take(i - start + 1);
        proof {
            assert(next.drop_last() =~= digits.take(i - start));
            assert(next.last() == c);
            assert(digits_value(next) == number * 10 + digit);
            if forall|j: int| 0 <= j < digits.len() ==> is_digit(#[trigger] digits[j]) {
                lemma_value_grows(digits, i - start + 1);
            }
        }
        let tens: u64 = match number.checked_mul(10) {
            Some(tens) => tens,
            None => {
                return None;
            },
        };
        number = match tens.checked_add(digit) {
            Some(sum) => sum,
            None => {
                return None;
            },
        };
        i = i + 1;
    }
    assert(digits.take(i - start) =~= digits);
    Some(number)
}

/// Reads an unsigned number of 64 bits.
pub fn parse_u64(text: &str) -> (number: Option<u64>)
    ensures
        match number {
            Some(n) => number_in(text@, u64::MAX as int) == Some(n as int),
            None => number_in(text@, u64::MAX as int) is None,
        },
{
    let chars = to_chars(text);
    assert(chars@.skip(0) =~= text@);
    parse_u64_at(&chars, 0)
}

/// Reads an unsigned number that fits an index.
pub fn parse_usize(text: &str) -> (number: Option<usize>)
    ensures
        match number {
            Some(n) => number_in(text@, usize::MAX as int) == Some(n as int),
            None => number_in(text@, usize::MAX as int) is None,
        },
{
    match parse_u64(text) {
        Some(n) => if n <= usize::MAX as u64 {
            Some(n as usize)
        } else {
            None
        },
        None => None,
    }
}

/// Digits are read from the left: each one adds itself to ten times what stood
/// before.
pub proof fn law_digits_have_places(front: Seq<char>, digit: char)
    ensures
        digits_value(Seq::<char>::empty()) == 0,
        digits_value(front.push(digit)) == 10 * digits_value(front) + (digit as int - 0x30),
{
    assert(front.push(digit).drop_last() =~= front);
}

/// Digits are read as the number that they write, if it is not too large, with
/// or without a plus sign.
pub proof fn law_numbers_are_read(digits: Seq<char>, max: int)
    requires
        digits.len() > 0,
        forall|i: int| 0 <= i < digits.len() ==> 0x30 <= #[trigger] digits[i] as int <= 0x39,
    ensures
        digits_value(digits) <= max ==> number_in(digits, max) == Some(digits_value(digits)),
        digits_value(digits) <= max ==> number_in(seq!['+'] + digits, max) == Some(
            digits_value(digits),
        ),
        digits_value(digits) > max ==> number_in(digits, max) is None,
        digits_value(digits) > max ==> number_in(seq!['+'] + digits, max) is None,
{
    assert(0x30 <= digits[0] as int <= 0x39);
    assert((seq!['+'] + digits).skip(1) =~= digits);
    assert forall|i: int| 0 <= i < digits.len() implies is_digit(#[trigger] digits[i]) by {
        assert(0x30 <= digits[i] as int <= 0x39);
    }
}

/// Nothing, or something in which another character stands, is no number.
pub proof fn law_other_text_is_no_number(text: Seq<char>, max: int, i: int)
    requires
        text.len() == 0 || (0 <= i < text.len() && !(0x30 <= text[i] as int <= 0x39) && (i > 0
            || text[0] != '+')) || text == seq!['+'],
    ensures
        number_in(text, max) is None,
{
    let digits = without_plus(text);
    if text.len() > 0 && text != seq!['+'] {
        if text[0] == '+' {
            assert(digits[i - 1] == text[i]);
        } else {
            assert(digits[i] == text[i]);
        }
    }
}

/// A prefix that stands in front of other text is taken off it, and nothing
/// else is.
pub proof fn law_prefix_is_taken_off(prefix: Seq<char>, rest: Seq<char>)
    requires
        prefix.len() > 0,
        !prefix.is_prefix_of(rest),
    ensures
        prefix.is_prefix_of(prefix + rest),
        trimmed(prefix + rest, prefix) == rest,
        trimmed(rest, prefix) == rest,
{
    reveal_with_fuel(trimmed, 2);
    assert((prefix + rest).subrange(0, prefix.len() as int) =~= prefix);
    assert((prefix + rest).skip(prefix.len() as int) =~= rest);
}

} // verus!
