//! Texts: numbers in decimal, and what surrounds them.

use vstd::prelude::*;

verus! {

/// `String::push` appends one character.
pub assume_specification[ String::push ](s: &mut String, c: char)
    ensures
        final(s)@ == old(s)@.push(c),
;

/// The character of a digit below ten.
pub open spec fn digit(d: int) -> char {
    (d + 48) as char
}

/// Whether a character is a decimal digit.
pub open spec fn is_digit(c: char) -> bool {
    '0' <= c <= '9'
}

/// A natural number in decimal, without leading zeros.
pub open spec fn digits(n: nat) -> Seq<char>
    decreases n,
{
    if n < 10 {
        seq![digit(n as int)]
    } else {
        digits(n / 10).push(digit((n % 10) as int))
    }
}

/// A number in decimal, with a minus sign where it is negative.
pub open spec fn number(n: int) -> Seq<char> {
    if n < 0 {
        seq!['-'] + digits((-n) as nat)
    } else {
        digits(n as nat)
    }
}

/// A natural number in decimal, with at least two digits.
pub open spec fn two_digits(n: nat) -> Seq<char> {
    if n < 10 {
        seq!['0'] + digits(n)
    } else {
        digits(n)
    }
}

/// What a row of decimal digits is worth.
pub open spec fn value(s: Seq<char>) -> int
    decreases s.len(),
{
    if s.len() == 0 {
        0
    } else {
        10 * value(s.drop_last()) + (s.last() as int - 48)
    }
}

/// Whether a text is a row of one or more decimal digits.
pub open spec fn all_digits(s: Seq<char>) -> bool {
    s.len() > 0 && forall|i: int| 0 <= i < s.len() ==> is_digit(#[trigger] s[i])
}

/// The number that a text writes in decimal, after an optional sign.
pub open spec fn integer(s: Seq<char>) -> Option<int> {
    if s.len() > 0 && (s[0] == '-' || s[0] == '+') {
        if all_digits(s.skip(1)) {
            Some(if s[0] == '-' { -value(s.skip(1)) } else { value(s.skip(1)) })
        } else {
            None
        }
    } else if all_digits(s) {
        Some(value(s))
    } else {
        None
    }
}

/// Digits write what they are worth.
pub proof fn lemma_value_of_digits(n: nat)
    ensures
        all_digits(digits(n)),
        value(digits(n)) == n,
    decreases n,
{
    if n >= 10 {
        let rest: nat = n / 10;
        lemma_value_of_digits(rest);
        assert(digits(n).drop_last() =~= digits(rest));
        let d: int = (n % 10) as int;
        assert(digits(n).last() == digit(d));
        assert(digit(d) as int == d + 48);
        assert forall|i: int| 0 <= i < digits(n).len() implies is_digit(#[trigger] digits(n)[i]) by {
            if i < digits(rest).len() {
                assert(digits(n)[i] == digits(rest)[i]);
            }
        }
    } else {
        assert(digits(n) =~= seq![digit(n as int)]);
        assert(digits(n).drop_last() =~= Seq::<char>::empty());
        reveal_with_fuel(value, 2);
        assert(digits(n).last() == digit(n as int));
        assert(digit(n as int) as int == n + 48);
    }
}

/// Reading a number back gives the number that was written.
pub proof fn law_integer_of_number(n: int)
    ensures
        integer(number(n)) == Some(n),
{
    if n < 0 {
        let m: nat = (-n) as nat;
        lemma_value_of_digits(m);
        assert(number(n).skip(1) =~= digits(m));
        assert(number(n)[0] == '-');
    } else {
        lemma_value_of_digits(n as nat);
        let s: Seq<char> = digits(n as nat);
        assert(is_digit(s[0]));
    }
}

/// A row of digits is worth at least as much as its beginning.
pub proof fn lemma_value_grows(s: Seq<char>, i: int)
    requires
        0 <= i <= s.len(),
        forall|j: int| 0 <= j < s.len() ==> is_digit(#[trigger] s[j]),
    ensures
        0 <= value(s.take(i)) <= value(s),
    decreases s.len(),
{
    if s.len() == 0 {
        assert(s.take(i) =~= s);
    } else if i == s.len() {
        assert(s.take(i) =~= s);
        let rest: Seq<char> = s.drop_last();
        assert forall|j: int| 0 <= j < rest.len() implies is_digit(#[trigger] rest[j]) by {
            assert(rest[j] == s[j]);
        }
        lemma_value_grows(rest, 0);
        assert(rest.take(0) =~= Seq::<char>::empty());
    } else {
        let rest: Seq<char> = s.drop_last();
        assert forall|j: int| 0 <= j < rest.len() implies is_digit(#[trigger] rest[j]) by {
            assert(rest[j] == s[j]);
        }
        lemma_value_grows(rest, i);
        assert(rest.take(i) =~= s.take(i));
    }
}

/// The characters of a text.
pub fn chars_of(s: &str) -> (r: Vec<char>)
    ensures
        r@ == s@,
{
    let n: usize = s.unicode_len();
    let mut out: Vec<char> = Vec::new();
    let mut i: usize = 0;
    while i < n
        invariant
            i <= n,
            n == s@.len(),
            out@ == s@.take(i as int),
        decreases n - i,
    {
        out.push(s.get_char(i));
        i = i + 1;
        assert(s@.take(i as int) =~= s@.take(i - 1).push(s@[i - 1]));
    }
    assert(s@.take(n as int) =~= s@);
    out
}

/// The text of some characters.
pub fn text_of(chars: &Vec<char>, from: usize, to: usize) -> (r: String)
    requires
        from <= to <= chars@.len(),
    ensures
        r@ == chars@.subrange(from as int, to as int),
{
    let mut out: String = String::new();
    let mut i: usize = from;
    while i < to
        invariant
            from <= i <= to <= chars@.len(),
            out@ == chars@.subrange(from as int, i as int),
        decreases to - i,
    {
        out.push(chars[i]);
        i = i + 1;
        assert(chars@.subrange(from as int, i as int) =~= chars@.subrange(from as int, i - 1).push(
            chars@[i - 1],
        ));
    }
    out
}

/// Appends a natural number in decimal.
pub fn push_digits(out: &mut String, n: u64)
    ensures
        final(out)@ == old(out)@ + digits(n as nat),
    decreases n,
{
    if n < 10 {
        out.push((48u8 + n as u8) as char);
        assert(out@ =~= old(out)@ + digits(n as nat));
    } else {
        push_digits(out, n / 10);
        out.push((48u8 + (n % 10) as u8) as char);
        assert(out@ =~= old(out)@ + digits(n as nat));
    }
}

/// Appends a number in decimal.
pub fn push_number(out: &mut String, n: i64)
    ensures
        final(out)@ == old(out)@ + number(n as int),
{
    if n < 0 {
        out.push('-');
        let size: u64 = if n == i64::MIN {
            0x8000_0000_0000_0000
        } else {
            (-n) as u64
        };
        push_digits(out, size);
        assert(out@ =~= old(out)@ + number(n as int));
    } else {
        push_digits(out, n as u64);
    }
}

/// Appends a natural number in decimal, with at least two digits.
pub fn push_two_digits(out: &mut String, n: u64)
    ensures
        final(out)@ == old(out)@ + two_digits(n as nat),
{
    if n < 10 {
        out.push('0');
        push_digits(out, n);
        assert(out@ =~= old(out)@ + two_digits(n as nat));
    } else {
        push_digits(out, n);
    }
}

/// The number that a text writes from a position on, if it fits in 32 bits.
pub fn parse_i32(chars: &Vec<char>, from: usize) -> (r: Option<i32>)
    requires
        from <= chars@.len(),
    ensures
        r == match integer(chars@.skip(from as int)) {
            Some(n) => if i32::MIN <= n <= i32::MAX {
                Some(n as i32)
            } else {
                None
            },
            None => None,
        },
{
    let ghost s = chars@.skip(from as int);
    let n: usize = chars.len();
    let mut start: usize = from;
    let mut minus: bool = false;
    if from < n {
        assert(s[0] == chars@[from as int]);
        if chars[from] == '-' || chars[from] == '+' {
            minus = chars[from] == '-';
            start = from + 1;
        }
    }
    let ghost body = chars@.skip(start as int);
    assert(body =~= if start == from { s } else { s.skip(1) });
    if start == n {
        return None;
    }
    let mut total: i64 = 0;
    let mut i: usize = start;
    while i < n
        invariant
            start <= i <= n,
            n == chars@.len(),
            body == chars@.skip(start as int),
            0 <= total <= 0x8000_0000,
            total == value(body.take(i - start)),
            forall|j: int| 0 <= j < i - start ==> is_digit(#[trigger] body[j]),
            s == chars@.skip(from as int),
            start == from || start == from + 1,
            start == from ==> body == s && (s.len() == 0 || (s[0] != '-' && s[0] != '+')),
            start != from ==> body == s.skip(1) && s.len() > 0 && (s[0] == '-' || s[0] == '+'),
            minus <==> start != from && s[0] == '-',
            body.take(0) =~= Seq::<char>::empty(),
        decreases n - i,
    {
        let c: char = chars[i];
        assert(body[i - start] == c);
        if c < '0' || c > '9' {
            assert(!is_digit(body[i - start]));
            return None;
        }
        let d: i64 = (c as u32 - 48) as i64;
        let next: i64 = total * 10 + d;
        proof {
            let longer: Seq<char> = body.take(i - start + 1);
            assert(longer.drop_last() =~= body.take(i - start));
            assert(longer.last() == c);
            assert(value(longer) == next);
        }
        if next > 0x8000_0000 {
            proof {
                if all_digits(body) {
                    lemma_value_grows(body, i - start + 1);
                }
            }
            return None;
        }
        total = next;
        i = i + 1;
    }
    assert(body.take(n - start) =~= body);
    assert(all_digits(body));
    if minus {
        Some((-total) as i32)
    } else if total == 0x8000_0000 {
        None
    } else {
        Some(total as i32)
    }
}

/// Whether a character is white space.
pub open spec fn is_white(c: char) -> bool {
    ||| '\u{9}' <= c <= '\u{d}'
    ||| c == ' '
    ||| c == '\u{85}'
    ||| c == '\u{a0}'
    ||| c == '\u{1680}'
    ||| '\u{2000}' <= c <= '\u{200a}'
    ||| c == '\u{2028}'
    ||| c == '\u{2029}'
    ||| c == '\u{202f}'
    ||| c == '\u{205f}'
    ||| c == '\u{3000}'
}

pub fn white(c: char) -> (r: bool)
    ensures
        r == is_white(c),
{
    (c >= '\u{9}' && c <= '\u{d}') || c == ' ' || c == '\u{85}' || c == '\u{a0}' || c == '\u{1680}' || (c
        >= '\u{2000}' && c <= '\u{200a}') || c == '\u{2028}' || c == '\u{2029}' || c == '\u{202f}' || c
        == '\u{205f}' || c == '\u{3000}'
}

/// A text without the white space before it.
pub open spec fn trimmed_start(s: Seq<char>) -> Seq<char>
    decreases s.len(),
{
    if s.len() > 0 && is_white(s[0]) {
        trimmed_start(s.skip(1))
    } else {
        s
    }
}

/// A text without the white space after it.
pub open spec fn trimmed_end(s: Seq<char>) -> Seq<char>
    decreases s.len(),
{
    if s.len() > 0 && is_white(s.last()) {
        trimmed_end(s.drop_last())
    } else {
        s
    }
}

/// A text without the white space around it.
pub open spec fn trimmed(s: Seq<char>) -> Seq<char> {
    trimmed_end(trimmed_start(s))
}

/// The characters of a text without the white space around it.
pub fn trim(s: &str) -> (r: Vec<char>)
    ensures
        r@ == trimmed(s@),
{
    let all: Vec<char> = chars_of(s);
    let mut from: usize = 0;
    assert(s@.skip(0) =~= s@);
    while from < all.len() && white(all[from])
        invariant
            all@ == s@,
            from <= all@.len(),
            trimmed_start(s@) == trimmed_start(s@.skip(from as int)),
        decreases all.len() - from,
    {
        from = from + 1;
        assert(s@.skip(from - 1).skip(1) =~= s@.skip(from as int));
    }
    assert(trimmed_start(s@) == s@.skip(from as int));
    let mut to: usize = all.len();
    assert(s@.subrange(from as int, to as int) =~= s@.skip(from as int));
    while to > from && white(all[to - 1])
        invariant
            all@ == s@,
            from <= to <= all@.len(),
            trimmed(s@) == trimmed_end(s@.subrange(from as int, to as int)),
        decreases to,
    {
        to = to - 1;
        assert(s@.subrange(from as int, to + 1).drop_last() =~= s@.subrange(from as int, to as int));
    }
    let mut out: Vec<char> = Vec::new();
    let mut i: usize = from;
    while i < to
        invariant
            all@ == s@,
            from <= i <= to <= all@.len(),
            out@ == s@.subrange(from as int, i as int),
        decreases to - i,
    {
        out.push(all[i]);
        i = i + 1;
        assert(s@.subrange(from as int, i as int) =~= s@.subrange(from as int, i - 1).push(s@[i - 1]));
    }
    out
}

} // verus!
