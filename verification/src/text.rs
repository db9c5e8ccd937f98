//! Decimal numbers and separators in short texts.

use vstd::prelude::*;

verus! {

/// Whether `c` is one of the ten ASCII digits.
pub open spec fn is_digit(c: char) -> bool {
    '0' <= c <= '9'
}

/// Whether every character of `s` is an ASCII digit.
pub open spec fn all_digits(s: Seq<char>) -> bool {
    forall|i: int| 0 <= i < s.len() ==> is_digit(#[trigger] s[i])
}

/// The number that a run of digits stands for.
pub open spec fn digits_value(s: Seq<char>) -> nat
    decreases s.len(),
{
    if s.len() == 0 {
        0
    } else {
        digits_value(s.drop_last()) * 10 + ((s.last() as nat - '0' as nat) as nat)
    }
}

/// What `s` stands for as a plain run of digits with a value of at most `max`.
pub open spec fn magnitude(s: Seq<char>, max: nat) -> Option<nat> {
    if s.len() > 0 && all_digits(s) && digits_value(s) <= max {
        Some(digits_value(s))
    } else {
        None
    }
}

/// The `u16` that a text stands for: digits, with at most one `+` before them.
pub open spec fn u16_in_text(s: Seq<char>) -> Option<u16> {
    let digits = if s.len() > 0 && s[0] == '+' {
        s.skip(1)
    } else {
        s
    };
    match magnitude(digits, u16::MAX as nat) {
        Some(n) => Some(n as u16),
        None => None,
    }
}

/// The `i32` that a text stands for: digits, with at most one sign before them.
pub open spec fn i32_in_text(s: Seq<char>) -> Option<i32> {
    if s.len() > 0 && s[0] == '-' {
        match magnitude(s.skip(1), 0x8000_0000) {
            Some(n) => Some((-(n as int)) as i32),
            None => None,
        }
    } else {
        let digits = if s.len() > 0 && s[0] == '+' {
            s.skip(1)
        } else {
            s
        };
        match magnitude(digits, i32::MAX as nat) {
            Some(n) => Some(n as i32),
            None => None,
        }
    }
}

/// Whether position `i` holds the one and only colon of `s`.
pub open spec fn is_only_colon(s: Seq<char>, i: int) -> bool {
    &&& 0 <= i < s.len()
    &&& s[i] == ':'
    &&& forall|j: int| 0 <= j < s.len() && j != i ==> #[trigger] s[j] != ':'
}

/// The two parts of a text that holds exactly one colon.
pub open spec fn colon_pair(s: Seq<char>) -> Option<(Seq<char>, Seq<char>)> {
    if exists|i: int| is_only_colon(s, i) {
        let i = choose|i: int| is_only_colon(s, i);
        Some((s.take(i), s.skip(i + 1)))
    } else {
        None
    }
}

/// The character of a single decimal digit.
pub open spec fn digit_char(d: nat) -> char {
    (d + '0' as nat) as char
}

/// The decimal digits of `n`, without leading zeros.
pub open spec fn decimal(n: nat) -> Seq<char>
    decreases n,
{
    if n < 10 {
        seq![digit_char(n)]
    } else {
        decimal(n / 10).push(digit_char(n % 10))
    }
}

/// More digits never make the number smaller.
proof fn lemma_prefix_value(s: Seq<char>, i: int)
    requires
        0 <= i <= s.len(),
        all_digits(s),
    ensures
        digits_value(s.take(i)) <= digits_value(s),
    decreases s.len() - i,
{
    if i == s.len() {
        assert(s.take(i) =~= s);
    } else {
        lemma_prefix_value(s, i + 1);
        assert(s.take(i + 1).drop_last() =~= s.take(i));
        assert(s.take(i + 1).last() == s[i]);
        assert(is_digit(s[i]));
    }
}

/// The characters of a text, one by one.
pub fn chars_of(s: &str) -> (v: Vec<char>)
    ensures
        v@ == s@,
{
    let mut v: Vec<char> = Vec::new();
    for c in iter: s.chars()
        invariant
            iter.seq() == s@,
            v@ == iter.seq().take(iter.index() as int),
    {
        proof {
            assert(iter.seq().take(iter.index() as int).push(c) =~= iter.seq().take(iter.index() + 1));
        }
        v.push(c);
    }
    assert(s@.take(s@.len() as int) =~= s@);
    v
}

/// Reads the digits between two positions as a number of at most `max`.
pub fn read_magnitude(chars: &Vec<char>, from: usize, to: usize, max: u64) -> (r: Option<u64>)
    requires
        from <= to <= chars@.len(),
        max <= 0xffff_ffff,
    ensures
        (match r {
            Some(n) => Some(n as nat),
            None => None,
        }) == magnitude(chars@.subrange(from as int, to as int), max as nat),
{
    let ghost part = chars@.subrange(from as int, to as int);
    if from == to {
        return None;
    }
    let mut value: u64 = 0;
    let mut i: usize = from;
    while i < to
        invariant
            from <= i <= to <= chars@.len(),
            max <= 0xffff_ffff,
            part == chars@.subrange(from as int, to as int),
            value <= max,
            value == digits_value(part.take(i - from)),
            all_digits(part.take(i - from)),
        decreases to - i,
    {
        let c = chars[i];
        proof {
            assert(part.take(i - from + 1).drop_last() =~= part.take(i - from));
            assert(part.take(i - from + 1).last() == c);
            assert(part[i - from] == c);
        }
        if !('0' <= c && c <= '9') {
            return None;
        }
        value = value * 10 + (c as u32 - '0' as u32) as u64;
        assert(value == digits_value(part.take(i - from + 1)));
        assert(all_digits(part.take(i - from + 1)));
        if value > max {
            proof {
                if all_digits(part) {
                    lemma_prefix_value(part, i - from + 1);
                }
            }
            return None;
        }
        i = i + 1;
    }
    assert(part.take(to - from) =~= part);
    Some(value)
}

/// Appends one decimal digit to a text.
fn append_digit(s: &mut String, d: u64)
    requires
        d < 10,
    ensures
        final(s)@ == old(s)@.push(digit_char(d as nat)),
{
    proof {
        reveal_strlit("0");
        reveal_strlit("1");
        reveal_strlit("2");
        reveal_strlit("3");
        reveal_strlit("4");
        reveal_strlit("5");
        reveal_strlit("6");
        reveal_strlit("7");
        reveal_strlit("8");
        reveal_strlit("9");
    }
    let digit = match d {
        0 => "0",
        1 => "1",
        2 => "2",
        3 => "3",
        4 => "4",
        5 => "5",
        6 => "6",
        7 => "7",
        8 => "8",
        _ => "9",
    };
    assert(digit@ =~= seq![digit_char(d as nat)]);
    s.append(digit);
    assert(s@ =~= old(s)@.push(digit_char(d as nat)));
}

/// Appends a number to a text, in decimal.
pub fn append_decimal(s: &mut String, n: u64)
    ensures
        final(s)@ == old(s)@ + decimal(n as nat),
    decreases n,
{
    if n >= 10 {
        append_decimal(s, n / 10);
    }
    append_digit(s, n % 10);
    assert(s@ =~= old(s)@ + decimal(n as nat));
}

/// The decimal digits of a number are digits, at least one, and stand for that number.
pub proof fn lemma_decimal(n: nat)
    ensures
        decimal(n).len() > 0,
        all_digits(decimal(n)),
        digits_value(decimal(n)) == n,
    decreases n,
{
    if n < 10 {
        assert(decimal(n).drop_last() =~= Seq::empty());
        assert(digits_value(decimal(n).drop_last()) == 0);
    } else {
        lemma_decimal(n / 10);
        assert(decimal(n).drop_last() =~= decimal(n / 10));
    }
}

/// Different numbers have different digits.
pub proof fn lemma_decimal_injective(a: nat, b: nat)
    requires
        decimal(a) == decimal(b),
    ensures
        a == b,
{
    lemma_decimal(a);
    lemma_decimal(b);
}

/// Whether a text is a number: one digit or more, and nothing else.
pub open spec fn is_number(s: Seq<char>) -> bool {
    s.len() > 0 && forall|i: int| 0 <= i < s.len() ==> 48 <= (#[trigger] s[i]) as int <= 57
}

/// Digits stand for a number as they do in decimal: each is worth its distance from zero, and one more
/// digit makes ten times as much of those before it.
pub proof fn law_digits_are_decimal(s: Seq<char>, c: char)
    ensures
        is_digit(c) <==> 48 <= c as int <= 57,
        digits_value(Seq::empty()) == 0,
        is_digit(c) ==> digits_value(s.push(c)) == 10 * digits_value(s) + (c as int - 48),
{
    assert(s.push(c).drop_last() =~= s);
}

/// Whatever is a number, with or without a plus sign, is read as that number, if it is at most 65535;
/// whatever is not, or is more, is not read.
pub proof fn law_ports_are_read(s: Seq<char>)
    ensures
        is_number(s) && digits_value(s) <= 65535 ==> u16_in_text(s) == Some(digits_value(s) as u16)
            && u16_in_text(seq!['+'] + s) == Some(digits_value(s) as u16),
        is_number(s) && digits_value(s) > 65535 ==> u16_in_text(s) is None && u16_in_text(
            seq!['+'] + s,
        ) is None,
        u16_in_text(s) is Some ==> is_number(s) || (s[0] == '+' && is_number(s.skip(1))),
{
    let signed = seq!['+'] + s;
    assert(signed.skip(1) =~= s);
    if is_number(s) {
        assert(48 <= s[0] as int <= 57);
        assert forall|i: int| 0 <= i < s.len() implies is_digit(#[trigger] s[i]) by {
            assert(48 <= s[i] as int <= 57);
        }
    }
    if u16_in_text(s) is Some {
        let digits = if s.len() > 0 && s[0] == '+' {
            s.skip(1)
        } else {
            s
        };
        assert forall|i: int| 0 <= i < digits.len() implies 48 <= (#[trigger] digits[i]) as int
            <= 57 by {
            assert(is_digit(digits[i]));
        }
    }
}

/// Whatever is a number, with or without a sign, is read as that number or its opposite, if that is from
/// -2147483648 to 2147483647; whatever is not, or is beyond, is not read.
pub proof fn law_descriptors_are_read(s: Seq<char>)
    ensures
        is_number(s) && digits_value(s) <= 2147483647 ==> i32_in_text(s) == Some(
            digits_value(s) as i32,
        ) && i32_in_text(seq!['+'] + s) == Some(digits_value(s) as i32),
        is_number(s) && digits_value(s) > 2147483647 ==> i32_in_text(s) is None && i32_in_text(
            seq!['+'] + s,
        ) is None,
        is_number(s) && digits_value(s) <= 2147483648 ==> i32_in_text(seq!['-'] + s) == Some(
            (-digits_value(s)) as i32,
        ),
        is_number(s) && digits_value(s) > 2147483648 ==> i32_in_text(seq!['-'] + s) is None,
        i32_in_text(s) is Some ==> is_number(s) || ((s[0] == '+' || s[0] == '-') && is_number(
            s.skip(1),
        )),
{
    assert((seq!['+'] + s).skip(1) =~= s);
    assert((seq!['-'] + s).skip(1) =~= s);
    if is_number(s) {
        assert(48 <= s[0] as int <= 57);
        assert forall|i: int| 0 <= i < s.len() implies is_digit(#[trigger] s[i]) by {
            assert(48 <= s[i] as int <= 57);
        }
    }
    if i32_in_text(s) is Some {
        let digits = if s.len() > 0 && (s[0] == '+' || s[0] == '-') {
            s.skip(1)
        } else {
            s
        };
        assert forall|i: int| 0 <= i < digits.len() implies 48 <= (#[trigger] digits[i]) as int
            <= 57 by {
            assert(is_digit(digits[i]));
        }
    }
}

/// A text is parted exactly if it holds one colon, and then at that colon: what is before it and what is
/// behind it, each of which may be empty.
pub proof fn law_texts_are_parted_at_the_colon(a: Seq<char>, b: Seq<char>, c: Seq<char>)
    ensures
        !a.contains(':') && !b.contains(':') ==> colon_pair(a + seq![':'] + b) == Some((a, b)),
        !a.contains(':') ==> colon_pair(a) is None,
        colon_pair(a + seq![':'] + b + seq![':'] + c) is None,
{
    let one = a + seq![':'] + b;
    let n = a.len() as int;
    assert(one[n] == ':');
    if !a.contains(':') && !b.contains(':') {
        assert forall|j: int| 0 <= j < one.len() && j != n implies #[trigger] one[j] != ':' by {
            if j < n {
                assert(a.contains(a[j]));
            } else {
                assert(one[j] == b[j - n - 1]);
                assert(b.contains(b[j - n - 1]));
            }
        }
        assert(is_only_colon(one, n));
        let k = choose|k: int| is_only_colon(one, k);
        assert(is_only_colon(one, k));
        assert(k == n);
        assert(one.take(n) =~= a);
        assert(one.skip(n + 1) =~= b);
    }
    if !a.contains(':') {
        assert forall|i: int| !is_only_colon(a, i) by {
            if is_only_colon(a, i) {
                assert(a.contains(a[i]));
            }
        }
    }
    let two = one + seq![':'] + c;
    assert(two[n] == ':');
    assert(two[one.len() as int] == ':');
    assert forall|i: int| !is_only_colon(two, i) by {
        if is_only_colon(two, i) {
            assert(two[n] == ':' && two[one.len() as int] == ':');
        }
    }
}

/// The digits of a number are those that stand for it and begin with no zero, unless there is only one.
pub proof fn law_decimal_has_no_leading_zero(n: nat)
    ensures
        is_number(decimal(n)),
        digits_value(decimal(n)) == n,
        n > 0 ==> decimal(n)[0] != '0',
        n == 0 ==> decimal(n) == seq!['0'],
    decreases n,
{
    lemma_decimal(n);
    assert forall|i: int| 0 <= i < decimal(n).len() implies 48 <= (#[trigger] decimal(n)[i]) as int
        <= 57 by {
        assert(is_digit(decimal(n)[i]));
    }
    if n >= 10 {
        law_decimal_has_no_leading_zero(n / 10);
        assert(decimal(n)[0] == decimal(n / 10)[0]);
    }
}

} // verus!
