//! Plain text pieces of channel names: decimal numbers, surrounding blanks
//! and letter case.

use vstd::prelude::*;
use vstd::string::StringExecFns;

verus! {

/// The character for a decimal digit.
pub open spec fn digit_char(d: nat) -> char
    recommends
        d < 10,
{
    (48 + d) as char
}

pub open spec fn is_digit(c: char) -> bool {
    '0' <= c <= '9'
}

/// Decimal notation of `n`, without leading zeros.
pub open spec fn decimal(n: nat) -> Seq<char>
    decreases n,
{
    if n < 10 {
        seq![digit_char(n)]
    } else {
        decimal(n / 10).push(digit_char(n % 10))
    }
}

/// The number that a run of decimal digits denotes.
pub open spec fn digits_value(s: Seq<char>) -> nat
    decreases s.len(),
{
    if s.len() == 0 {
        0
    } else {
        digits_value(s.drop_last()) * 10 + (s.last() as nat - 48) as nat
    }
}

pub open spec fn all_digits(s: Seq<char>) -> bool {
    forall|i: int| 0 <= i < s.len() ==> is_digit(#[trigger] s[i])
}

/// A text without the plus sign that may stand in front of it.
pub open spec fn without_plus(s: Seq<char>) -> Seq<char> {
    if s.len() > 0 && s[0] == '+' {
        s.skip(1)
    } else {
        s
    }
}

/// The number from 0 to 255 that a text writes: an optional plus sign, then
/// one or more decimal digits, leading zeros allowed.
pub open spec fn byte_number(s: Seq<char>) -> Option<u8> {
    let d = without_plus(s);
    if d.len() > 0 && all_digits(d) && digits_value(d) <= 255 {
        Some(digits_value(d) as u8)
    } else {
        None
    }
}

/// Unicode's White_Space property.
pub open spec fn is_blank(c: char) -> bool {
    let u = c as u32;
    ||| 9 <= u <= 13
    ||| u == 0x20
    ||| u == 0x85
    ||| u == 0xA0
    ||| u == 0x1680
    ||| 0x2000 <= u <= 0x200A
    ||| u == 0x2028
    ||| u == 0x2029
    ||| u == 0x202F
    ||| u == 0x205F
    ||| u == 0x3000
}

/// A text without the blanks it starts with.
pub open spec fn trim_front(s: Seq<char>) -> Seq<char>
    decreases s.len(),
{
    if s.len() > 0 && is_blank(s[0]) {
        trim_front(s.skip(1))
    } else {
        s
    }
}

/// A text without the blanks it ends with.
pub open spec fn trim_back(s: Seq<char>) -> Seq<char>
    decreases s.len(),
{
    if s.len() > 0 && is_blank(s.last()) {
        trim_back(s.drop_last())
    } else {
        s
    }
}

/// A text without the blanks around it.
pub open spec fn trimmed(s: Seq<char>) -> Seq<char> {
    trim_back(trim_front(s))
}

/// ASCII upper case; every other character is left alone.
pub open spec fn upper(c: char) -> char {
    if 'a' <= c <= 'z' {
        (c as u8 - 32) as char
    } else {
        c
    }
}

/// ASCII lower case; every other character is left alone.
pub open spec fn lower(c: char) -> char {
    if 'A' <= c <= 'Z' {
        (c as u8 + 32) as char
    } else {
        c
    }
}

/// A text in upper case.
pub open spec fn upper_text(s: Seq<char>) -> Seq<char> {
    s.map_values(|c: char| upper(c))
}

/// A text in lower case.
pub open spec fn lower_text(s: Seq<char>) -> Seq<char> {
    s.map_values(|c: char| lower(c))
}

/// What upper case leaves as it was: blanks, digits and signs.
proof fn lemma_upper(c: char)
    ensures
        is_blank(upper(c)) == is_blank(c),
        is_digit(upper(c)) == is_digit(c),
        is_digit(c) || c == '+' ==> upper(c) == c,
        upper(c) == '+' ==> c == '+',
        upper(lower(c)) == upper(c),
        upper(upper(c)) == upper(c),
{
}

proof fn lemma_trim_front_upper(s: Seq<char>)
    ensures
        trim_front(upper_text(s)) == upper_text(trim_front(s)),
    decreases s.len(),
{
    if s.len() > 0 {
        lemma_upper(s[0]);
        assert(upper_text(s).skip(1) =~= upper_text(s.skip(1)));
        lemma_trim_front_upper(s.skip(1));
    } else {
        assert(upper_text(s) =~= s);
    }
}

proof fn lemma_trim_back_upper(s: Seq<char>)
    ensures
        trim_back(upper_text(s)) == upper_text(trim_back(s)),
    decreases s.len(),
{
    if s.len() > 0 {
        lemma_upper(s[s.len() - 1]);
        assert(upper_text(s).drop_last() =~= upper_text(s.drop_last()));
        lemma_trim_back_upper(s.drop_last());
    } else {
        assert(upper_text(s) =~= s);
    }
}

/// Upper case changes nothing about the blanks around a text, the case of
/// its upper-case letters or the number that it writes.
pub proof fn lemma_upper_text(s: Seq<char>)
    ensures
        trimmed(upper_text(s)) == upper_text(trimmed(s)),
        s.len() > 0 ==> upper(upper_text(s)[0]) == upper(s[0]),
        byte_number(upper_text(s)) == byte_number(s),
{
    lemma_trim_front_upper(s);
    lemma_trim_back_upper(trim_front(s));
    let d = without_plus(s);
    assert forall|i: int| 0 <= i < s.len() implies is_digit(#[trigger] upper_text(s)[i])
        == is_digit(s[i]) && (is_digit(s[i]) ==> upper_text(s)[i] == s[i]) by {
        lemma_upper(s[i]);
    }
    if s.len() > 0 {
        lemma_upper(s[0]);
    }
    let u = without_plus(upper_text(s));
    assert(u =~= upper_text(d));
    assert forall|i: int| 0 <= i < d.len() implies is_digit(#[trigger] u[i]) == is_digit(d[i]) && (
    is_digit(d[i]) ==> u[i] == d[i]) by {
        lemma_upper(d[i]);
    }
    if all_digits(d) {
        assert(u =~= d);
    } else {
        let i = choose|i: int| 0 <= i < d.len() && !is_digit(#[trigger] d[i]);
        assert(!is_digit(u[i]));
    }
}

/// A text in lower case has the upper case of the text.
pub proof fn lemma_lower_text(s: Seq<char>)
    ensures
        upper_text(lower_text(s)) == upper_text(s),
{
    assert forall|i: int| 0 <= i < s.len() implies upper_text(lower_text(s))[i] == upper_text(
        s,
    )[i] by {
        lemma_upper(s[i]);
    }
    assert(upper_text(lower_text(s)) =~= upper_text(s));
}

/// The digits of a number below ten, as text.
fn digit_text(d: u8) -> (s: &'static str)
    requires
        d < 10,
    ensures
        s@ == seq![digit_char(d as nat)],
{
    proof {
        reveal_strlit("0");
        reveal_strlit("1");
        reveal_strlit("2");
        reveal_strlit("3");
        reveal_strlit("4");
        reveal_strlit("5");
        reveal_strlit("6");
        reveal_strlit("7");
        reveal_strlit("8");
        reveal_strlit("9");
    }
    match d {
        0 => "0",
        1 => "1",
        2 => "2",
        3 => "3",
        4 => "4",
        5 => "5",
        6 => "6",
        7 => "7",
        8 => "8",
        _ => "9",
    }
}

/// Appends `n` in decimal notation.
pub fn push_decimal(text: &mut String, n: u8)
    ensures
        final(text)@ == old(text)@ + decimal(n as nat),
{
    let ghost start = text@;
    if n >= 10 {
        if n >= 100 {
            text.append(digit_text(n / 100));
            assert(decimal((n / 100) as nat) =~= seq![digit_char((n / 100) as nat)]);
        }
        text.append(digit_text((n / 10) % 10));
        proof {
            assert(decimal((n / 10) as nat) =~= if n >= 100 {
                decimal((n / 100) as nat).push(digit_char((n / 10 % 10) as nat))
            } else {
                seq![digit_char((n / 10) as nat)]
            });
            assert(text@ =~= start + decimal((n / 10) as nat));
        }
    }
    text.append(digit_text(n % 10));
    proof {
        assert(text@ =~= start + decimal(n as nat));
    }
}

/// The characters of a text, one by one.
pub fn characters(text: &str) -> (chars: Vec<char>)
    ensures
        chars@ == text@,
{
    let mut chars: Vec<char> = Vec::new();
    for c in it: text.chars()
        invariant
            it.seq() == text@,
            chars@ == text@.take(it.index() as int),
    {
        chars.push(c);
    }
    chars
}

fn blank(c: char) -> (b: bool)
    ensures
        b == is_blank(c),
{
    let u: u32 = c as u32;
    (9 <= u && u <= 13) || u == 0x20 || u == 0x85 || u == 0xA0 || u == 0x1680 || (0x2000 <= u && u
        <= 0x200A) || u == 0x2028 || u == 0x2029 || u == 0x202F || u == 0x205F || u == 0x3000
}

/// ASCII upper case of a character.
pub fn upper_case(c: char) -> (u: char)
    ensures
        u == upper(c),
{
    if 'a' <= c && c <= 'z' {
        ((c as u8) - 32) as char
    } else {
        c
    }
}

/// Where the text without surrounding blanks starts and ends.
pub fn trim_bounds(s: &Vec<char>) -> (r: (usize, usize))
    ensures
        r.0 <= r.1 <= s.len(),
        trimmed(s@) == s@.subrange(r.0 as int, r.1 as int),
{
    let mut lo: usize = 0;
    assert(s@.skip(0) =~= s@);
    while lo < s.len() && blank(s[lo])
        invariant
            lo <= s.len(),
            trim_front(s@) == trim_front(s@.skip(lo as int)),
        decreases s.len() - lo,
    {
        assert(s@.skip(lo as int).skip(1) =~= s@.skip(lo + 1));
        lo += 1;
    }
    assert(trim_front(s@) =~= s@.subrange(lo as int, s.len() as int));
    let mut hi: usize = s.len();
    while lo < hi && blank(s[hi - 1])
        invariant
            lo <= hi <= s.len(),
            trimmed(s@) == trim_back(s@.subrange(lo as int, hi as int)),
        decreases hi,
    {
        assert(s@.subrange(lo as int, hi as int).drop_last() =~= s@.subrange(lo as int, hi - 1));
        hi -= 1;
    }
    (lo, hi)
}

proof fn lemma_digits_value_grows(s: Seq<char>, n: int)
    requires
        0 <= n <= s.len(),
    ensures
        digits_value(s.take(n)) <= digits_value(s),
    decreases s.len() - n,
{
    if n < s.len() {
        lemma_digits_value_grows(s, n + 1);
        assert(s.take(n + 1).drop_last() =~= s.take(n));
    } else {
        assert(s.take(n) =~= s);
    }
}

/// Reads the number from 0 to 255 that the characters from `from` up to `to`
/// write.
pub fn parse_byte(s: &Vec<char>, from: usize, to: usize) -> (n: Option<u8>)
    requires
        from <= to <= s.len(),
    ensures
        n == byte_number(s@.subrange(from as int, to as int)),
{
    let ghost text = s@.subrange(from as int, to as int);
    let ghost d = without_plus(text);
    let mut i: usize = from;
    if from < to && s[from] == '+' {
        i = from + 1;
    }
    let start: usize = i;
    assert(d =~= s@.subrange(start as int, to as int));
    if start == to {
        return None;
    }
    let mut value: u32 = 0;
    while i < to
        invariant
            start <= i <= to <= s.len(),
            d == s@.subrange(start as int, to as int),
            value <= 255,
            value == digits_value(d.take(i - start)),
            forall|k: int| 0 <= k < i - start ==> is_digit(#[trigger] d[k]),
            d == without_plus(text),
            d.len() > 0,
            text == s@.subrange(from as int, to as int),
        decreases to - i,
    {
        let c: char = s[i];
        assert(c == d[i - start]);
        if !('0' <= c && c <= '9') {
            return None;
        }
        let step: u32 = (c as u32) - 48;
        assert(d.take(i - start + 1).drop_last() =~= d.take(i - start));
        value = value * 10 + step;
        i += 1;
        if value > 255 {
            proof {
                lemma_digits_value_grows(d, i - start);
            }
            return None;
        }
    }
    assert(d.take(i - start) =~= d);
    Some(value as u8)
}

/// Reading back a number gives the number that was written.
pub proof fn lemma_decimal_round_trip(n: nat)
    ensures
        all_digits(decimal(n)),
        decimal(n).len() > 0,
        digits_value(decimal(n)) == n,
    decreases n,
{
    reveal_with_fuel(digits_value, 2);
    if n < 10 {
        assert(decimal(n).drop_last() =~= Seq::<char>::empty());
        assert(decimal(n).last() as nat == 48 + n);
    } else {
        lemma_decimal_round_trip(n / 10);
        assert(decimal(n).drop_last() =~= decimal(n / 10));
        assert(decimal(n).last() as nat == 48 + n % 10);
    }
}

/// Whether two texts are the same.
pub fn same_text(a: &str, b: &str) -> (same: bool)
    ensures
        same == (a@ == b@),
{
    let x: Vec<char> = characters(a);
    let y: Vec<char> = characters(b);
    if x.len() != y.len() {
        return false;
    }
    let mut i: usize = 0;
    while i < x.len()
        invariant
            i <= x.len(),
            x.len() == y.len(),
            x@ == a@,
            y@ == b@,
            forall|k: int| 0 <= k < i ==> x@[k] == y@[k],
        decreases x.len() - i,
    {
        if x[i] != y[i] {
            assert(a@[i as int] != b@[i as int]);
            return false;
        }
        i += 1;
    }
    assert(a@ =~= b@);
    true
}

/// A number reads back as it was written, with a plus sign in front or not.
pub proof fn law_numbers_read_back(n: u8)
    ensures
        byte_number(decimal(n as nat)) == Some(n),
        byte_number(seq!['+'] + decimal(n as nat)) == Some(n),
{
    lemma_decimal_round_trip(n as nat);
    let d = decimal(n as nat);
    assert(is_digit(d[0]));
    assert((seq!['+'] + d).skip(1) =~= d);
}

/// What is left of a text has no blank at either end, and only blanks were
/// taken off it.
pub proof fn law_trimming_takes_blanks_off(s: Seq<char>) -> (r: (int, int))
    ensures
        0 <= r.0 <= r.1 <= s.len(),
        trimmed(s) == s.subrange(r.0, r.1),
        forall|i: int| 0 <= i < r.0 ==> is_blank(#[trigger] s[i]),
        forall|i: int| r.1 <= i < s.len() ==> is_blank(#[trigger] s[i]),
        r.0 < r.1 ==> !is_blank(s[r.0]) && !is_blank(s[r.1 - 1]),
{
    let a = lemma_front_blanks(s);
    let rest = trim_front(s);
    let b = lemma_back_blanks(rest);
    assert(rest == s.skip(a));
    assert(rest.take(b) =~= s.subrange(a, a + b));
    assert forall|i: int| a + b <= i < s.len() implies is_blank(#[trigger] s[i]) by {
        assert(rest[i - a] == s[i]);
    }
    (a, a + b)
}

proof fn lemma_front_blanks(s: Seq<char>) -> (a: int)
    ensures
        0 <= a <= s.len(),
        trim_front(s) == s.skip(a),
        forall|i: int| 0 <= i < a ==> is_blank(#[trigger] s[i]),
        a < s.len() ==> !is_blank(s[a]),
    decreases s.len(),
{
    if s.len() > 0 && is_blank(s[0]) {
        let b = lemma_front_blanks(s.skip(1));
        assert(s.skip(1).skip(b) =~= s.skip(b + 1));
        assert forall|i: int| 0 <= i < b + 1 implies is_blank(#[trigger] s[i]) by {
            if i > 0 {
                assert(s.skip(1)[i - 1] == s[i]);
            }
        }
        b + 1
    } else {
        assert(s.skip(0) =~= s);
        0
    }
}

proof fn lemma_back_blanks(s: Seq<char>) -> (b: int)
    ensures
        0 <= b <= s.len(),
        trim_back(s) == s.take(b),
        forall|i: int| b <= i < s.len() ==> is_blank(#[trigger] s[i]),
        b > 0 ==> !is_blank(s[b - 1]),
    decreases s.len(),
{
    if s.len() > 0 && is_blank(s.last()) {
        let front = s.drop_last();
        let b = lemma_back_blanks(front);
        assert(front.take(b) =~= s.take(b));
        assert forall|i: int| b <= i < s.len() implies is_blank(#[trigger] s[i]) by {
            if i < front.len() {
                assert(front[i] == s[i]);
            }
        }
        b
    } else {
        assert(s.take(s.len() as int) =~= s);
        s.len() as int
    }
}

} // verus!
