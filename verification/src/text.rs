//! Text as sequences of characters: decimal numbers and white space.

use vstd::prelude::*;

verus! {

/// The text of an optional string.
pub open spec fn optional_text(s: Option<String>) -> Option<Seq<char>> {
    match s {
        Some(s) => Some(s@),
        None => None,
    }
}

/// Whether `c` is one of the ten ASCII digits.
pub open spec fn is_digit(c: char) -> bool {
    '0' <= c && c <= '9'
}

/// The number an ASCII digit stands for.
pub open spec fn digit_value(c: char) -> nat {
    (c as int - '0' as int) as nat
}

/// The digit that stands for `d`.
pub open spec fn digit_char(d: nat) -> char {
    if d == 0 { '0' } else if d == 1 { '1' } else if d == 2 { '2' } else if d == 3 { '3' }
    else if d == 4 { '4' } else if d == 5 { '5' } else if d == 6 { '6' } else if d == 7 { '7' }
    else if d == 8 { '8' } else { '9' }
}

/// Whether every character of `s` is an ASCII digit.
pub open spec fn all_digits(s: Seq<char>) -> bool {
    forall|i: int| 0 <= i < s.len() ==> is_digit(#[trigger] s[i])
}

/// The value of a sequence of digits in base ten.
pub open spec fn digits_value(s: Seq<char>) -> nat
    decreases s.len(),
{
    if s.len() == 0 {
        0
    } else {
        digits_value(s.drop_last()) * 10 + digit_value(s.last())
    }
}

/// `s` without a leading plus sign.
pub open spec fn unsigned_part(s: Seq<char>) -> Seq<char> {
    if s.len() > 0 && s[0] == '+' {
        s.skip(1)
    } else {
        s
    }
}

/// The number that `s` spells: decimal digits, with an optional plus sign in front, whose
/// value fits in 32 bits.
pub open spec fn spelled_u32(s: Seq<char>) -> Option<u32> {
    let digits = unsigned_part(s);
    if digits.len() > 0 && all_digits(digits) && digits_value(digits) <= u32::MAX {
        Some(digits_value(digits) as u32)
    } else {
        None
    }
}

/// `n` in base ten, without leading zeros.
pub open spec fn decimal(n: nat) -> Seq<char>
    decreases n,
{
    if n < 10 {
        seq![digit_char(n)]
    } else {
        decimal(n / 10).push(digit_char(n % 10))
    }
}

/// Whether `c` has the Unicode property `White_Space`.
pub open spec fn is_white_space(c: char) -> bool {
    let u = c as u32;
    ||| 0x09 <= u <= 0x0d
    ||| u == 0x20
    ||| u == 0x85
    ||| u == 0xa0
    ||| u == 0x1680
    ||| 0x2000 <= u <= 0x200a
    ||| u == 0x2028
    ||| u == 0x2029
    ||| u == 0x202f
    ||| u == 0x205f
    ||| u == 0x3000
}

/// `s` without the white space at its start.
pub open spec fn trimmed_start(s: Seq<char>) -> Seq<char>
    decreases s.len(),
{
    if s.len() > 0 && is_white_space(s[0]) {
        trimmed_start(s.skip(1))
    } else {
        s
    }
}

/// `s` without the white space at its end.
pub open spec fn trimmed_end(s: Seq<char>) -> Seq<char>
    decreases s.len(),
{
    if s.len() > 0 && is_white_space(s.last()) {
        trimmed_end(s.drop_last())
    } else {
        s
    }
}

/// `s` without the white space around it.
pub open spec fn trimmed(s: Seq<char>) -> Seq<char> {
    trimmed_end(trimmed_start(s))
}

/// The characters of `s`.
pub fn chars_of(s: &str) -> (chars: Vec<char>)
    ensures
        chars@ == s@,
{
    let mut chars: Vec<char> = Vec::new();
    for c in it: s.chars()
        invariant
            it.seq() == s@,
            chars@ == s@.take(it.index()),
    {
        chars.push(c);
        assert(s@.take(it.index() + 1) =~= s@.take(it.index()).push(c));
    }
    assert(s@.take(s@.len() as int) =~= s@);
    chars
}

/// Exec form of [`is_white_space`].
fn white_space(c: char) -> (r: bool)
    ensures
        r == is_white_space(c),
{
    let u: u32 = c as u32;
    (0x09 <= u && u <= 0x0d) || u == 0x20 || u == 0x85 || u == 0xa0 || u == 0x1680 || (0x2000 <= u
        && u <= 0x200a) || u == 0x2028 || u == 0x2029 || u == 0x202f || u == 0x205f || u == 0x3000
}

/// The characters of `s`, without the white space around them.
pub fn trim(s: &str) -> (chars: Vec<char>)
    ensures
        chars@ == trimmed(s@),
        exists|front: int, back: int|
            #![trigger s@.subrange(front, back)]
            {
                &&& 0 <= front <= back <= s@.len()
                &&& chars@ == s@.subrange(front, back)
                &&& forall|i: int|
                    0 <= i < s@.len() && !(front <= i < back) ==> is_white_space(#[trigger] s@[i])
                &&& front < back ==> !is_white_space(s@[front]) && !is_white_space(s@[back - 1])
            },
{
    let all = chars_of(s);
    let mut start: usize = 0;
    assert(s@.skip(0) =~= s@);
    while start < all.len() && white_space(all[start])
        invariant
            all@ == s@,
            start <= all.len(),
            trimmed_start(s@.skip(start as int)) == trimmed_start(s@),
            forall|i: int| 0 <= i < start ==> is_white_space(#[trigger] s@[i]),
        decreases all.len() - start,
    {
        assert(s@.skip(start as int).skip(1) =~= s@.skip(start + 1));
        start = start + 1;
    }
    let ghost kept = s@.skip(start as int);
    let mut end: usize = all.len();
    assert(s@.subrange(start as int, end as int) =~= kept);
    while end > start && white_space(all[end - 1])
        invariant
            all@ == s@,
            start <= end <= all.len(),
            start < all.len() ==> !is_white_space(s@[start as int]),
            forall|i: int| end <= i < s@.len() ==> is_white_space(#[trigger] s@[i]),
            trimmed_end(s@.subrange(start as int, end as int)) == trimmed_end(kept),
        decreases end,
    {
        assert(s@.subrange(start as int, end as int).drop_last() =~= s@.subrange(
            start as int,
            end - 1,
        ));
        end = end - 1;
    }
    let mut chars: Vec<char> = Vec::new();
    let mut i: usize = start;
    while i < end
        invariant
            all@ == s@,
            start <= i <= end <= all.len(),
            chars@ == s@.subrange(start as int, i as int),
        decreases end - i,
    {
        chars.push(all[i]);
        assert(s@.subrange(start as int, i + 1) =~= s@.subrange(start as int, i as int).push(
            s@[i as int],
        ));
        i = i + 1;
    }
    assert(chars@ == s@.subrange(start as int, end as int));
    chars
}

/// The number that `s` spells, if it spells one.
pub fn parse_u32(s: &Vec<char>) -> (n: Option<u32>)
    ensures
        n == spelled_u32(s@),
{
    let start: usize = if s.len() > 0 && s[0] == '+' { 1 } else { 0 };
    let ghost digits = unsigned_part(s@);
    assert(digits =~= s@.skip(start as int));
    if start == s.len() {
        return None;
    }
    let mut value: u64 = 0;
    let mut i: usize = start;
    assert(digits.take(0) =~= Seq::<char>::empty());
    while i < s.len()
        invariant
            start <= i <= s.len(),
            digits == s@.skip(start as int),
            digits == unsigned_part(s@),
            digits.len() > 0,
            all_digits(digits.take(i - start)),
            value == digits_value(digits.take(i - start)),
            value <= u32::MAX,
        decreases s.len() - i,
    {
        let c = s[i];
        let ghost n = i - start;
        assert(digits[n] == c);
        if c < '0' || c > '9' {
            return None;
        }
        assert(digits.take(n + 1).drop_last() =~= digits.take(n));
        assert(digits.take(n + 1) =~= digits.take(n).push(c));
        value = value * 10 + (c as u64 - '0' as u64);
        i = i + 1;
        if value > u32::MAX as u64 {
            proof {
                lemma_digits_value_grows(digits, n + 1);
            }
            return None;
        }
    }
    assert(digits.take(digits.len() as int) =~= digits);
    Some(value as u32)
}

/// More digits never make a smaller number.
proof fn lemma_digits_value_grows(s: Seq<char>, n: int)
    requires
        0 <= n <= s.len(),
    ensures
        digits_value(s.take(n)) <= digits_value(s),
    decreases s.len() - n,
{
    if n < s.len() {
        assert(s.take(n + 1).drop_last() =~= s.take(n));
        lemma_digits_value_grows(s, n + 1);
    } else {
        assert(s.take(n) =~= s);
    }
}

/// The digit that stands for `d`, as a string.
fn digit_str(d: u32) -> (s: &'static str)
    requires
        d < 10,
    ensures
        s@ == seq![digit_char(d as nat)],
{
    proof {
        reveal_strlit("0");
        reveal_strlit("1");
        reveal_strlit("2");
        reveal_strlit("3");
        reveal_strlit("4");
        reveal_strlit("5");
        reveal_strlit("6");
        reveal_strlit("7");
        reveal_strlit("8");
        reveal_strlit("9");
    }
    if d == 0 {
        "0"
    } else if d == 1 {
        "1"
    } else if d == 2 {
        "2"
    } else if d == 3 {
        "3"
    } else if d == 4 {
        "4"
    } else if d == 5 {
        "5"
    } else if d == 6 {
        "6"
    } else if d == 7 {
        "7"
    } else if d == 8 {
        "8"
    } else {
        "9"
    }
}

/// `n` in base ten.
pub fn decimal_string(n: u32) -> (s: String)
    ensures
        s@ == decimal(n as nat),
    decreases n,
{
    if n < 10 {
        digit_str(n).to_owned()
    } else {
        let mut s = decimal_string(n / 10);
        s.append(digit_str(n % 10));
        assert(s@ =~= decimal((n / 10) as nat).push(digit_char((n % 10) as nat)));
        s
    }
}

/// A decimal number is spelled in digits alone, starts with no plus sign, and has the value
/// it was made from.
pub proof fn lemma_decimal(n: nat)
    ensures
        decimal(n).len() > 0,
        all_digits(decimal(n)),
        digits_value(decimal(n)) == n,
    decreases n,
{
    if n < 10 {
        let s = decimal(n);
        assert(s.drop_last() =~= Seq::<char>::empty());
        assert(digits_value(s.drop_last()) == 0);
    } else {
        lemma_decimal(n / 10);
        let s = decimal(n);
        assert(s.drop_last() =~= decimal(n / 10));
    }
}

/// How numbers are read. One character is a number if it is a digit. A digit put behind a number
/// makes it ten times as large and adds its own value; a number that does not fit in 32 bits is
/// none. A plus sign in front of a number changes nothing, by itself it is none. Any other
/// character, a second sign and a sign behind a digit included, spoils it.
pub proof fn law_numbers_are_read_digit_by_digit(s: Seq<char>, c: char, n: u32)
    ensures
        spelled_u32(Seq::<char>::empty()) is None,
        48 <= c as int <= 57 ==> spelled_u32(seq![c]) == Some((c as int - 48) as u32),
        !(48 <= c as int <= 57) ==> spelled_u32(seq![c]) is None,
        spelled_u32(s) == Some(n) && 48 <= c as int <= 57 ==> spelled_u32(s.push(c)) == if 10 * n + (
        c as int - 48) <= 0xffff_ffff {
            Some((10 * n + (c as int - 48)) as u32)
        } else {
            None
        },
        s.len() > 0 && spelled_u32(s) is None && !(s.len() == 1 && s[0] as int == 43) ==> spelled_u32(
            s.push(c),
        ) is None,
        !(48 <= c as int <= 57) && s.len() > 0 ==> spelled_u32(s.push(c)) is None,
        s.len() > 0 && s[0] as int != 43 ==> spelled_u32(seq!['+'] + s) == spelled_u32(s),
        s.len() > 0 && s[0] as int == 43 ==> spelled_u32(seq!['+'] + s) is None,
{
    let one = seq![c];
    assert(one.skip(1) =~= Seq::<char>::empty());
    assert(one.drop_last() =~= Seq::<char>::empty());
    assert(digits_value(one.drop_last()) == 0);
    assert(is_digit(one[0]) <==> 48 <= c as int <= 57);
    let more = s.push(c);
    if s.len() > 0 {
        let (a, b) = (unsigned_part(s), unsigned_part(more));
        assert(b =~= a.push(c));
        assert(b.drop_last() =~= a);
        assert(b[a.len() as int] == c);
        assert(is_digit(c) <==> 48 <= c as int <= 57);
        assert(all_digits(b) <==> all_digits(a) && is_digit(c)) by {
            if all_digits(b) {
                assert forall|i: int| 0 <= i < a.len() implies is_digit(#[trigger] a[i]) by {
                    assert(a[i] == b[i]);
                }
            }
        }
        let signed = seq!['+'] + s;
        assert(signed.skip(1) =~= s);
        if s[0] as int == 43 {
            assert(!is_digit(s[0]));
        }
    }
}

/// A number is written in digits, and starts with a zero only if it is zero.
pub proof fn law_decimal_is_canonical(n: nat)
    ensures
        decimal(n).len() > 0,
        forall|i: int|
            0 <= i < decimal(n).len() ==> 48 <= #[trigger] decimal(n)[i] as int && decimal(n)[i] as int
                <= 57,
        n > 0 ==> decimal(n)[0] as int != 48,
        n == 0 ==> decimal(n).len() == 1,
    decreases n,
{
    lemma_decimal(n);
    assert forall|i: int| 0 <= i < decimal(n).len() implies 48 <= #[trigger] decimal(n)[i] as int
        && decimal(n)[i] as int <= 57 by {
        assert(is_digit(decimal(n)[i]));
    }
    if n >= 10 {
        law_decimal_is_canonical(n / 10);
    }
}

/// Reading back a number that was written in base ten gives the same number.
pub proof fn law_decimal_reads_back(n: u32)
    ensures
        spelled_u32(decimal(n as nat)) == Some(n),
{
    lemma_decimal(n as nat);
    assert(is_digit(decimal(n as nat)[0]));
}

} // verus!
