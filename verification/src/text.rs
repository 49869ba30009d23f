//! Text primitives: searching, joining and printing, each stated over the
//! sequence of characters that a string holds.

use vstd::prelude::*;

verus! {

/// `String::push` appends one character to the end of the string.
pub assume_specification[ String::push ](s: &mut String, c: char)
    ensures
        final(s)@ == old(s)@.push(c),
;

/// The characters of `s`, in order.
pub fn chars_of(s: &str) -> (r: Vec<char>)
    ensures
        r@ == s@,
{
    let mut out: Vec<char> = Vec::new();
    for c in it: s.chars()
        invariant
            it.seq() == s@,
            out@ == s@.take(it.index() as int),
    {
        out.push(c);
    }
    out
}

/// True when both strings hold the same characters.
pub fn same(a: &str, b: &str) -> (r: bool)
    ensures
        r == (a@ == b@),
{
    a.to_owned() == b.to_owned()
}

/// The same text again, where there is one.
pub(crate) fn copy_text(s: &Option<String>) -> (r: Option<String>)
    ensures
        r == *s,
{
    match s {
        Some(t) => Some(t.clone()),
        None => None,
    }
}

/// `needle` stands in `hay` at character position `at`.
pub open spec fn occurs_at(hay: Seq<char>, needle: Seq<char>, at: int) -> bool {
    &&& 0 <= at <= hay.len() - needle.len()
    &&& hay.subrange(at, at + needle.len()) == needle
}

/// `needle` stands somewhere in `hay`.
pub open spec fn has_text(hay: Seq<char>, needle: Seq<char>) -> bool {
    exists|at: int| occurs_at(hay, needle, at)
}

/// `hay` begins with `prefix`.
pub open spec fn begins_with(hay: Seq<char>, prefix: Seq<char>) -> bool {
    occurs_at(hay, prefix, 0)
}

/// `hay` ends with `suffix`.
pub open spec fn finishes_with(hay: Seq<char>, suffix: Seq<char>) -> bool {
    occurs_at(hay, suffix, hay.len() - suffix.len())
}

fn matches_at(hay: &Vec<char>, needle: &Vec<char>, at: usize) -> (r: bool)
    requires
        at + needle@.len() <= hay@.len(),
    ensures
        r == occurs_at(hay@, needle@, at as int),
{
    let mut i: usize = 0;
    while i < needle.len()
        invariant
            i <= needle@.len(),
            at + needle.len() <= hay.len(),
            forall|k: int| 0 <= k < i ==> hay@[at + k] == #[trigger] needle@[k],
        decreases needle@.len() - i,
    {
        if hay[at + i] != needle[i] {
            proof {
                if occurs_at(hay@, needle@, at as int) {
                    assert(hay@.subrange(at as int, at + needle@.len())[i as int] == hay@[at + i]);
                }
            }
            return false;
        }
        i = i + 1;
    }
    assert(hay@.subrange(at as int, at + needle@.len()) =~= needle@);
    true
}

/// True when `needle` stands somewhere in `hay`.
pub fn contains(hay: &str, needle: &str) -> (r: bool)
    ensures
        r == has_text(hay@, needle@),
{
    let h = chars_of(hay);
    let n = chars_of(needle);
    if n.len() > h.len() {
        return false;
    }
    let last: usize = h.len() - n.len();
    let mut at: usize = 0;
    while at <= last
        invariant
            h@ == hay@,
            n@ == needle@,
            last + n@.len() == h@.len(),
            at <= last + 1,
            forall|k: int| 0 <= k < at ==> !occurs_at(hay@, needle@, k),
        decreases last + 1 - at,
    {
        if matches_at(&h, &n, at) {
            return true;
        }
        if at == last {
            return false;
        }
        at = at + 1;
    }
    false
}

/// True when `hay` begins with `prefix`.
pub fn starts_with(hay: &str, prefix: &str) -> (r: bool)
    ensures
        r == begins_with(hay@, prefix@),
{
    let h = chars_of(hay);
    let p = chars_of(prefix);
    p.len() <= h.len() && matches_at(&h, &p, 0)
}

/// True when `hay` ends with `suffix`.
pub fn ends_with(hay: &str, suffix: &str) -> (r: bool)
    ensures
        r == finishes_with(hay@, suffix@),
{
    let h = chars_of(hay);
    let s = chars_of(suffix);
    s.len() <= h.len() && matches_at(&h, &s, h.len() - s.len())
}

/// What stands before `suffix` at the end of `text`, if it ends with it.
pub fn strip_suffix(text: &str, suffix: &str) -> (r: Option<String>)
    ensures
        r is Some <==> finishes_with(text@, suffix@),
        r matches Some(rest) ==> text@ == rest@ + suffix@,
{
    if !ends_with(text, suffix) {
        return None;
    }
    let t = chars_of(text);
    let s = chars_of(suffix);
    let keep: usize = t.len() - s.len();
    let mut out = String::new();
    let mut i: usize = 0;
    while i < keep
        invariant
            t@ == text@,
            i <= keep <= t@.len(),
            out@ == text@.take(i as int),
        decreases keep - i,
    {
        out.push(t[i]);
        i = i + 1;
    }
    assert(text@ =~= text@.take(keep as int) + text@.subrange(keep as int, text@.len() as int));
    Some(out)
}

/// The digit `d` as a character.
pub open spec fn digit_char(d: int) -> char {
    ('0' as int + d) as char
}

/// The decimal digits of `n`, most significant first.
pub open spec fn digits(n: nat) -> Seq<char>
    decreases n,
{
    if n < 10 {
        seq![digit_char(n as int)]
    } else {
        digits(n / 10).push(digit_char((n % 10) as int))
    }
}

/// `n` in decimal, with a leading minus when it is negative.
pub open spec fn decimal_text(n: int) -> Seq<char> {
    if n < 0 {
        seq!['-'] + digits((-n) as nat)
    } else {
        digits(n as nat)
    }
}

fn push_digits(out: &mut String, n: u128)
    ensures
        final(out)@ == old(out)@ + digits(n as nat),
    decreases n,
{
    if n >= 10 {
        push_digits(out, n / 10);
    }
    let d: u8 = (n % 10) as u8;
    let c: char = (48u8 + d) as char;
    assert(c == digit_char((n % 10) as int));
    out.push(c);
}

/// `n` in decimal.
pub fn decimal(n: i128) -> (r: String)
    requires
        n > i128::MIN,
    ensures
        r@ == decimal_text(n as int),
{
    let mut out = String::new();
    if n < 0 {
        out.push('-');
        push_digits(&mut out, (-n) as u128);
    } else {
        push_digits(&mut out, n as u128);
    }
    out
}

/// A digit character stands for its value.
proof fn lemma_digit_char(a: int, b: int)
    requires
        0 <= a < 10,
        0 <= b < 10,
        digit_char(a) == digit_char(b),
    ensures
        a == b,
{
}

proof fn lemma_digits_are_digits(n: nat)
    ensures
        digits(n).len() >= 1,
        forall|i: int| 0 <= i < digits(n).len() ==> '0' <= #[trigger] digits(n)[i] <= '9',
    decreases n,
{
    if n >= 10 {
        lemma_digits_are_digits(n / 10);
    }
}

proof fn lemma_digits_injective(a: nat, b: nat)
    requires
        digits(a) == digits(b),
    ensures
        a == b,
    decreases a,
{
    lemma_digits_are_digits(a / 10);
    lemma_digits_are_digits(b / 10);
    assert(digits(a).last() == digit_char((a % 10) as int));
    assert(digits(b).last() == digit_char((b % 10) as int));
    lemma_digit_char((a % 10) as int, (b % 10) as int);
    if a < 10 {
        if b >= 10 {
            assert(digits(b).len() >= 2);
        }
    } else {
        if b < 10 {
            assert(digits(a).len() >= 2);
        } else {
            assert(digits(a).drop_last() =~= digits(a / 10));
            assert(digits(b).drop_last() =~= digits(b / 10));
            lemma_digits_injective(a / 10, b / 10);
        }
    }
}

/// A decimal text holds digits, and a minus at most in front.
pub proof fn law_decimal_characters(n: int)
    ensures
        decimal_text(n).len() >= 1,
        forall|i: int|
            0 <= i < decimal_text(n).len() ==> '0' <= #[trigger] decimal_text(n)[i] <= '9' || (
            decimal_text(n)[i] == '-' && i == 0),
{
    lemma_digits_are_digits(if n < 0 {
        (-n) as nat
    } else {
        n as nat
    });
}

/// Two numbers that print alike are the same number.
pub proof fn law_decimal_is_injective(a: int, b: int)
    requires
        decimal_text(a) == decimal_text(b),
    ensures
        a == b,
{
    let x = if a < 0 {
        (-a) as nat
    } else {
        a as nat
    };
    let y = if b < 0 {
        (-b) as nat
    } else {
        b as nat
    };
    lemma_digits_are_digits(x);
    lemma_digits_are_digits(y);
    assert(decimal_text(a)[0] == decimal_text(b)[0]);
    assert('0' <= digits(x)[0] && '0' <= digits(y)[0]);
    if a < 0 {
        assert(decimal_text(a)[0] == '-');
        assert(b < 0);
        assert(decimal_text(a).skip(1) =~= digits(x));
        assert(decimal_text(b).skip(1) =~= digits(y));
    } else {
        assert(b >= 0) by {
            if b < 0 {
                assert(decimal_text(b)[0] == '-');
            }
        }
    }
    lemma_digits_injective(x, y);
}

/// `c` is a decimal digit.
pub open spec fn is_digit(c: char) -> bool {
    '0' <= c <= '9'
}

/// `s` holds digits alone, and at least one.
pub open spec fn all_digits(s: Seq<char>) -> bool {
    &&& s.len() > 0
    &&& forall|i: int| 0 <= i < s.len() ==> is_digit(#[trigger] s[i])
}

/// The number that the digits of `s` stand for.
pub open spec fn number_of(s: Seq<char>) -> int
    decreases s.len(),
{
    if s.len() == 0 {
        0
    } else {
        number_of(s.drop_last()) * 10 + (s.last() as int - '0' as int)
    }
}

/// The integer that `s` is the text of: digits, with an optional sign in front.
pub open spec fn integer_text(s: Seq<char>) -> Option<int> {
    if all_digits(s) {
        Some(number_of(s))
    } else if s.len() > 0 && (s[0] == '-' || s[0] == '+') && all_digits(s.skip(1)) {
        Some(if s[0] == '-' {
            -number_of(s.skip(1))
        } else {
            number_of(s.skip(1))
        })
    } else {
        None
    }
}

/// The 32-bit integer that `s` is the text of.
pub open spec fn i32_text(s: Seq<char>) -> Option<i32> {
    match integer_text(s) {
        Some(n) if i32::MIN <= n <= i32::MAX => Some(n as i32),
        _ => None,
    }
}

/// The magnitude of the digits from `from` on: `None` when one is no digit, or
/// there is none; anything beyond what an `i32` can hold counts as the first
/// number beyond.
fn magnitude(cs: &Vec<char>, from: usize) -> (r: Option<u64>)
    requires
        from <= cs@.len(),
    ensures
        r is Some <==> all_digits(cs@.skip(from as int)),
        r matches Some(n) ==> n == (if number_of(cs@.skip(from as int)) > 0x8000_0000 {
            0x8000_0001
        } else {
            number_of(cs@.skip(from as int))
        }),
{
    let ghost s = cs@.skip(from as int);
    if from == cs.len() {
        return None;
    }
    let mut n: u64 = 0;
    let mut i: usize = from;
    assert(s.take(0) =~= Seq::<char>::empty());
    while i < cs.len()
        invariant
            s == cs@.skip(from as int),
            from <= i <= cs@.len(),
            n <= 0x8000_0001,
            forall|k: int| 0 <= k < i - from ==> is_digit(#[trigger] s[k]),
            n <= 0x8000_0000 ==> number_of(s.take(i - from)) == n,
            n == 0x8000_0001 ==> number_of(s.take(i - from)) > 0x8000_0000,
        decreases cs@.len() - i,
    {
        let c = cs[i];
        assert(s[i - from] == c);
        if c < '0' || c > '9' {
            assert(!is_digit(s[i - from]));
            return None;
        }
        let d: u64 = (c as u32 - 48) as u64;
        assert(s.take(i - from + 1).drop_last() =~= s.take(i - from));
        if n * 10 + d > 0x8000_0000 {
            n = 0x8000_0001;
        } else {
            n = n * 10 + d;
        }
        i = i + 1;
    }
    assert(s.take(s.len() as int) =~= s);
    Some(n)
}

/// Reads a 32-bit integer: digits, with an optional sign in front.
pub fn parse_i32(text: &str) -> (r: Option<i32>)
    ensures
        r == i32_text(text@),
{
    let cs = chars_of(text);
    if cs.len() == 0 {
        return None;
    }
    let signed = cs[0] == '-' || cs[0] == '+';
    let minus = cs[0] == '-';
    let from: usize = if signed {
        1
    } else {
        0
    };
    proof {
        assert(cs@.skip(0) =~= cs@);
        if signed {
            assert(!is_digit(text@[0]));
        }
    }
    match magnitude(&cs, from) {
        None => None,
        Some(n) => if minus {
            if n <= 0x8000_0000 {
                Some((-(n as i64)) as i32)
            } else {
                None
            }
        } else if n <= 0x7fff_ffff {
            Some(n as i32)
        } else {
            None
        },
    }
}

proof fn lemma_number_of_digits(n: nat)
    ensures
        all_digits(digits(n)),
        number_of(digits(n)) == n,
    decreases n,
{
    lemma_digits_are_digits(n);
    if n >= 10 {
        lemma_number_of_digits(n / 10);
        assert(digits(n).drop_last() =~= digits(n / 10));
        assert(digits(n).last() == digit_char((n % 10) as int));
    } else {
        assert(digits(n).drop_last() =~= Seq::<char>::empty());
        assert(number_of(digits(n).drop_last()) == 0);
        assert(digits(n).last() == digit_char(n as int));
    }
    assert(digit_char((n % 10) as int) as int == '0' as int + n % 10);
}

/// What prints in decimal reads back as the number it was.
pub proof fn law_decimal_reads_back(n: int)
    ensures
        integer_text(decimal_text(n)) == Some(n),
        i32::MIN <= n <= i32::MAX ==> i32_text(decimal_text(n)) == Some(n as i32),
{
    if n < 0 {
        lemma_number_of_digits((-n) as nat);
        assert(decimal_text(n)[0] == '-');
        assert(!is_digit(decimal_text(n)[0]));
        assert(decimal_text(n).skip(1) =~= digits((-n) as nat));
    } else {
        lemma_number_of_digits(n as nat);
    }
}

proof fn lemma_part_stands(a: Seq<char>, needle: Seq<char>, b: Seq<char>)
    ensures
        occurs_at(a + needle + b, needle, a.len() as int),
{
    let hay = a + needle + b;
    assert(hay.subrange(a.len() as int, (a.len() + needle.len()) as int) =~= needle);
}

proof fn lemma_parts_of(hay: Seq<char>, needle: Seq<char>, at: int)
    requires
        occurs_at(hay, needle, at),
    ensures
        0 <= at <= hay.len() - needle.len(),
        hay == hay.take(at) + needle + hay.skip(at + needle.len()),
{
    let n = needle.len() as int;
    assert(hay =~= hay.take(at) + hay.subrange(at, at + n) + hay.skip(at + n));
}

/// `hay` is `needle` with what stands before `at` and behind it.
pub open spec fn stands_at(hay: Seq<char>, needle: Seq<char>, at: int) -> bool {
    &&& 0 <= at <= hay.len() - needle.len()
    &&& hay == hay.take(at) + needle + hay.skip(at + needle.len())
}

/// A text stands in another where that is it with something before and
/// something behind.
pub proof fn law_texts_stand_in_texts(
    hay: Seq<char>,
    needle: Seq<char>,
    a: Seq<char>,
    b: Seq<char>,
)
    ensures
        has_text(a + needle + b, needle),
        has_text(hay, needle) ==> exists|at: int| #[trigger] stands_at(hay, needle, at),
{
    lemma_part_stands(a, needle, b);
    if has_text(hay, needle) {
        let at = choose|at: int| occurs_at(hay, needle, at);
        lemma_parts_of(hay, needle, at);
        assert(stands_at(hay, needle, at));
    }
}

/// A text begins another where that is it with something behind, and ends it
/// where that is it with something before.
pub proof fn law_texts_begin_and_end_texts(
    hay: Seq<char>,
    needle: Seq<char>,
    a: Seq<char>,
    b: Seq<char>,
)
    ensures
        begins_with(needle + b, needle),
        finishes_with(a + needle, needle),
        begins_with(hay, needle) ==> hay == needle + hay.skip(needle.len() as int),
        finishes_with(hay, needle) ==> hay == hay.take(hay.len() - needle.len()) + needle,
{
    let none = Seq::<char>::empty();
    lemma_part_stands(none, needle, b);
    assert(none + needle + b =~= needle + b);
    lemma_part_stands(a, needle, none);
    assert(a + needle + none =~= a + needle);
    if begins_with(hay, needle) {
        lemma_parts_of(hay, needle, 0);
        assert(hay.take(0) + needle + hay.skip(needle.len() as int) =~= needle + hay.skip(
            needle.len() as int,
        ));
    }
    if finishes_with(hay, needle) {
        let at = hay.len() - needle.len();
        lemma_parts_of(hay, needle, at);
        assert(hay.take(at) + needle + hay.skip(at + needle.len()) =~= hay.take(at) + needle);
    }
}

/// A number is written digit by digit, the greatest place first, with a minus
/// sign where it is negative.
pub proof fn law_numbers_are_written_in_tens(n: nat, d: nat)
    requires
        d < 10,
    ensures
        n > 0 ==> decimal_text((10 * n + d) as int) == decimal_text(n as int).push(
            (0x30 + d) as char,
        ),
        decimal_text(d as int) == seq![(0x30 + d) as char],
        n > 0 ==> decimal_text(-(n as int)) == seq!['-'] + decimal_text(n as int),
{
    reveal_with_fuel(digits, 2);
    assert((10 * n + d) / 10 == n);
    assert((10 * n + d) % 10 == d);
    assert(decimal_text(d as int) =~= seq![(0x30 + d) as char]);
}

/// A digit is read as its value, with or without a sign in front.
pub proof fn law_one_digit_is_its_value(c: char)
    requires
        '0' <= c <= '9',
    ensures
        integer_text(seq![c]) == Some(c as int - '0' as int),
        integer_text(seq!['+', c]) == Some(c as int - '0' as int),
        integer_text(seq!['-', c]) == Some('0' as int - c as int),
{
    let s = seq![c];
    reveal_with_fuel(number_of, 2);
    assert(all_digits(s));
    assert(s.drop_last() =~= Seq::<char>::empty());
    assert(seq!['+', c].skip(1) =~= s);
    assert(seq!['-', c].skip(1) =~= s);
    assert(!is_digit(seq!['+', c][0]));
    assert(!is_digit(seq!['-', c][0]));
}

/// A further digit makes ten times as much and its value, away from zero.
pub proof fn law_further_digits_count_in_tens(s: Seq<char>, n: int, c: char)
    requires
        integer_text(s) == Some(n),
        '0' <= c <= '9',
    ensures
        integer_text(s.push(c)) == Some(
            if s[0] == '-' {
                n * 10 - (c as int - '0' as int)
            } else {
                n * 10 + (c as int - '0' as int)
            },
        ),
{
    let t = s.push(c);
    assert(t.drop_last() =~= s);
    assert(t[0] == s[0]);
    if all_digits(s) {
        assert(is_digit(s[0]));
        assert forall|i: int| 0 <= i < t.len() implies is_digit(#[trigger] t[i]) by {
            if i < s.len() {
                assert(t[i] == s[i]);
            }
        }
        assert(all_digits(t));
    } else {
        let x = s.skip(1);
        let y = t.skip(1);
        assert(y =~= x.push(c));
        assert(y.drop_last() =~= x);
        assert forall|i: int| 0 <= i < y.len() implies is_digit(#[trigger] y[i]) by {
            if i < x.len() {
                assert(y[i] == x[i]);
            }
        }
        assert(all_digits(y));
        assert(!all_digits(t)) by {
            if all_digits(t) {
                assert(is_digit(t[0]));
            }
        }
    }
}

/// Nothing else is an integer: not a text without a digit, nor one with a
/// character that is no digit, but for a sign at its start. One that does not
/// fit is none of 32 bits.
pub proof fn law_integers_are_signed_digits(s: Seq<char>, i: int, n: i32)
    ensures
        0 <= i < s.len() && !('0' <= s[i] <= '9') && (i > 0 || (s[i] != '-' && s[i] != '+'))
            ==> integer_text(s) is None,
        s.len() == 0 ==> integer_text(s) is None,
        s.len() == 1 && !('0' <= s[0] <= '9') ==> integer_text(s) is None,
        i32_text(s) == Some(n) <==> integer_text(s) == Some(n as int),
{
    if 0 <= i < s.len() && !is_digit(s[i]) {
        assert(!all_digits(s));
        if i > 0 {
            assert(s.skip(1)[i - 1] == s[i]);
        }
    }
    if s.len() == 1 {
        assert(s.skip(1).len() == 0);
    }
}

} // verus!
