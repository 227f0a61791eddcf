use vstd::prelude::*;
use vstd::string::*;

verus! {

/// The text `s` with each letter in upper case, as `str::to_uppercase` gives it.
pub uninterp spec fn uppercase(s: Seq<char>) -> Seq<char>;

/// `str::to_uppercase` of the standard library: the result is a function of
/// the text alone, which `uppercase` names.
#[verifier::external_body]
pub(crate) fn to_uppercase(s: &str) -> (r: String)
    ensures
        r@ == uppercase(s@),
{
    s.to_uppercase()
}

/// Tells whether two texts are the same.
pub fn same_text(a: &str, b: &str) -> (same: bool)
    ensures
        same == (a@ == b@),
{
    let x = String::from_str(a);
    let y = String::from_str(b);
    x == y
}

/// True when every character of `s` is `c`.
pub open spec fn all_chars(s: Seq<char>, c: char) -> bool {
    forall|i: int| 0 <= i < s.len() ==> #[trigger] s[i] == c
}

/// Tells whether every character of `s` is `c`.
pub fn is_all(s: &str, c: char) -> (all: bool)
    ensures
        all == all_chars(s@, c),
{
    let len = s.unicode_len();
    let mut i: usize = 0;
    while i < len
        invariant
            i <= len,
            len == s@.len(),
            forall|j: int| 0 <= j < i ==> #[trigger] s@[j] == c,
        decreases len - i,
    {
        if s.get_char(i) != c {
            return false;
        }
        i += 1;
    }
    true
}

/// How often `c` occurs among the first `n` characters of `s`.
pub open spec fn occurrences(s: Seq<char>, c: char, n: nat) -> nat
    decreases n,
{
    if n == 0 {
        0
    } else {
        occurrences(s, c, (n - 1) as nat) + if s[n - 1] == c {
            1nat
        } else {
            0nat
        }
    }
}

/// Where `c` occurs first among the first `n` characters of `s`; `n` where
/// it does not occur among them.
pub open spec fn first_occurrence(s: Seq<char>, c: char, n: nat) -> nat
    decreases n,
{
    if n == 0 {
        0
    } else {
        let before = first_occurrence(s, c, (n - 1) as nat);
        if before < n - 1 {
            before
        } else if s[n - 1] == c {
            (n - 1) as nat
        } else {
            n
        }
    }
}

/// The text of `s` behind the first `c` in it.
pub open spec fn after_first(s: Seq<char>, c: char) -> Seq<char> {
    s.skip(first_occurrence(s, c, s.len()) as int + 1)
}

/// The first occurrence lies among the first `n` characters exactly when
/// there is an occurrence among them.
pub proof fn lemma_first_occurrence(s: Seq<char>, c: char, n: nat)
    requires
        n <= s.len(),
    ensures
        first_occurrence(s, c, n) <= n,
        first_occurrence(s, c, n) < n <==> occurrences(s, c, n) > 0,
        first_occurrence(s, c, n) < n ==> s[first_occurrence(s, c, n) as int] == c,
    decreases n,
{
    if n > 0 {
        lemma_first_occurrence(s, c, (n - 1) as nat);
    }
}

/// Counts how often `c` occurs in `s`, and finds where it occurs first.
pub fn count_and_find(s: &str, c: char) -> (r: (usize, usize))
    ensures
        r.0 == occurrences(s@, c, s@.len()),
        r.1 == first_occurrence(s@, c, s@.len()),
        r.1 <= s@.len(),
{
    let len = s.unicode_len();
    let mut count: usize = 0;
    let mut first: usize = 0;
    let mut i: usize = 0;
    while i < len
        invariant
            i <= len,
            len == s@.len(),
            count == occurrences(s@, c, i as nat),
            count <= i,
            first == first_occurrence(s@, c, i as nat),
            first <= i,
        decreases len - i,
    {
        let found = s.get_char(i) == c;
        if first == i && !found {
            first = i + 1;
        }
        if found {
            count += 1;
        }
        i += 1;
    }
    (count, first)
}

/// True for the ten decimal digits.
pub open spec fn is_digit(c: char) -> bool {
    '0' <= c <= '9'
}

/// The number that the first `n` characters of `s` spell as decimal digits.
pub open spec fn digits_value(s: Seq<char>, n: nat) -> nat
    decreases n,
{
    if n == 0 {
        0
    } else {
        digits_value(s, (n - 1) as nat) * 10 + (s[n - 1] as u32 - '0' as u32) as nat
    }
}

/// True when `s` is one decimal digit or more.
pub open spec fn all_digits(s: Seq<char>) -> bool {
    s.len() > 0 && forall|i: int| 0 <= i < s.len() ==> is_digit(#[trigger] s[i])
}

/// The number that `s` spells, if it spells one that a `u64` can hold:
/// decimal digits, which a plus sign may precede.
pub open spec fn u64_of(s: Seq<char>) -> Option<u64> {
    let digits = if s.len() > 0 && s[0] == '+' {
        s.skip(1)
    } else {
        s
    };
    if all_digits(digits) && digits_value(digits, digits.len()) <= u64::MAX {
        Some(digits_value(digits, digits.len()) as u64)
    } else {
        None
    }
}

/// More digits do not spell a smaller number.
pub proof fn lemma_digits_value_grows(s: Seq<char>, n: nat, m: nat)
    requires
        n <= m <= s.len(),
        forall|i: int| 0 <= i < s.len() ==> is_digit(#[trigger] s[i]),
    ensures
        digits_value(s, n) <= digits_value(s, m),
    decreases m,
{
    if n < m {
        lemma_digits_value_grows(s, n, (m - 1) as nat);
        assert(is_digit(s[m - 1]));
    }
}

/// Reads a decimal number.
pub fn parse_u64(s: &str) -> (r: Option<u64>)
    ensures
        r == u64_of(s@),
{
    let len = s.unicode_len();
    let mut i: usize = 0;
    if len > 0 && s.get_char(0) == '+' {
        i = 1;
    }
    let begin = i;
    let ghost digits = s@.skip(begin as int);
    assert(s@.skip(0) =~= s@);
    if i == len {
        return None;
    }
    let mut value: u64 = 0;
    while i < len
        invariant
            begin <= i <= len,
            begin < len,
            begin == if s@.len() > 0 && s@[0] == '+' {
                1int
            } else {
                0int
            },
            len == s@.len(),
            digits == s@.skip(begin as int),
            s@.skip(0) == s@,
            digits.len() == len - begin,
            forall|j: int| 0 <= j < i - begin ==> is_digit(#[trigger] digits[j]),
            value == digits_value(digits, (i - begin) as nat),
        decreases len - i,
    {
        let c = s.get_char(i);
        assert(digits[i - begin] == c);
        if !('0' <= c && c <= '9') {
            assert(!is_digit(digits[i - begin]));
            return None;
        }
        let d: u64 = (c as u32 - '0' as u32) as u64;
        if value > (u64::MAX - d) / 10 {
            proof {
                let k = (i - begin + 1) as nat;
                assert(digits_value(digits, k) == digits_value(digits, (k - 1) as nat) * 10 + d);
                assert(value * 10 + d > u64::MAX);
                assert(digits_value(digits, k) > u64::MAX);
                if all_digits(digits) {
                    lemma_digits_value_grows(digits, k, digits.len());
                }
            }
            return None;
        }
        value = value * 10 + d;
        i += 1;
    }
    Some(value)
}

/// The decimal digit that stands for `d`.
pub open spec fn digit_char(d: nat) -> char {
    if d == 0 {
        '0'
    } else if d == 1 {
        '1'
    } else if d == 2 {
        '2'
    } else if d == 3 {
        '3'
    } else if d == 4 {
        '4'
    } else if d == 5 {
        '5'
    } else if d == 6 {
        '6'
    } else if d == 7 {
        '7'
    } else if d == 8 {
        '8'
    } else {
        '9'
    }
}

/// The number `n` in decimal digits, without leading zeros.
pub open spec fn decimal(n: nat) -> Seq<char>
    decreases n,
{
    if n < 10 {
        seq![digit_char(n)]
    } else {
        decimal(n / 10).push(digit_char(n % 10))
    }
}

/// The decimal digit that stands for `d`, as a text.
fn digit_text(d: usize) -> (t: &'static str)
    requires
        d < 10,
    ensures
        t@ == seq![digit_char(d as nat)],
{
    proof {
        reveal_strlit("0");
        reveal_strlit("1");
        reveal_strlit("2");
        reveal_strlit("3");
        reveal_strlit("4");
        reveal_strlit("5");
        reveal_strlit("6");
        reveal_strlit("7");
        reveal_strlit("8");
        reveal_strlit("9");
    }
    let t = if d == 0 {
        "0"
    } else if d == 1 {
        "1"
    } else if d == 2 {
        "2"
    } else if d == 3 {
        "3"
    } else if d == 4 {
        "4"
    } else if d == 5 {
        "5"
    } else if d == 6 {
        "6"
    } else if d == 7 {
        "7"
    } else if d == 8 {
        "8"
    } else {
        "9"
    };
    assert(t@ =~= seq![digit_char(d as nat)]);
    t
}

/// Writes a number in decimal digits.
pub fn to_decimal(n: usize) -> (t: String)
    ensures
        t@ == decimal(n as nat),
    decreases n,
{
    if n < 10 {
        String::from_str(digit_text(n))
    } else {
        let mut t = to_decimal(n / 10);
        t.append(digit_text(n % 10));
        assert(t@ =~= decimal(n as nat));
        t
    }
}

} // verus!
