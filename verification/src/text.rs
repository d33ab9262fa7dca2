//! Text as the library puts it together.

use vstd::arithmetic::power;
use vstd::prelude::*;

verus! {

/// The character that writes a decimal digit.
pub open spec fn digit(d: nat) -> char {
    (48 + d) as char
}

/// The decimal notation of `n`, without leading zeros.
pub open spec fn decimal(n: nat) -> Seq<char>
    decreases n,
{
    if n < 10 {
        seq![digit(n)]
    } else {
        decimal(n / 10).push(digit(n % 10))
    }
}

fn digit_str(d: u64) -> (r: &'static str)
    requires
        d < 10,
    ensures
        r@ == seq![digit(d as nat)],
{
    proof {
        reveal_strlit("0");
        reveal_strlit("1");
        reveal_strlit("2");
        reveal_strlit("3");
        reveal_strlit("4");
        reveal_strlit("5");
        reveal_strlit("6");
        reveal_strlit("7");
        reveal_strlit("8");
        reveal_strlit("9");
    }
    match d {
        0 => "0",
        1 => "1",
        2 => "2",
        3 => "3",
        4 => "4",
        5 => "5",
        6 => "6",
        7 => "7",
        8 => "8",
        _ => "9",
    }
}

/// Returns the decimal notation of `n`.
pub fn decimal_string(n: u64) -> (r: String)
    ensures
        r@ == decimal(n as nat),
    decreases n,
{
    if n < 10 {
        String::from_str(digit_str(n))
    } else {
        let mut r = decimal_string(n / 10);
        r.append(digit_str(n % 10));
        assert(r@ == decimal(n as nat));
        r
    }
}

/// Returns `a` followed by `b`.
pub fn join(a: &str, b: &str) -> (r: String)
    ensures
        r@ == a@ + b@,
{
    let mut r = String::from_str(a);
    r.append(b);
    r
}

/// Whether `part` stands in `s` at place `i`.
pub open spec fn occurs_at(s: Seq<char>, part: Seq<char>, i: int) -> bool {
    0 <= i && i + part.len() <= s.len() && s.subrange(i, i + part.len()) == part
}

/// Whether `part` stands anywhere in `s`.
pub open spec fn occurs_in(s: Seq<char>, part: Seq<char>) -> bool {
    exists|i: int| #[trigger] occurs_at(s, part, i)
}

/// Returns `true` if `part` stands in `s` at place `at`.
fn starts_at(s: &str, part: &str, at: usize) -> (r: bool)
    requires
        at + part@.len() <= s@.len() <= usize::MAX,
    ensures
        r == occurs_at(s@, part@, at as int),
{
    let n: usize = part.unicode_len();
    let mut i: usize = 0;
    while i < n
        invariant
            i <= n == part@.len(),
            at + n <= s@.len() <= usize::MAX,
            forall|k: int| 0 <= k < i ==> s@[at + k] == part@[k],
        decreases n - i,
    {
        if s.get_char(at + i) != part.get_char(i) {
            assert(s@.subrange(at as int, at + part@.len())[i as int] == s@[at + i]);
            return false;
        }
        i = i + 1;
    }
    assert(s@.subrange(at as int, at + part@.len()) == part@);
    true
}

/// Returns `true` if `part` stands anywhere in `s`.
pub fn contains(s: &str, part: &str) -> (r: bool)
    ensures
        r == occurs_in(s@, part@),
{
    let n: usize = s.unicode_len();
    let m: usize = part.unicode_len();
    let mut at: usize = 0;
    while at <= n && m <= n - at
        invariant
            n == s@.len(),
            m == part@.len(),
            at <= n + 1,
            forall|k: int| 0 <= k < at ==> !occurs_at(s@, part@, k),
        decreases n + 1 - at,
    {
        if starts_at(s, part, at) {
            return true;
        }
        if at == n {
            return false;
        }
        at = at + 1;
    }
    false
}

/// Different numbers have different decimal notations.
pub proof fn decimal_is_injective(m: nat, n: nat)
    requires
        decimal(m) == decimal(n),
    ensures
        m == n,
    decreases m,
{
    let s = decimal(m);
    assert(s.last() == digit(m % 10));
    assert(decimal(n).last() == digit(n % 10));
    if m >= 10 || n >= 10 {
        lemma_decimal_not_empty(m / 10);
        lemma_decimal_not_empty(n / 10);
        assert(m >= 10 && n >= 10);
        assert(decimal(m).drop_last() == decimal(m / 10));
        assert(decimal(n).drop_last() == decimal(n / 10));
        decimal_is_injective(m / 10, n / 10);
    }
}

proof fn lemma_decimal_not_empty(n: nat)
    ensures
        decimal(n).len() > 0,
{
}

/// What the characters of a decimal notation are: the digits of the number in
/// base 10, the most significant first, and not one more than it needs.
pub proof fn decimal_writes_the_digits(n: nat)
    ensures
        ({
            let s = decimal(n);
            let len = s.len();
            &&& len > 0
            &&& n < power::pow(10, len)
            &&& len > 1 ==> n >= power::pow(10, (len - 1) as nat)
            &&& forall|k: int|
                0 <= k < len ==> #[trigger] s[k] == digit_char(
                    (n as int / power::pow(10, (len - 1 - k) as nat)) % 10,
                )
        }),
    decreases n,
{
    let s = decimal(n);
    power::lemma_pow0(10);
    power::lemma_pow1(10);
    if n < 10 {
        assert(n as int / 1 == n);
    } else {
        let head = decimal(n / 10);
        let h = head.len();
        decimal_writes_the_digits(n / 10);
        assert(s.len() == h + 1);
        reveal(power::pow);
        assert(power::pow(10, h + 1) == 10 * power::pow(10, h));
        assert(power::pow(10, h) == 10 * power::pow(10, (h - 1) as nat));
        assert forall|k: int| 0 <= k < h + 1 implies #[trigger] s[k] == digit_char(
            (n as int / power::pow(10, (h - k) as nat)) % 10,
        ) by {
            if k < h {
                let e = (h - 1 - k) as nat;
                power::lemma_pow_positive(10, e);
                assert(power::pow(10, e + 1) == 10 * power::pow(10, e));
                vstd::arithmetic::div_mod::lemma_div_denominator(
                    n as int,
                    10,
                    power::pow(10, e),
                );
                assert(head[k] == s[k]);
            } else {
                assert(n as int / 1 == n);
            }
        }
    }
}

/// The character of a digit.
pub open spec fn digit_char(d: int) -> char {
    if d == 0 {
        '0'
    } else if d == 1 {
        '1'
    } else if d == 2 {
        '2'
    } else if d == 3 {
        '3'
    } else if d == 4 {
        '4'
    } else if d == 5 {
        '5'
    } else if d == 6 {
        '6'
    } else if d == 7 {
        '7'
    } else if d == 8 {
        '8'
    } else {
        '9'
    }
}

/// A part stands in a text where, from some place on, the text has the
/// characters of the part, one by one.
pub proof fn part_stands_in_a_text(s: Seq<char>, part: Seq<char>)
    ensures
        occurs_in(s, part) <==> exists|i: int|
            0 <= i && i + part.len() <= s.len() && s.skip(i).take(part.len() as int) == part,
{
    if occurs_in(s, part) {
        let i = choose|i: int| #[trigger] occurs_at(s, part, i);
        assert(s.skip(i).take(part.len() as int) == s.subrange(i, i + part.len()));
    }
    if exists|i: int|
        0 <= i && i + part.len() <= s.len() && s.skip(i).take(part.len() as int) == part {
        let i = choose|i: int|
            0 <= i && i + part.len() <= s.len() && s.skip(i).take(part.len() as int) == part;
        assert(s.skip(i).take(part.len() as int) == s.subrange(i, i + part.len()));
        assert(occurs_at(s, part, i));
    }
}

} // verus!
