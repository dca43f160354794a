//! Numbers in decimal: written out, padded with zeros, and read.

use vstd::prelude::*;
use vstd::string::{StrSliceExecFns, StringExecFns};

verus! {

/// The digit for a number below ten.
pub open spec fn digit(d: nat) -> char {
    ('0' as u32 + d) as char
}

/// A natural number in decimal, without leading zeros.
pub open spec fn decimal_nat(n: nat) -> Seq<char>
    decreases n,
{
    if n < 10 {
        seq![digit(n)]
    } else {
        decimal_nat(n / 10).push(digit(n % 10))
    }
}

/// A number in decimal, with a sign if it is negative.
pub open spec fn decimal(n: int) -> Seq<char> {
    if n < 0 {
        seq!['-'] + decimal_nat((-n) as nat)
    } else {
        decimal_nat(n as nat)
    }
}

/// The digit for a number below ten, as a string.
fn digit_str(d: u128) -> (r: &'static str)
    requires
        d < 10,
    ensures
        r@ == seq![digit(d as nat)],
{
    proof {
        reveal_strlit("0");
        reveal_strlit("1");
        reveal_strlit("2");
        reveal_strlit("3");
        reveal_strlit("4");
        reveal_strlit("5");
        reveal_strlit("6");
        reveal_strlit("7");
        reveal_strlit("8");
        reveal_strlit("9");
    }
    let r = match d {
        0 => "0",
        1 => "1",
        2 => "2",
        3 => "3",
        4 => "4",
        5 => "5",
        6 => "6",
        7 => "7",
        8 => "8",
        _ => "9",
    };
    assert(r@ =~= seq![digit(d as nat)]);
    r
}

/// Appends a natural number in decimal.
pub fn push_nat(s: &mut String, n: u128)
    ensures
        final(s)@ == old(s)@ + decimal_nat(n as nat),
    decreases n,
{
    if n >= 10 {
        push_nat(s, n / 10);
    }
    s.append(digit_str(n % 10));
    assert(s@ =~= old(s)@ + decimal_nat(n as nat));
}

/// Appends a number in decimal.
pub fn push_int(s: &mut String, n: i64)
    ensures
        final(s)@ == old(s)@ + decimal(n as int),
{
    if n < 0 {
        proof {
            reveal_strlit("-");
        }
        s.append("-");
        let m: u64 = if n == i64::MIN {
            0x8000_0000_0000_0000
        } else {
            (-n) as u64
        };
        push_nat(s, m as u128);
        assert(s@ =~= old(s)@ + decimal(n as int));
    } else {
        push_nat(s, n as u128);
    }
}

// ---------------------------------------------------------------------------
// Padding

/// `n` zeros.
pub open spec fn zeros(n: int) -> Seq<char> {
    Seq::new(
        if n < 0 {
            0
        } else {
            n as nat
        },
        |i: int| '0',
    )
}

/// A number in decimal, filled up with zeros behind its sign to a width of
/// twenty.
pub open spec fn padded(n: int) -> Seq<char> {
    if n < 0 {
        let d = decimal_nat((-n) as nat);
        seq!['-'] + zeros(19 - d.len()) + d
    } else {
        let d = decimal_nat(n as nat);
        zeros(20 - d.len()) + d
    }
}

fn digits_of(n: u64) -> (r: usize)
    ensures
        r == decimal_nat(n as nat).len(),
        1 <= r <= 20,
{
    let mut m: u64 = n;
    let mut k: usize = 1;
    proof {
        lemma_digits_bound(n as nat, 20);
    }
    while m >= 10
        invariant
            decimal_nat(n as nat).len() == k - 1 + decimal_nat(m as nat).len(),
            1 <= decimal_nat(m as nat).len(),
            1 <= k <= 20,
            decimal_nat(n as nat).len() <= 20,
        decreases m,
    {
        m = m / 10;
        proof {
            lemma_digits_bound(m as nat, 20);
        }
        k = k + 1;
    }
    k
}

spec fn pow10(k: nat) -> nat
    decreases k,
{
    if k == 0 {
        1
    } else {
        10 * pow10((k - 1) as nat)
    }
}

proof fn lemma_digits(n: nat, k: nat)
    requires
        n < pow10(k),
        k >= 1,
    ensures
        1 <= decimal_nat(n).len() <= k,
    decreases k,
{
    if n >= 10 {
        if k == 1 {
            assert(pow10(1) == 10 * pow10(0));
        }
        assert(n / 10 < pow10((k - 1) as nat)) by (nonlinear_arith)
            requires
                n < 10 * pow10((k - 1) as nat),
        ;
        lemma_digits(n / 10, (k - 1) as nat);
    }
}

proof fn lemma_digits_bound(n: nat, k: nat)
    requires
        n <= u64::MAX,
        k == 20,
    ensures
        1 <= decimal_nat(n).len() <= k,
{
    reveal_with_fuel(pow10, 21);
    lemma_digits(n, k);
}

fn push_zeros(s: &mut String, n: usize)
    ensures
        final(s)@ == old(s)@ + zeros(n as int),
{
    let mut i: usize = 0;
    proof {
        reveal_strlit("0");
    }
    assert(old(s)@ + zeros(0) =~= old(s)@);
    while i < n
        invariant
            i <= n,
            s@ == old(s)@ + zeros(i as int),
            "0"@ == seq!['0'],
        decreases n - i,
    {
        s.append("0");
        i = i + 1;
        assert(s@ =~= old(s)@ + zeros(i as int));
    }
}

/// A number in decimal, filled up with zeros to a width of twenty.
pub fn pad(n: i64) -> (r: String)
    ensures
        r@ == padded(n as int),
{
    let mut s = String::new();
    if n < 0 {
        proof {
            reveal_strlit("-");
        }
        s.append("-");
        let m: u64 = if n == i64::MIN {
            0x8000_0000_0000_0000
        } else {
            (-n) as u64
        };
        let k = digits_of(m);
        push_zeros(&mut s, if k < 19 { 19 - k } else { 0 });
        push_nat(&mut s, m as u128);
        assert(s@ =~= padded(n as int));
    } else {
        let k = digits_of(n as u64);
        push_zeros(&mut s, 20 - k);
        push_nat(&mut s, n as u128);
        assert(s@ =~= padded(n as int));
    }
    s
}

// ---------------------------------------------------------------------------
// Reading

pub open spec fn is_digit(c: char) -> bool {
    '0' as u32 <= c as u32 <= '9' as u32
}

/// The number that digits spell.
pub open spec fn digits_value(ds: Seq<char>) -> nat
    decreases ds.len(),
{
    if ds.len() == 0 {
        0
    } else {
        digits_value(ds.drop_last()) * 10 + (ds.last() as u32 - '0' as u32) as nat
    }
}

pub open spec fn all_digits(ds: Seq<char>) -> bool {
    forall|i: int| 0 <= i < ds.len() ==> is_digit(#[trigger] ds[i])
}

/// A string without the sign in front, if there is one.
pub open spec fn unsigned_part(s: Seq<char>) -> Seq<char> {
    if s.len() > 0 && (s[0] == '-' || s[0] == '+') {
        s.skip(1)
    } else {
        s
    }
}

/// The number between `min` and `max` that a string spells: a sign, if any, and
/// at least one digit.
pub open spec fn read_int(s: Seq<char>, min: int, max: int) -> Option<int> {
    let ds = unsigned_part(s);
    let v = if s.len() > 0 && s[0] == '-' {
        -(digits_value(ds) as int)
    } else {
        digits_value(ds) as int
    };
    if ds.len() == 0 || !all_digits(ds) || v < min || v > max {
        None
    } else {
        Some(v)
    }
}

proof fn lemma_digits_value_grows(ds: Seq<char>, n: int)
    requires
        0 <= n <= ds.len(),
        all_digits(ds),
    ensures
        digits_value(ds.take(n)) <= digits_value(ds),
    decreases ds.len(),
{
    if n < ds.len() {
        let front = ds.drop_last();
        assert(forall|i: int| 0 <= i < front.len() ==> #[trigger] front[i] == ds[i]);
        lemma_digits_value_grows(front, n);
        assert(front.take(n) =~= ds.take(n));
        assert(is_digit(ds[ds.len() - 1]));
    } else {
        assert(ds.take(n) =~= ds);
    }
}

/// The number between `min` and `max` that a string spells.
pub fn parse_int(s: &str, min: i64, max: i64) -> (r: Option<i64>)
    requires
        min <= 0 <= max,
    ensures
        match r {
            Some(v) => read_int(s@, min as int, max as int) == Some(v as int),
            None => read_int(s@, min as int, max as int) is None,
        },
{
    let len = s.unicode_len();
    if len == 0 {
        return None;
    }
    let first = s.get_char(0);
    let negative = first == '-';
    let from: usize = if first == '-' || first == '+' { 1 } else { 0 };
    if from == len {
        return None;
    }
    let ghost ds = unsigned_part(s@);
    assert(ds =~= s@.skip(from as int));
    let mut acc: u64 = 0;
    let mut i: usize = from;
    assert(ds.take(0) =~= Seq::empty());
    while i < len
        invariant
            from <= i <= len,
            len == s@.len(),
            ds == s@.skip(from as int),
            ds == unsigned_part(s@),
            negative == (s@[0] == '-'),
            min <= 0 <= max,
            forall|j: int| 0 <= j < i - from ==> is_digit(#[trigger] ds[j]),
            acc == digits_value(ds.take(i - from)),
            acc <= 0x8000_0000_0000_0000,
        decreases len - i,
    {
        let c = s.get_char(i);
        assert(c == ds[i - from]);
        if c < '0' || c > '9' {
            assert(!is_digit(ds[i - from]));
            return None;
        }
        proof {
            assert(ds.take(i - from + 1).drop_last() =~= ds.take(i - from));
        }
        let d: u128 = (c as u32 - '0' as u32) as u128;
        let next: u128 = acc as u128 * 10 + d;
        if next > 0x8000_0000_0000_0000 {
            proof {
                if all_digits(ds) {
                    lemma_digits_value_grows(ds, i - from + 1);
                }
            }
            return None;
        }
        acc = next as u64;
        i = i + 1;
    }
    assert(ds.take(i - from) =~= ds);
    let v: i128 = if negative {
        -(acc as i128)
    } else {
        acc as i128
    };
    if v < min as i128 || v > max as i128 {
        return None;
    }
    Some(v as i64)
}

proof fn lemma_decimal_reads(n: nat)
    ensures
        all_digits(decimal_nat(n)),
        digits_value(decimal_nat(n)) == n,
        decimal_nat(n).len() > 0,
    decreases n,
{
    let ds = decimal_nat(n);
    if n < 10 {
        assert(ds.drop_last() =~= Seq::empty());
        assert(digits_value(ds.drop_last()) == 0);
    } else {
        lemma_decimal_reads(n / 10);
        assert(ds.drop_last() =~= decimal_nat(n / 10));
    }
}

/// The decimal form of a natural number is digits.
pub proof fn lemma_no_sign(n: nat)
    ensures
        all_digits(decimal(n as int)),
{
    lemma_decimal_reads(n);
}

proof fn lemma_zeros_add_nothing(k: int, ds: Seq<char>)
    requires
        all_digits(ds),
    ensures
        all_digits(zeros(k) + ds),
        digits_value(zeros(k) + ds) == digits_value(ds),
    decreases ds.len(), k,
{
    let s = zeros(k) + ds;
    if ds.len() > 0 {
        let front = ds.drop_last();
        assert(forall|i: int| 0 <= i < front.len() ==> #[trigger] front[i] == ds[i]);
        lemma_zeros_add_nothing(k, front);
        assert(s.drop_last() =~= zeros(k) + front);
    } else if k > 0 {
        lemma_zeros_add_nothing(k - 1, ds);
        assert(s.drop_last() =~= zeros(k - 1) + ds);
    } else {
        assert(s =~= ds);
    }
}

proof fn lemma_digits_read(ds: Seq<char>, min: int, max: int)
    requires
        ds.len() > 0,
        all_digits(ds),
    ensures
        min <= digits_value(ds) <= max ==> read_int(ds, min, max) == Some(digits_value(ds) as int),
        min <= -digits_value(ds) <= max ==> read_int(seq!['-'] + ds, min, max) == Some(
            -digits_value(ds),
        ),
{
    assert(is_digit(ds[0]));
    assert((seq!['-'] + ds).skip(1) =~= ds);
}

/// A number reads back from its decimal form.
pub proof fn law_decimal_round_trip(n: int, min: int, max: int)
    requires
        min <= n <= max,
    ensures
        read_int(decimal(n), min, max) == Some(n),
{
    let m = if n < 0 {
        (-n) as nat
    } else {
        n as nat
    };
    lemma_decimal_reads(m);
    lemma_digits_read(decimal_nat(m), min, max);
}

/// A number reads back from its padded form.
pub proof fn law_padded_round_trip(n: int, min: int, max: int)
    requires
        min <= n <= max,
    ensures
        read_int(padded(n), min, max) == Some(n),
        padded(n).len() > 0,
        is_digit(padded(n).last()),
{
    let m = if n < 0 {
        (-n) as nat
    } else {
        n as nat
    };
    let ds = decimal_nat(m);
    let k = if n < 0 {
        19 - ds.len()
    } else {
        20 - ds.len()
    };
    lemma_decimal_reads(m);
    lemma_zeros_add_nothing(k, ds);
    let body = zeros(k) + ds;
    lemma_digits_read(body, min, max);
    assert(is_digit(body[body.len() - 1]));
    if n < 0 {
        assert(padded(n) =~= seq!['-'] + body);
    }
}

/// A number that is not negative is padded to twenty digits, so that the names of
/// files stand in the order of their numbers.
pub proof fn law_padded_width(n: nat)
    requires
        n <= u64::MAX,
    ensures
        padded(n as int).len() == 20,
        all_digits(padded(n as int)),
        digits_value(padded(n as int)) == n,
{
    lemma_decimal_reads(n);
    assert(vstd::arithmetic::power::pow(10, 20) == 100_000_000_000_000_000_000) by {
        reveal_with_fuel(vstd::arithmetic::power::pow, 21);
    }
    lemma_decimal_short(n, 20);
    lemma_zeros_add_nothing(20 - decimal_nat(n).len(), decimal_nat(n));
}

/// A number may have a sign in front, and zeros. It is of digits alone, and there
/// is at least one.
pub proof fn law_what_is_a_number(ds: Seq<char>, min: int, max: int)
    ensures
        ds.len() > 0 && is_digit(ds[0]) ==> read_int(seq!['+'] + ds, min, max) == read_int(
            ds,
            min,
            max,
        ),
        read_int(Seq::empty(), min, max) is None,
        read_int(seq!['-'], min, max) is None,
        read_int(seq!['+'], min, max) is None,
        (exists|i: int| 0 < i < ds.len() && !is_digit(#[trigger] ds[i])) ==> read_int(
            ds,
            min,
            max,
        ) is None,
        read_int(ds, min, max) matches Some(n) ==> min <= n <= max,
{
    assert((seq!['+'] + ds).skip(1) =~= ds);
    if exists|i: int| 0 < i < ds.len() && !is_digit(#[trigger] ds[i]) {
        let i = choose|i: int| 0 < i < ds.len() && !is_digit(#[trigger] ds[i]);
        if ds[0] == '-' || ds[0] == '+' {
            assert(ds.skip(1)[i - 1] == ds[i]);
        }
    }
}

proof fn lemma_decimal_short(n: nat, k: nat)
    requires
        0 < k,
        n < vstd::arithmetic::power::pow(10, k),
    ensures
        decimal_nat(n).len() <= k,
    decreases n,
{
    reveal(vstd::arithmetic::power::pow);
    if n >= 10 {
        assert(k > 1) by {
            if k == 1 {
                vstd::arithmetic::power::lemma_pow1(10);
            }
        }
        lemma_decimal_short(n / 10, (k - 1) as nat);
    }
}

} // verus!
