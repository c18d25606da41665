//! Numerals: whole numbers written out in a base, and read back.

use vstd::prelude::*;

verus! {

// ---------------------------------------------------------------------------
// Writing
// ---------------------------------------------------------------------------

/// The digit that stands for `d`: `0` to `9`, then `a` on.
pub open spec fn digit_char(d: nat) -> char {
    if d < 10 {
        (48 + d) as u8 as char
    } else {
        (87 + d) as u8 as char
    }
}

/// The numeral of `n` in `base`, most significant digit first, without leading zeros.
pub open spec fn numeral(n: nat, base: nat) -> Seq<char>
    decreases n,
{
    if base < 2 || n < base {
        seq![digit_char(n)]
    } else {
        proof {
            assert(n / base < n) by (nonlinear_arith)
                requires
                    n >= base,
                    base >= 2,
            ;
        }
        numeral(n / base, base).push(digit_char(n % base))
    }
}

/// The decimal numeral of `n`.
pub open spec fn decimal(n: nat) -> Seq<char> {
    numeral(n, 10)
}

/// Writes `n` in `base`.
pub fn write_number(n: u64, base: u64) -> (r: String)
    requires
        2 <= base <= 16,
    ensures
        r@ == numeral(n as nat, base as nat),
    decreases n,
{
    let d: u64 = n % base;
    let c = if d < 10 {
        (48 + d as u8) as char
    } else {
        (87 + d as u8) as char
    };
    if n < base {
        let mut r: String = String::new();
        r.push(c);
        assert(n % base == n) by (nonlinear_arith)
            requires
                0 <= n < base,
        ;
        assert(r@ =~= numeral(n as nat, base as nat));
        r
    } else {
        assert(n / base < n) by (nonlinear_arith)
            requires
                n >= base,
                base >= 2,
        ;
        let mut r: String = write_number(n / base, base);
        r.push(c);
        r
    }
}

/// Writes `n` in decimal.
pub fn write_decimal(n: u64) -> (r: String)
    ensures
        r@ == decimal(n as nat),
{
    write_number(n, 10)
}

// ---------------------------------------------------------------------------
// Reading
// ---------------------------------------------------------------------------

/// What a digit stands for; letters of either case go on from ten.
pub open spec fn digit_worth(c: char) -> nat {
    if '0' <= c && c <= '9' {
        (c as u8 - 48) as nat
    } else if 'a' <= c && c <= 'z' {
        (c as u8 - 87) as nat
    } else if 'A' <= c && c <= 'Z' {
        (c as u8 - 55) as nat
    } else {
        36
    }
}

/// Whether every character is a digit of `base`.
pub open spec fn all_digits(s: Seq<char>, base: nat) -> bool {
    forall|i: int| 0 <= i < s.len() ==> digit_worth(#[trigger] s[i]) < base
}

/// The number that digits denote in `base`.
pub open spec fn number_of(s: Seq<char>, base: nat) -> nat
    decreases s.len(),
{
    if s.len() == 0 {
        0
    } else {
        number_of(s.drop_last(), base) * base + digit_worth(s.last())
    }
}

/// The number that plain digits denote: at least one digit, nothing else, at most `max`.
pub open spec fn read_digits(s: Seq<char>, base: nat, max: nat) -> Option<nat> {
    if s.len() == 0 || !all_digits(s, base) || number_of(s, base) > max {
        None
    } else {
        Some(number_of(s, base))
    }
}

/// The number that a numeral denotes: digits with at most one `+` in front.
pub open spec fn read_unsigned(s: Seq<char>, base: nat, max: nat) -> Option<nat> {
    if s.len() > 0 && s[0] == '+' {
        read_digits(s.skip(1), base, max)
    } else {
        read_digits(s, base, max)
    }
}

/// The number that a decimal numeral with an optional sign denotes, in the range of `i32`.
pub open spec fn read_signed(s: Seq<char>) -> Option<int> {
    if s.len() > 0 && s[0] == '-' {
        match read_digits(s.skip(1), 10, 0x8000_0000) {
            Some(n) => Some(-n),
            None => None,
        }
    } else {
        match read_unsigned(s, 10, 0x7fff_ffff) {
            Some(n) => Some(n as int),
            None => None,
        }
    }
}

/// More digits never denote a smaller number.
proof fn lemma_number_grows(s: Seq<char>, base: nat, k: int)
    requires
        0 <= k <= s.len(),
        base >= 1,
    ensures
        number_of(s.take(k), base) <= number_of(s, base),
    decreases s.len() - k,
{
    if k == s.len() {
        assert(s.take(k) =~= s);
    } else {
        lemma_number_grows(s, base, k + 1);
        let t = s.take(k + 1);
        assert(t.drop_last() =~= s.take(k));
        assert(number_of(s.take(k), base) <= number_of(s.take(k), base) * base) by (nonlinear_arith)
            requires
                base >= 1,
        ;
    }
}

fn worth(c: char) -> (d: u64)
    ensures
        d == digit_worth(c),
{
    if '0' <= c && c <= '9' {
        (c as u8 - 48) as u64
    } else if 'a' <= c && c <= 'z' {
        (c as u8 - 87) as u64
    } else if 'A' <= c && c <= 'Z' {
        (c as u8 - 55) as u64
    } else {
        36
    }
}

/// Reads plain digits from position `from` on.
pub fn parse_digits(s: &[char], from: usize, base: u64, max: u64) -> (r: Option<u64>)
    requires
        2 <= base <= 36,
        from <= s@.len(),
    ensures
        match r {
            Some(n) => read_digits(s@.skip(from as int), base as nat, max as nat) == Some(n as nat),
            None => read_digits(s@.skip(from as int), base as nat, max as nat) is None,
        },
{
    let ghost t = s@.skip(from as int);
    let n: usize = s.len();
    if from == n {
        return None;
    }
    let mut value: u64 = 0;
    let mut over: bool = false;
    let mut i: usize = from;
    assert(t.take(0) =~= Seq::<char>::empty());
    while i < n
        invariant
            from <= i <= n,
            n == s@.len(),
            t == s@.skip(from as int),
            2 <= base <= 36,
            forall|j: int| 0 <= j < i - from ==> digit_worth(#[trigger] t[j]) < base,
            over ==> number_of(t, base as nat) > max,
            !over ==> value == number_of(t.take(i - from), base as nat) && value <= max,
        decreases n - i,
    {
        let d: u64 = worth(s[i]);
        assert(t[i - from] == s@[i as int]);
        if d >= base {
            assert(!all_digits(t, base as nat));
            return None;
        }
        proof {
            assert(t.take(i - from + 1).drop_last() =~= t.take(i - from));
            assert(t.take(i - from + 1).last() == t[i - from]);
            lemma_number_grows(t, base as nat, i - from + 1);
        }
        if !over {
            if d > max || value > (max - d) / base {
                proof {
                    assert(value * base + d > max) by (nonlinear_arith)
                        requires
                            d > max || value > (max - d) / (base as int),
                            base >= 2,
                            value >= 0,
                    ;
                }
                over = true;
            } else {
                proof {
                    assert(value * base + d <= max) by (nonlinear_arith)
                        requires
                            d <= max,
                            value <= (max - d) / (base as int),
                            base >= 2,
                            value >= 0,
                    ;
                }
                value = value * base + d;
            }
        }
        i += 1;
    }
    assert(t.take(n - from) =~= t);
    assert(all_digits(t, base as nat));
    if over {
        None
    } else {
        Some(value)
    }
}

/// Reads an unsigned numeral, as an integer's `from_str_radix` does.
pub fn parse_unsigned(s: &[char], base: u64, max: u64) -> (r: Option<u64>)
    requires
        2 <= base <= 36,
    ensures
        match r {
            Some(n) => read_unsigned(s@, base as nat, max as nat) == Some(n as nat),
            None => read_unsigned(s@, base as nat, max as nat) is None,
        },
{
    if s.len() > 0 && s[0] == '+' {
        parse_digits(s, 1, base, max)
    } else {
        assert(s@.skip(0) =~= s@);
        parse_digits(s, 0, base, max)
    }
}

/// Reads a signed decimal numeral in the range of `i32`.
pub fn parse_signed(s: &[char]) -> (r: Option<i32>)
    ensures
        match r {
            Some(n) => read_signed(s@) == Some(n as int),
            None => read_signed(s@) is None,
        },
{
    if s.len() > 0 && s[0] == '-' {
        match parse_digits(s, 1, 10, 0x8000_0000) {
            Some(n) => Some((0 - (n as i64)) as i32),
            None => None,
        }
    } else {
        match parse_unsigned(s, 10, 0x7fff_ffff) {
            Some(n) => Some(n as i32),
            None => None,
        }
    }
}

// ---------------------------------------------------------------------------
// Reading what was written
// ---------------------------------------------------------------------------

proof fn lemma_digit_round(d: nat, base: nat)
    requires
        d < base <= 16,
    ensures
        digit_worth(digit_char(d)) == d,
        digit_char(d) != '+',
        digit_char(d) != '-',
{
}

proof fn lemma_numeral(n: nat, base: nat)
    requires
        2 <= base <= 16,
    ensures
        numeral(n, base).len() > 0,
        all_digits(numeral(n, base), base),
        number_of(numeral(n, base), base) == n,
        numeral(n, base)[0] != '+',
        numeral(n, base)[0] != '-',
    decreases n,
{
    let s = numeral(n, base);
    if n < base {
        lemma_digit_round(n, base);
        assert(s.drop_last() =~= Seq::<char>::empty());
        assert(number_of(s, base) == number_of(s.drop_last(), base) * base + digit_worth(s.last()));
        assert(number_of(s.drop_last(), base) == 0);
        assert(0 * base == 0);
    } else {
        assert(n / base < n) by (nonlinear_arith)
            requires
                n >= base,
                base >= 2,
        ;
        lemma_numeral(n / base, base);
        lemma_digit_round(n % base, base);
        assert(s.drop_last() =~= numeral(n / base, base));
        assert(n / base * base + n % base == n) by (nonlinear_arith)
            requires
                base >= 2,
        ;
    }
}

/// A numeral reads back as the number it was written for.
pub proof fn law_numeral_reads_back(n: nat, base: nat, max: nat)
    requires
        2 <= base <= 16,
        n <= max,
    ensures
        read_unsigned(numeral(n, base), base, max) == Some(n),
        read_digits(numeral(n, base), base, max) == Some(n),
{
    lemma_numeral(n, base);
}

// ---------------------------------------------------------------------------
// What numerals are
// ---------------------------------------------------------------------------

/// The digits: 0 to 9 for themselves, and on from ten the letters of either case; a number is
/// written with lower-case ones. Nothing else is a digit of any base.
pub proof fn law_digits_are_the_usual_ones(d: nat, c: char)
    ensures
        d < 10 ==> digit_char(d) as u32 == 48 + d,
        10 <= d < 36 ==> digit_char(d) as u32 == 97 + (d - 10),
        48 <= c as u32 <= 57 ==> digit_worth(c) == c as u32 - 48,
        97 <= c as u32 <= 122 ==> digit_worth(c) == c as u32 - 97 + 10,
        65 <= c as u32 <= 90 ==> digit_worth(c) == c as u32 - 65 + 10,
        !(48 <= c as u32 <= 57 || 97 <= c as u32 <= 122 || 65 <= c as u32 <= 90) ==> digit_worth(c)
            >= 36,
        d < 36 ==> digit_worth(digit_char(d)) == d,
{
}

/// Digits denote a number place by place: a further digit multiplies what stands before it
/// with the base and adds its own worth.
pub proof fn law_places_count_by_the_base(s: Seq<char>, c: char, base: nat)
    ensures
        number_of(Seq::empty(), base) == 0,
        number_of(s + seq![c], base) == number_of(s, base) * base + digit_worth(c),
{
    assert((s + seq![c]).drop_last() =~= s);
    assert((s + seq![c]).last() == c);
}

/// A numeral has no needless zero in front, and one digit for each place: writing a number
/// times the base, plus a digit, writes that number and then the digit.
pub proof fn law_numerals_have_no_leading_zero(n: nat, d: nat, base: nat)
    requires
        2 <= base <= 36,
        d < base,
    ensures
        n > 0 ==> numeral(n, base)[0] != '0',
        n > 0 ==> numeral(n * base + d, base) == numeral(n, base) + seq![digit_char(d)],
        numeral(d, base) == seq![digit_char(d)],
        decimal(n) == numeral(n, 10),
    decreases n,
{
    if n >= base {
        assert(n / base < n) by (nonlinear_arith)
            requires
                n >= base,
                base >= 2,
        ;
        assert(n / base > 0) by (nonlinear_arith)
            requires
                n >= base,
                base >= 2,
        ;
        law_numerals_have_no_leading_zero(n / base, d, base);
        assert(numeral(n / base, base).len() > 0);
        assert(numeral(n, base)[0] == numeral(n / base, base)[0]);
    }
    if n > 0 {
        let m = n * base + d;
        assert(m >= base && m / base == n && m % base == d) by (nonlinear_arith)
            requires
                n > 0,
                base >= 2,
                d < base,
                m == n * base + d,
        ;
        assert(numeral(n, base).push(digit_char(d)) =~= numeral(n, base) + seq![digit_char(d)]);
    }
}

/// Reading takes digits of the base and nothing else, at least one, up to the largest number
/// that is asked for; a sign in front is taken where signs are read.
pub proof fn law_reading_takes_digits_alone(s: Seq<char>, base: nat, max: nat, i: int)
    ensures
        s.len() == 0 ==> read_digits(s, base, max) is None,
        0 <= i < s.len() && digit_worth(s[i]) >= base ==> read_digits(s, base, max) is None,
        0 < i < s.len() && digit_worth(s[i]) >= base ==> read_unsigned(s, base, max) is None,
        read_digits(s, base, max) matches Some(n) ==> n <= max && n == number_of(s, base),
        s.len() > 0 && (forall|j: int| 0 <= j < s.len() ==> digit_worth(#[trigger] s[j]) < base)
            && number_of(s, base) <= max ==> read_digits(s, base, max) == Some(number_of(s, base)),
        number_of(s, base) > max ==> read_digits(s, base, max) is None,
        read_unsigned(seq!['+'] + s, base, max) == read_digits(s, base, max),
        base <= 36 && read_digits(s, base, max) is Some ==> read_unsigned(s, base, max)
            == read_digits(s, base, max),
{
    let plus = seq!['+'] + s;
    assert(plus.skip(1) =~= s);
    if 0 < i < s.len() && s[0] == '+' {
        assert(s.skip(1)[i - 1] == s[i]);
    }
}

/// A whole number in the range of 32 bits, with a minus where it is negative, reads back, and
/// a larger one is refused.
pub proof fn law_signed_numbers_read_back(n: nat)
    ensures
        n <= 2147483647 ==> read_signed(decimal(n)) == Some(n as int),
        n <= 2147483648 ==> read_signed(seq!['-'] + decimal(n)) == Some(-(n as int)),
        n > 2147483647 ==> read_signed(decimal(n)) is None,
        n > 2147483648 ==> read_signed(seq!['-'] + decimal(n)) is None,
        n <= 2147483647 ==> read_signed(seq!['+'] + decimal(n)) == Some(n as int),
        read_signed(Seq::empty()) is None,
        read_signed(seq!['-']) is None,
        read_signed(seq!['+']) is None,
{
    let plus = seq!['+'] + decimal(n);
    assert(plus.skip(1) =~= decimal(n));
    assert(seq!['-'].skip(1).len() == 0);
    assert(seq!['+'].skip(1).len() == 0);
    law_numeral_reads_back(n, 10, n);
    let minus = seq!['-'] + decimal(n);
    assert(minus.skip(1) =~= decimal(n));
    assert(decimal(n).len() > 0);
    assert(all_digits(decimal(n), 10));
    assert(digit_worth(decimal(n)[0]) < 10);
}

/// What holds a character that is no digit is no number, but for a sign in front.
pub proof fn law_signed_numbers_hold_digits_alone(s: Seq<char>, i: int)
    requires
        0 <= i < s.len(),
        !('0' <= s[i] && s[i] <= '9'),
        i > 0 || (s[0] != '-' && s[0] != '+'),
    ensures
        read_signed(s) is None,
{
    let rest = s.skip(1);
    assert(digit_worth(s[i]) >= 10);
    if i > 0 {
        assert(rest[i - 1] == s[i]);
    }
}

} // verus!
