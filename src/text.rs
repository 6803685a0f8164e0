//! Decimal text: reading unsigned numbers and writing them back out.

use vstd::prelude::*;

verus! {

/// The character of a decimal digit.
pub open spec fn digit_char(d: nat) -> char
    recommends
        d < 10,
{
    ((d + 48) as u8) as char
}

/// Whether `c` is an ASCII decimal digit.
pub open spec fn is_digit(c: char) -> bool {
    '0' <= c && c <= '9'
}

/// The value of a decimal digit character.
pub open spec fn digit_value(c: char) -> nat {
    (c as u32 - 48) as nat
}

pub proof fn lemma_digit_char(d: nat)
    requires
        d < 10,
    ensures
        is_digit(digit_char(d)),
        digit_value(digit_char(d)) == d,
        digit_char(d) != '.',
        digit_char(d) != '+',
        digit_char(d) != '=',
{
}

/// The shortest decimal text of `n`, without sign or leading zeros.
pub open spec fn decimal(n: nat) -> Seq<char>
    decreases n,
{
    if n < 10 {
        seq![digit_char(n)]
    } else {
        decimal(n / 10).push(digit_char(n % 10))
    }
}

fn digit_str(d: u64) -> (r: &'static str)
    requires
        d < 10,
    ensures
        r@ == seq![digit_char(d as nat)],
{
    proof {
        reveal_strlit("0");
        reveal_strlit("1");
        reveal_strlit("2");
        reveal_strlit("3");
        reveal_strlit("4");
        reveal_strlit("5");
        reveal_strlit("6");
        reveal_strlit("7");
        reveal_strlit("8");
        reveal_strlit("9");
    }
    match d {
        0 => "0",
        1 => "1",
        2 => "2",
        3 => "3",
        4 => "4",
        5 => "5",
        6 => "6",
        7 => "7",
        8 => "8",
        _ => "9",
    }
}

/// Writes `n` in decimal.
pub fn decimal_string(n: u64) -> (r: String)
    ensures
        r@ == decimal(n as nat),
    decreases n,
{
    if n < 10 {
        let mut s = String::new();
        s.append(digit_str(n));
        s
    } else {
        let mut s = decimal_string(n / 10);
        s.append(digit_str(n % 10));
        s
    }
}

/// The number that a run of decimal digits stands for (zero when it is empty).
pub open spec fn digits_value(d: Seq<char>) -> nat
    decreases d.len(),
{
    if d.len() == 0 {
        0
    } else {
        digits_value(d.drop_last()) * 10 + digit_value(d.last())
    }
}

pub open spec fn all_digits(d: Seq<char>) -> bool {
    forall|i: int| 0 <= i < d.len() ==> is_digit(#[trigger] d[i])
}

/// A run of digits, possibly empty, whose value fits in `u32`.
pub open spec fn bounded_digits(d: Seq<char>) -> Option<u32> {
    if all_digits(d) && digits_value(d) <= u32::MAX {
        Some(digits_value(d) as u32)
    } else {
        None
    }
}

/// The length of an optional leading `+`.
pub open spec fn sign_len(t: Seq<char>) -> int {
    if t.len() > 0 && t[0] == '+' {
        1
    } else {
        0
    }
}

/// Unsigned decimal text read as a `u32`: an optional `+`, then one or more
/// digits whose value fits.
pub open spec fn u32_of(t: Seq<char>) -> Option<u32> {
    let d = t.subrange(sign_len(t), t.len() as int);
    if d.len() == 0 {
        None
    } else {
        bounded_digits(d)
    }
}

/// The first index at or after `i` where `c` stands in `s`, or -1.
pub open spec fn find_char_from(s: Seq<char>, c: char, i: int) -> int
    decreases s.len() - i,
{
    if i < 0 || i >= s.len() {
        -1
    } else if s[i] == c {
        i
    } else {
        find_char_from(s, c, i + 1)
    }
}

/// A decimal number `[+]digits[.digits]` with at least one digit: its whole
/// part, and the first digit of its fraction when the fraction is not zero.
pub open spec fn decimal_number_of(t: Seq<char>) -> Option<(u32, Option<u32>)> {
    let lo = sign_len(t);
    let dot = find_char_from(t, '.', lo);
    let whole = if dot < 0 {
        t.subrange(lo, t.len() as int)
    } else {
        t.subrange(lo, dot)
    };
    let frac = if dot < 0 {
        Seq::<char>::empty()
    } else {
        t.subrange(dot + 1, t.len() as int)
    };
    if whole.len() + frac.len() > 0 && bounded_digits(whole) is Some && all_digits(frac) {
        Some(
            (
                digits_value(whole) as u32,
                if digits_value(frac) > 0 {
                    Some(digit_value(frac[0]) as u32)
                } else {
                    None
                },
            ),
        )
    } else {
        None
    }
}

pub proof fn lemma_decimal_digits(n: nat)
    ensures
        decimal(n).len() > 0,
        all_digits(decimal(n)),
        digits_value(decimal(n)) == n,
    decreases n,
{
    lemma_digit_char(n % 10);
    if n >= 10 {
        lemma_decimal_digits(n / 10);
        let d = decimal(n);
        assert(d.drop_last() =~= decimal(n / 10));
        assert forall|i: int| 0 <= i < d.len() implies is_digit(#[trigger] d[i]) by {
            if i < d.len() - 1 {
                assert(d[i] == decimal(n / 10)[i]);
            }
        }
        assert(digits_value(d) == (n / 10) * 10 + n % 10);
    } else {
        assert(decimal(n).drop_last() =~= Seq::<char>::empty());
        assert(digits_value(Seq::<char>::empty()) == 0);
        assert(digits_value(decimal(n)) == digit_value(digit_char(n)));
    }
}

pub proof fn lemma_u32_of_decimal(n: u32)
    ensures
        u32_of(decimal(n as nat)) == Some(n),
{
    lemma_decimal_digits(n as nat);
    let d = decimal(n as nat);
    assert(is_digit(d[0]));
    assert(d.subrange(0, d.len() as int) =~= d);
}

proof fn lemma_prefix_value_le(d: Seq<char>, k: int)
    requires
        all_digits(d),
        0 <= k <= d.len(),
    ensures
        digits_value(d.take(k)) <= digits_value(d),
    decreases d.len(),
{
    if k < d.len() {
        let p = d.drop_last();
        assert(all_digits(p)) by {
            assert forall|i: int| 0 <= i < p.len() implies is_digit(#[trigger] p[i]) by {
                assert(p[i] == d[i]);
            }
        }
        lemma_prefix_value_le(p, k);
        assert(p.take(k) =~= d.take(k));
    } else {
        assert(d.take(k) =~= d);
    }
}

/// Reads the digits of `s` between `lo` and `hi`.
fn digits_between(s: &str, lo: usize, hi: usize) -> (r: Option<u32>)
    requires
        lo <= hi <= s@.len(),
    ensures
        r == bounded_digits(s@.subrange(lo as int, hi as int)),
{
    let ghost whole = s@.subrange(lo as int, hi as int);
    let mut acc: u64 = 0;
    let mut i: usize = lo;
    while i < hi
        invariant
            lo <= i <= hi <= s@.len(),
            whole == s@.subrange(lo as int, hi as int),
            all_digits(s@.subrange(lo as int, i as int)),
            acc == digits_value(s@.subrange(lo as int, i as int)),
            acc <= u32::MAX,
        decreases hi - i,
    {
        let c = s.get_char(i);
        if !('0' <= c && c <= '9') {
            assert(whole[i - lo] == c);
            return None;
        }
        let ghost next = s@.subrange(lo as int, i + 1);
        assert(next.drop_last() =~= s@.subrange(lo as int, i as int));
        assert(all_digits(next)) by {
            assert forall|j: int| 0 <= j < next.len() implies is_digit(#[trigger] next[j]) by {
                if j < next.len() - 1 {
                    assert(next[j] == next.drop_last()[j]);
                }
            }
        }
        acc = acc * 10 + (c as u32 - 48) as u64;
        if acc > u32::MAX as u64 {
            proof {
                if all_digits(whole) {
                    lemma_prefix_value_le(whole, i + 1 - lo);
                    assert(whole.take(i + 1 - lo) =~= next);
                }
            }
            return None;
        }
        i = i + 1;
    }
    assert(whole =~= s@.subrange(lo as int, i as int));
    Some(acc as u32)
}

/// Reads `s` between `lo` and `hi` as an unsigned number, as `u32`'s parser
/// does.
pub fn u32_between(s: &str, lo: usize, hi: usize) -> (r: Option<u32>)
    requires
        lo <= hi <= s@.len(),
    ensures
        r == u32_of(s@.subrange(lo as int, hi as int)),
{
    let ghost t = s@.subrange(lo as int, hi as int);
    let mut from = lo;
    if lo < hi && s.get_char(lo) == '+' {
        from = lo + 1;
    }
    assert(t.subrange(sign_len(t), t.len() as int) =~= s@.subrange(from as int, hi as int));
    if from == hi {
        None
    } else {
        digits_between(s, from, hi)
    }
}

/// Reads all of `s` as an unsigned number, as `u32`'s parser does.
pub fn parse_u32(s: &str) -> (r: Option<u32>)
    ensures
        r == u32_of(s@),
{
    let n = s.unicode_len();
    assert(s@.subrange(0, n as int) =~= s@);
    u32_between(s, 0, n)
}

/// The first index at or after `from` where `c` stands in `s`.
pub fn find_char(s: &str, c: char, from: usize) -> (r: Option<usize>)
    requires
        from <= s@.len(),
    ensures
        match r {
            Some(k) => k == find_char_from(s@, c, from as int),
            None => find_char_from(s@, c, from as int) == -1,
        },
{
    let n = s.unicode_len();
    let mut i = from;
    while i < n
        invariant
            from <= i <= n == s@.len(),
            find_char_from(s@, c, from as int) == find_char_from(s@, c, i as int),
        decreases n - i,
    {
        if s.get_char(i) == c {
            return Some(i);
        }
        i = i + 1;
    }
    None
}

proof fn lemma_find_char_bounds(s: Seq<char>, c: char, i: int)
    ensures
        find_char_from(s, c, i) == -1 || (i <= find_char_from(s, c, i) < s.len() && s[find_char_from(
            s,
            c,
            i,
        )] == c),
    decreases s.len() - i,
{
    if 0 <= i < s.len() && s[i] != c {
        lemma_find_char_bounds(s, c, i + 1);
    }
}

/// Reads the fraction digits of `s` between `lo` and `hi`: `None` unless all
/// are digits; otherwise the first of them when their value is not zero.
fn fraction_digit(s: &str, lo: usize, hi: usize) -> (r: Option<Option<u32>>)
    requires
        lo <= hi <= s@.len(),
    ensures
        ({
            let f = s@.subrange(lo as int, hi as int);
            r == if all_digits(f) {
                Some(
                    if digits_value(f) > 0 {
                        Some(digit_value(f[0]) as u32)
                    } else {
                        None
                    },
                )
            } else {
                None
            }
        }),
{
    let ghost f = s@.subrange(lo as int, hi as int);
    let mut nonzero = false;
    let mut i: usize = lo;
    while i < hi
        invariant
            lo <= i <= hi <= s@.len(),
            f == s@.subrange(lo as int, hi as int),
            all_digits(s@.subrange(lo as int, i as int)),
            nonzero == (digits_value(s@.subrange(lo as int, i as int)) > 0),
        decreases hi - i,
    {
        let c = s.get_char(i);
        if !('0' <= c && c <= '9') {
            assert(f[i - lo] == c);
            return None;
        }
        let ghost next = s@.subrange(lo as int, i + 1);
        assert(next.drop_last() =~= s@.subrange(lo as int, i as int));
        assert(all_digits(next)) by {
            assert forall|j: int| 0 <= j < next.len() implies is_digit(#[trigger] next[j]) by {
                if j < next.len() - 1 {
                    assert(next[j] == next.drop_last()[j]);
                }
            }
        }
        if c != '0' {
            nonzero = true;
        }
        i = i + 1;
    }
    assert(f =~= s@.subrange(lo as int, i as int));
    if nonzero {
        let d = s.get_char(lo);
        assert(f[0] == d);
        Some(Some(d as u32 - 48))
    } else {
        Some(None)
    }
}

/// Reads `s` as a decimal number `[+]digits[.digits]`: its whole part and,
/// when the fraction is not zero, the fraction's first digit.
pub fn parse_decimal_number(s: &str) -> (r: Option<(u32, Option<u32>)>)
    ensures
        r == decimal_number_of(s@),
{
    let n = s.unicode_len();
    let lo: usize = if n > 0 && s.get_char(0) == '+' {
        1
    } else {
        0
    };
    let dot = find_char(s, '.', lo);
    proof {
        lemma_find_char_bounds(s@, '.', lo as int);
    }
    let whole_end = match dot {
        Some(d) => d,
        None => n,
    };
    let whole = match digits_between(s, lo, whole_end) {
        Some(w) => w,
        None => {
            return None;
        },
    };
    match dot {
        None => {
            if lo == n {
                None
            } else {
                Some((whole, None))
            }
        },
        Some(d) => {
            match fraction_digit(s, d + 1, n) {
                None => None,
                Some(f) => {
                    if whole_end == lo && d + 1 == n {
                        None
                    } else {
                        Some((whole, f))
                    }
                },
            }
        },
    }
}

} // verus!
