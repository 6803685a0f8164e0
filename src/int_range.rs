//! Numeric range filters over chapter and volume numbers.

use vstd::prelude::*;

use crate::text::{
    all_digits, decimal, decimal_string, is_digit, lemma_decimal_digits, lemma_u32_of_decimal,
    sign_len, u32_between, u32_of,
};

verus! {

/// An interval of `u32` values. An absent bound leaves that side open; the
/// start, when present, is always inclusive.
#[derive(PartialEq, Eq, Structural, Clone, Copy, Debug, Default)]
pub struct IntRange {
    pub start: Option<u32>,
    pub end: Option<u32>,
    pub end_inclusive: bool,
}

/// Why a range text was rejected.
#[derive(PartialEq, Eq, Structural, Clone, Copy, Debug)]
pub enum RangeError {
    /// The text before `..` is not an unsigned number.
    InvalidStart,
    /// The text after `..` (and its `=`) is not an unsigned number.
    InvalidEnd,
}

impl RangeError {
    pub open spec fn message(self) -> Seq<char> {
        match self {
            RangeError::InvalidStart => "Invalid start value"@,
            RangeError::InvalidEnd => "Invalid end value"@,
        }
    }

    /// The error's text.
    pub fn to_string(&self) -> (r: String)
        ensures
            r@ == self.message(),
    {
        let mut s = String::new();
        match self {
            RangeError::InvalidStart => s.append("Invalid start value"),
            RangeError::InvalidEnd => s.append("Invalid end value"),
        }
        s
    }
}

/// The text of an optional bound.
pub open spec fn bound_text(b: Option<u32>) -> Seq<char> {
    match b {
        Some(n) => decimal(n as nat),
        None => Seq::<char>::empty(),
    }
}

/// The first index at or after `i` where `..` starts in `s`, or -1.
pub open spec fn sep_from(s: Seq<char>, i: int) -> int
    decreases s.len() - i,
{
    if i < 0 || i + 1 >= s.len() {
        -1
    } else if s[i] == '.' && s[i + 1] == '.' {
        i
    } else {
        sep_from(s, i + 1)
    }
}

/// The first index at or after `i`, and below `hi`, that does not hold `=`.
pub open spec fn skip_eq_from(s: Seq<char>, i: int, hi: int) -> int
    decreases hi - i,
{
    if 0 <= i < hi && i < s.len() && s[i] == '=' {
        skip_eq_from(s, i + 1, hi)
    } else {
        i
    }
}

/// What a range text denotes. It is split at `..`: the part before is the
/// start, the part up to the next `..` (or the end) is the end bound, which
/// is inclusive when it begins with `=` (all leading `=` are dropped). An
/// empty part is an open bound. Without `..` the text is a single number `n`
/// and stands for `n..=n`.
pub open spec fn range_of(s: Seq<char>) -> Result<IntRange, RangeError> {
    let p = sep_from(s, 0);
    let start_text = if p < 0 {
        s
    } else {
        s.subrange(0, p)
    };
    let start = if start_text.len() == 0 {
        None
    } else {
        u32_of(start_text)
    };
    if start_text.len() > 0 && start is None {
        Err(RangeError::InvalidStart)
    } else if p < 0 {
        Ok(IntRange { start, end: start, end_inclusive: true })
    } else {
        let q = sep_from(s, p + 2);
        let hi = if q < 0 {
            s.len() as int
        } else {
            q
        };
        let e = skip_eq_from(s, p + 2, hi);
        let end_text = s.subrange(e, hi);
        let end = if end_text.len() == 0 {
            None
        } else {
            u32_of(end_text)
        };
        if end_text.len() > 0 && end is None {
            Err(RangeError::InvalidEnd)
        } else {
            Ok(IntRange { start, end, end_inclusive: p + 2 < hi && s[p + 2] == '=' })
        }
    }
}

proof fn lemma_sep_bounds(s: Seq<char>, i: int)
    ensures
        sep_from(s, i) == -1 || (0 <= i <= sep_from(s, i) && sep_from(s, i) + 1 < s.len()),
    decreases s.len() - i,
{
    if 0 <= i && i + 1 < s.len() && !(s[i] == '.' && s[i + 1] == '.') {
        lemma_sep_bounds(s, i + 1);
    }
}

proof fn lemma_skip_eq_bounds(s: Seq<char>, i: int, hi: int)
    requires
        0 <= i <= hi <= s.len(),
    ensures
        i <= skip_eq_from(s, i, hi) <= hi,
    decreases hi - i,
{
    if i < hi && s[i] == '=' {
        lemma_skip_eq_bounds(s, i + 1, hi);
    }
}

/// The first index at or after `from` where `..` starts in `s`.
fn find_sep(s: &str, from: usize) -> (r: Option<usize>)
    requires
        from <= s@.len(),
    ensures
        match r {
            Some(k) => k == sep_from(s@, from as int),
            None => sep_from(s@, from as int) == -1,
        },
{
    let n = s.unicode_len();
    let mut i = from;
    while i < n && n - i >= 2
        invariant
            from <= i <= n,
            n == s@.len(),
            sep_from(s@, from as int) == sep_from(s@, i as int),
        decreases n - i,
    {
        if s.get_char(i) == '.' && s.get_char(i + 1) == '.' {
            return Some(i);
        }
        i = i + 1;
    }
    None
}

/// Skips the `=` characters of `s` from `from` on, up to `hi`.
fn skip_eq(s: &str, from: usize, hi: usize) -> (r: usize)
    requires
        from <= hi <= s@.len(),
    ensures
        r == skip_eq_from(s@, from as int, hi as int),
{
    let mut i = from;
    while i < hi && s.get_char(i) == '='
        invariant
            from <= i <= hi <= s@.len(),
            skip_eq_from(s@, from as int, hi as int) == skip_eq_from(s@, i as int, hi as int),
        decreases hi - i,
    {
        i = i + 1;
    }
    i
}

impl IntRange {
    /// Whether `value` lies in the range.
    pub open spec fn holds(self, value: u32) -> bool {
        &&& match self.start {
            Some(s) => s <= value,
            None => true,
        }
        &&& match self.end {
            Some(e) => if self.end_inclusive {
                value <= e
            } else {
                value < e
            },
            None => true,
        }
    }

    /// The range written as `start..end`, with `=` after `..` when the end is
    /// inclusive and an open bound left out.
    pub open spec fn text(self) -> Seq<char> {
        bound_text(self.start) + seq!['.', '.'] + (if self.end_inclusive {
            seq!['=']
        } else {
            Seq::<char>::empty()
        }) + bound_text(self.end)
    }

    /// Checks whether `value` lies in the range.
    pub fn contains(&self, value: &u32) -> (r: bool)
        ensures
            r == self.holds(*value),
    {
        match (self.start, self.end, self.end_inclusive) {
            (None, None, _) => true,
            (None, Some(end), true) => *value <= end,
            (None, Some(end), false) => *value < end,
            (Some(start), None, _) => *value >= start,
            (Some(start), Some(end), true) => *value >= start && *value <= end,
            (Some(start), Some(end), false) => *value >= start && *value < end,
        }
    }

    pub fn new(start: Option<u32>, end: Option<u32>, end_inclusive: bool) -> (r: Self)
        ensures
            r == (IntRange { start, end, end_inclusive }),
    {
        IntRange { start, end, end_inclusive }
    }

    /// The half-open range `start..end`.
    pub fn new_range(start: u32, end: u32) -> (r: Self)
        ensures
            r == (IntRange { start: Some(start), end: Some(end), end_inclusive: false }),
    {
        IntRange { start: Some(start), end: Some(end), end_inclusive: false }
    }

    /// The closed range `start..=end`.
    pub fn new_inclusive_range(start: u32, end: u32) -> (r: Self)
        ensures
            r == (IntRange { start: Some(start), end: Some(end), end_inclusive: true }),
    {
        IntRange { start: Some(start), end: Some(end), end_inclusive: true }
    }

    /// Reads a range text: `[start]..[=][end]`, or a single number.
    pub fn parse(s: &str) -> (r: Result<IntRange, RangeError>)
        ensures
            r == range_of(s@),
    {
        let n = s.unicode_len();
        let p = find_sep(s, 0);
        proof {
            lemma_sep_bounds(s@, 0);
        }
        let start_end = match p {
            Some(k) => k,
            None => n,
        };
        assert(p is None ==> s@.subrange(0, n as int) =~= s@);
        let start = if start_end == 0 {
            None
        } else {
            match u32_between(s, 0, start_end) {
                Some(v) => Some(v),
                None => {
                    return Err(RangeError::InvalidStart);
                },
            }
        };
        match p {
            None => Ok(IntRange { start, end: start, end_inclusive: true }),
            Some(k) => {
                let q = find_sep(s, k + 2);
                proof {
                    lemma_sep_bounds(s@, k + 2);
                }
                let hi = match q {
                    Some(j) => j,
                    None => n,
                };
                let inclusive = k + 2 < hi && s.get_char(k + 2) == '=';
                let e = skip_eq(s, k + 2, hi);
                proof {
                    lemma_skip_eq_bounds(s@, k + 2, hi as int);
                }
                let end = if e == hi {
                    None
                } else {
                    match u32_between(s, e, hi) {
                        Some(v) => Some(v),
                        None => {
                            return Err(RangeError::InvalidEnd);
                        },
                    }
                };
                Ok(IntRange { start, end, end_inclusive: inclusive })
            },
        }
    }

    /// Writes the range as text that `parse` reads back.
    pub fn to_text(&self) -> (r: String)
        ensures
            r@ == self.text(),
    {
        let mut s = String::new();
        if let Some(v) = self.start {
            let d = decimal_string(v as u64);
            s.append(d.as_str());
        }
        s.append("..");
        if self.end_inclusive {
            s.append("=");
        }
        if let Some(v) = self.end {
            let d = decimal_string(v as u64);
            s.append(d.as_str());
        }
        proof {
            reveal_strlit("..");
            reveal_strlit("=");
        }
        assert(s@ =~= self.text());
        s
    }
}

proof fn lemma_bound_text(b: Option<u32>)
    ensures
        all_digits(bound_text(b)),
        b is Some ==> bound_text(b).len() > 0 && u32_of(bound_text(b)) == b,
        b is None ==> bound_text(b).len() == 0,
{
    if let Some(n) = b {
        lemma_decimal_digits(n as nat);
        lemma_u32_of_decimal(n);
    }
}

proof fn lemma_sep_absent(s: Seq<char>, i: int)
    requires
        0 <= i,
        forall|k: int| i <= k < s.len() ==> s[k] != '.',
    ensures
        sep_from(s, i) == -1,
    decreases s.len() - i,
{
    if i + 1 < s.len() {
        lemma_sep_absent(s, i + 1);
    }
}

proof fn lemma_sep_at(s: Seq<char>, i: int, j: int)
    requires
        0 <= i <= j,
        j + 1 < s.len(),
        s[j] == '.',
        s[j + 1] == '.',
        forall|k: int| i <= k < j ==> s[k] != '.',
    ensures
        sep_from(s, i) == j,
    decreases j - i,
{
    if i < j {
        lemma_sep_at(s, i + 1, j);
    }
}

/// Reading a range's text gives the range back.
pub proof fn law_text_round_trip(r: IntRange)
    ensures
        range_of(r.text()) == Ok::<IntRange, RangeError>(r),
{
    let a = bound_text(r.start);
    let c = bound_text(r.end);
    let s = r.text();
    let p = a.len() as int;
    let e = if r.end_inclusive {
        p + 3
    } else {
        p + 2
    };
    lemma_bound_text(r.start);
    lemma_bound_text(r.end);
    assert(s.len() == e + c.len());
    assert forall|k: int| 0 <= k < p implies s[k] != '.' by {
        assert(s[k] == a[k]);
        assert(is_digit(a[k]));
    }
    assert forall|k: int| e <= k < s.len() implies s[k] != '.' && s[k] != '=' by {
        assert(s[k] == c[k - e]);
        assert(is_digit(c[k - e]));
    }
    lemma_sep_at(s, 0, p);
    assert(s.subrange(0, p) =~= a);
    lemma_sep_absent(s, p + 2);
    if r.end_inclusive {
        assert(s[p + 2] == '=');
        assert(skip_eq_from(s, p + 3, s.len() as int) == p + 3);
    }
    assert(skip_eq_from(s, p + 2, s.len() as int) == e);
    assert(s.subrange(e, s.len() as int) =~= c);
    if !r.end_inclusive && c.len() > 0 {
        assert(s[p + 2] == c[0]);
    }
}

/// A range read from its text holds exactly the values between the bounds
/// written in it: from the start on, when there is one, and below the end (up
/// to and with it, when `=` marks it inclusive), when there is one.
pub proof fn law_text_membership(
    start: Option<u32>,
    end: Option<u32>,
    end_inclusive: bool,
    v: u32,
)
    ensures
        match range_of((IntRange { start, end, end_inclusive }).text()) {
            Ok(r) => r.holds(v) == ((start is None || start.unwrap() <= v) && (end is None || (
            if end_inclusive {
                v <= end.unwrap()
            } else {
                v < end.unwrap()
            }))),
            Err(_) => false,
        },
{
    law_text_round_trip(IntRange { start, end, end_inclusive });
}

/// A bare number `n` reads as the closed range `n..=n`, which holds `n` and
/// nothing else.
pub proof fn law_bare_number(n: u32, v: u32)
    ensures
        range_of(decimal(n as nat)) == Ok::<IntRange, RangeError>(
            (IntRange { start: Some(n), end: Some(n), end_inclusive: true }),
        ),
        (IntRange { start: Some(n), end: Some(n), end_inclusive: true }).holds(v) == (v == n),
{
    let s = decimal(n as nat);
    lemma_decimal_digits(n as nat);
    lemma_u32_of_decimal(n);
    assert forall|k: int| 0 <= k < s.len() implies s[k] != '.' by {
        assert(is_digit(s[k]));
    }
    lemma_sep_absent(s, 0);
}

/// A text that starts with `-` is refused for its start.
pub proof fn law_negative_start(s: Seq<char>)
    requires
        s.len() > 0,
        s[0] == '-',
    ensures
        range_of(s) == Err::<IntRange, RangeError>(RangeError::InvalidStart),
{
    lemma_sep_bounds(s, 1);
    let p = sep_from(s, 0);
    assert(p == -1 || p >= 1);
    let t = if p < 0 {
        s
    } else {
        s.subrange(0, p)
    };
    assert(t[0] == '-');
    assert(t.subrange(sign_len(t), t.len() as int)[0] == '-');
}

/// A valid start followed by `..-` is refused for its end.
pub proof fn law_negative_end(start: Option<u32>, rest: Seq<char>)
    ensures
        range_of(bound_text(start) + seq!['.', '.', '-'] + rest) == Err::<IntRange, RangeError>(
            RangeError::InvalidEnd,
        ),
{
    let a = bound_text(start);
    let s = a + seq!['.', '.', '-'] + rest;
    let p = a.len() as int;
    lemma_bound_text(start);
    assert forall|k: int| 0 <= k < p implies s[k] != '.' by {
        assert(s[k] == a[k]);
        assert(is_digit(a[k]));
    }
    lemma_sep_at(s, 0, p);
    assert(s.subrange(0, p) =~= a);
    lemma_sep_bounds(s, p + 3);
    let q = sep_from(s, p + 2);
    assert(q == -1 || q >= p + 3);
    let hi = if q < 0 {
        s.len() as int
    } else {
        q
    };
    assert(skip_eq_from(s, p + 2, hi) == p + 2);
    let t = s.subrange(p + 2, hi);
    assert(t[0] == '-');
    assert(t.subrange(sign_len(t), t.len() as int)[0] == '-');
}

impl std::str::FromStr for IntRange {
    type Err = RangeError;

    fn from_str(s: &str) -> (r: Result<IntRange, RangeError>)
        ensures
            r == range_of(s@),
    {
        IntRange::parse(s)
    }
}

#[verifier::external_type_specification]
#[verifier::reject_recursive_types(Idx)]
pub struct ExRangeTo<Idx>(std::ops::RangeTo<Idx>);

#[verifier::external_type_specification]
#[verifier::reject_recursive_types(Idx)]
pub struct ExRangeFrom<Idx>(std::ops::RangeFrom<Idx>);

#[verifier::external_type_specification]
#[verifier::reject_recursive_types(Idx)]
pub struct ExRangeToInclusive<Idx>(std::ops::RangeToInclusive<Idx>);

#[verifier::external_type_specification]
pub struct ExRangeFull(std::ops::RangeFull);

/// Relies on `RangeInclusive::into_inner`, which hands back the lower and the
/// (inclusive) upper bound.
pub assume_specification<Idx>[ std::ops::RangeInclusive::<Idx>::into_inner ](
    r: std::ops::RangeInclusive<Idx>,
) -> (res: (Idx, Idx))
    ensures
        res == (r@.start, r@.end),
;

impl From<std::ops::RangeInclusive<u32>> for IntRange {
    fn from(value: std::ops::RangeInclusive<u32>) -> IntRange {
        let (start, end) = value.into_inner();
        IntRange { start: Some(start), end: Some(end), end_inclusive: true }
    }
}

impl vstd::std_specs::convert::FromSpecImpl<std::ops::RangeInclusive<u32>> for IntRange {
    open spec fn obeys_from_spec() -> bool {
        true
    }

    open spec fn from_spec(v: std::ops::RangeInclusive<u32>) -> IntRange {
        IntRange { start: Some(v@.start), end: Some(v@.end), end_inclusive: true }
    }
}

impl From<std::ops::Range<u32>> for IntRange {
    fn from(value: std::ops::Range<u32>) -> IntRange {
        IntRange { start: Some(value.start), end: Some(value.end), end_inclusive: false }
    }
}

impl vstd::std_specs::convert::FromSpecImpl<std::ops::Range<u32>> for IntRange {
    open spec fn obeys_from_spec() -> bool {
        true
    }

    open spec fn from_spec(v: std::ops::Range<u32>) -> IntRange {
        IntRange { start: Some(v.start), end: Some(v.end), end_inclusive: false }
    }
}

impl From<std::ops::RangeTo<u32>> for IntRange {
    fn from(value: std::ops::RangeTo<u32>) -> IntRange {
        IntRange { start: None, end: Some(value.end), end_inclusive: false }
    }
}

impl vstd::std_specs::convert::FromSpecImpl<std::ops::RangeTo<u32>> for IntRange {
    open spec fn obeys_from_spec() -> bool {
        true
    }

    open spec fn from_spec(v: std::ops::RangeTo<u32>) -> IntRange {
        IntRange { start: None, end: Some(v.end), end_inclusive: false }
    }
}

impl From<std::ops::RangeFrom<u32>> for IntRange {
    fn from(value: std::ops::RangeFrom<u32>) -> IntRange {
        IntRange { start: Some(value.start), end: None, end_inclusive: false }
    }
}

impl vstd::std_specs::convert::FromSpecImpl<std::ops::RangeFrom<u32>> for IntRange {
    open spec fn obeys_from_spec() -> bool {
        true
    }

    open spec fn from_spec(v: std::ops::RangeFrom<u32>) -> IntRange {
        IntRange { start: Some(v.start), end: None, end_inclusive: false }
    }
}

impl From<std::ops::RangeToInclusive<u32>> for IntRange {
    fn from(value: std::ops::RangeToInclusive<u32>) -> IntRange {
        IntRange { start: None, end: Some(value.end), end_inclusive: true }
    }
}

impl vstd::std_specs::convert::FromSpecImpl<std::ops::RangeToInclusive<u32>> for IntRange {
    open spec fn obeys_from_spec() -> bool {
        true
    }

    open spec fn from_spec(v: std::ops::RangeToInclusive<u32>) -> IntRange {
        IntRange { start: None, end: Some(v.end), end_inclusive: true }
    }
}

impl From<std::ops::RangeFull> for IntRange {
    fn from(_value: std::ops::RangeFull) -> IntRange {
        IntRange { start: None, end: None, end_inclusive: false }
    }
}

impl vstd::std_specs::convert::FromSpecImpl<std::ops::RangeFull> for IntRange {
    open spec fn obeys_from_spec() -> bool {
        true
    }

    open spec fn from_spec(v: std::ops::RangeFull) -> IntRange {
        IntRange { start: None, end: None, end_inclusive: false }
    }
}

} // verus!
