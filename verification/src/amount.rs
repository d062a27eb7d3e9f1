//! Unit-tagged quantities: parsing, addition, and rendering.
//!
//! A magnitude is stored as an integer count of canonical sub-units
//! (grams for mass, milliliters for volume), so repeated summation never
//! drifts. Only the textual forms scale by a unit factor.

use vstd::arithmetic::div_mod::lemma_div_by_multiple;
use vstd::arithmetic::div_mod::lemma_div_denominator;
use vstd::arithmetic::div_mod::lemma_fundamental_div_mod;
use vstd::arithmetic::div_mod::lemma_fundamental_div_mod_converse;
use vstd::arithmetic::div_mod::lemma_hoist_over_denominator;
use vstd::prelude::*;

use crate::error::Error;
use crate::error::ErrorSpec;
use crate::text::all_digits;
use crate::text::char_digit_val;
use crate::text::dec_digits;
use crate::text::digits_val;
use crate::text::is_digit;
use crate::text::is_digit_char;
use crate::text::lemma_dec_digits;
use crate::text::lemma_digits_val_bound;
use crate::text::lemma_digits_val_split;
use crate::text::lemma_digits_val_take_mono;
use crate::text::lemma_pow10_pos;
use crate::text::pow10;

verus! {

/// A quantity of a good: a bare count, a mass in grams, or a volume in
/// milliliters.
#[derive(Debug, Clone, Copy, PartialEq, Eq, Structural)]
pub enum Amount {
    Count(usize),
    Grams(usize),
    Millis(usize),
}

/// Two amounts carry the same unit kind.
pub open spec fn same_kind(a: Amount, b: Amount) -> bool {
    match (a, b) {
        (Amount::Count(_), Amount::Count(_)) => true,
        (Amount::Grams(_), Amount::Grams(_)) => true,
        (Amount::Millis(_), Amount::Millis(_)) => true,
        _ => false,
    }
}

/// The magnitude of an amount in its canonical sub-unit.
pub open spec fn magnitude(a: Amount) -> int {
    match a {
        Amount::Count(n) => n as int,
        Amount::Grams(n) => n as int,
        Amount::Millis(n) => n as int,
    }
}

/// The sum of two same-kind amounts, keeping the kind.
pub open spec fn amount_sum(a: Amount, b: Amount) -> Amount
    recommends
        same_kind(a, b),
        magnitude(a) + magnitude(b) <= usize::MAX,
{
    match (a, b) {
        (Amount::Count(x), Amount::Count(y)) => Amount::Count((x + y) as usize),
        (Amount::Grams(x), Amount::Grams(y)) => Amount::Grams((x + y) as usize),
        (Amount::Millis(x), Amount::Millis(y)) => Amount::Millis((x + y) as usize),
        _ => a,
    }
}

/// There is a dot at `i`, with only digits on either side.
pub open spec fn dot_split_at(s: Seq<char>, i: int) -> bool {
    &&& 0 <= i < s.len()
    &&& s[i] == '.'
    &&& all_digits(s.take(i))
    &&& all_digits(s.skip(i + 1))
}

/// The numeric grammar an amount magnitude is written in: digits, or
/// digits around a single dot with at least one digit overall.
pub open spec fn valid_number(s: Seq<char>) -> bool {
    (s.len() > 0 && all_digits(s)) || (s.len() >= 2 && exists|i: int| dot_split_at(s, i))
}

/// The position of the single dot of a dotted number.
pub open spec fn dot_pos(s: Seq<char>) -> int {
    choose|i: int| dot_split_at(s, i)
}

/// The value of a number string scaled by `factor`, truncated to a whole
/// count of sub-units.
pub open spec fn number_value(s: Seq<char>, factor: nat) -> int
    recommends
        valid_number(s),
{
    if s.len() > 0 && all_digits(s) {
        (digits_val(s) * factor) as int
    } else {
        let i = dot_pos(s);
        let w = s.take(i);
        let f = s.skip(i + 1);
        ((digits_val(w) * pow10(f.len()) + digits_val(f)) * factor) as int / pow10(f.len()) as int
    }
}

/// A mass amount, if the magnitude fits the machine's integer range.
pub open spec fn grams_of(v: int) -> Option<Amount> {
    if 0 <= v <= usize::MAX {
        Some(Amount::Grams(v as usize))
    } else {
        None
    }
}

/// A volume amount, if the magnitude fits the machine's integer range.
pub open spec fn millis_of(v: int) -> Option<Amount> {
    if 0 <= v <= usize::MAX {
        Some(Amount::Millis(v as usize))
    } else {
        None
    }
}

/// A count amount, if the magnitude fits the machine's integer range.
pub open spec fn count_of(v: int) -> Option<Amount> {
    if 0 <= v <= usize::MAX {
        Some(Amount::Count(v as usize))
    } else {
        None
    }
}

/// What a token parses to: the unit suffixes `g`, `kg`, `ml`, `l` are
/// tried in that order on the numeric prefix, then a bare digit string is
/// a count. `None` where no form matches or the value does not fit.
pub open spec fn spec_parse_amount(s: Seq<char>) -> Option<Amount> {
    let n = s.len() as int;
    if n >= 1 && s.last() == 'g' && valid_number(s.take(n - 1)) {
        grams_of(number_value(s.take(n - 1), 1))
    } else if n >= 2 && s[n - 2] == 'k' && s.last() == 'g' && valid_number(s.take(n - 2)) {
        grams_of(number_value(s.take(n - 2), 1000))
    } else if n >= 2 && s[n - 2] == 'm' && s.last() == 'l' && valid_number(s.take(n - 2)) {
        millis_of(number_value(s.take(n - 2), 1))
    } else if n >= 1 && s.last() == 'l' && valid_number(s.take(n - 1)) {
        millis_of(number_value(s.take(n - 1), 1000))
    } else if n >= 1 && all_digits(s) {
        count_of(digits_val(s) as int)
    } else {
        None
    }
}

/// The fractional digits of a sub-unit remainder, most significant first,
/// with trailing zeros trimmed.
pub open spec fn frac_digits(r: nat) -> Seq<char>
    recommends
        1 <= r < 1000,
{
    if r % 100 == 0 {
        seq![crate::text::digit_char(r / 100)]
    } else if r % 10 == 0 {
        seq![crate::text::digit_char(r / 100), crate::text::digit_char((r / 10) % 10)]
    } else {
        seq![
            crate::text::digit_char(r / 100),
            crate::text::digit_char((r / 10) % 10),
            crate::text::digit_char(r % 10),
        ]
    }
}

/// A magnitude of at least one large unit, written in the large unit:
/// the whole part, then the trimmed fraction if any.
pub open spec fn large_value_digits(v: nat) -> Seq<char>
    recommends
        v >= 1000,
{
    if v % 1000 == 0 {
        dec_digits(v / 1000)
    } else {
        dec_digits(v / 1000) + seq!['.'] + frac_digits(v % 1000)
    }
}

/// The textual form of an amount: a bare count; a mass below 1000 grams
/// as `<n>g`, else in kilograms; a volume below 1000 milliliters as
/// `<n>ml`, else in liters.
pub open spec fn spec_render_amount(a: Amount) -> Seq<char> {
    match a {
        Amount::Count(n) => dec_digits(n as nat),
        Amount::Grams(g) => if g < 1000 {
            dec_digits(g as nat).push('g')
        } else {
            large_value_digits(g as nat) + seq!['k', 'g']
        },
        Amount::Millis(m) => if m < 1000 {
            dec_digits(m as nat) + seq!['m', 'l']
        } else {
            large_value_digits(m as nat).push('l')
        },
    }
}

impl Amount {
    /// Adds two amounts of the same kind; amounts of different kinds
    /// cannot be combined. The carried name is left empty here: the
    /// aggregator knows the canonical name and substitutes it.
    pub fn add(self, other: Self) -> (r: Result<Amount, Error>)
        requires
            same_kind(self, other) ==> magnitude(self) + magnitude(other) <= usize::MAX,
        ensures
            match r {
                Ok(a) => same_kind(self, other) && a == amount_sum(self, other),
                Err(e) => !same_kind(self, other) && e@ == ErrorSpec::UnitMismatch(
                    Seq::<char>::empty(),
                ),
            },
    {
        match (self, other) {
            (Amount::Count(x), Amount::Count(y)) => Ok(Amount::Count(x + y)),
            (Amount::Grams(x), Amount::Grams(y)) => Ok(Amount::Grams(x + y)),
            (Amount::Millis(x), Amount::Millis(y)) => Ok(Amount::Millis(x + y)),
            _ => Err(Error::UnitMismatch(String::new())),
        }
    }

    /// Parses one token as an amount, exactly as [`spec_parse_amount`]
    /// reads it. The accepted magnitude grammar is decimal digits with
    /// at most one dot and at least one digit — no sign, no exponent —
    /// followed by one of the unit suffixes `g`, `kg`, `ml`, `l`, or by
    /// nothing for a bare count; a value whose sub-unit magnitude does
    /// not fit the machine's integer range is rejected.
    pub fn parse(s: &str) -> (r: Result<Amount, Error>)
        ensures
            r == match spec_parse_amount(s@) {
                Some(a) => Ok::<Amount, Error>(a),
                None => Err::<Amount, Error>(Error::Parse),
            },
    {
        let n = s.unicode_len();
        if n >= 1 {
            let cl = s.get_char(n - 1);
            if cl == 'g' {
                match parse_number(s, n - 1, 1) {
                    NumOutcome::Value(v) => {
                        return Ok(Amount::Grams(v));
                    },
                    NumOutcome::TooBig => {
                        return Err(Error::Parse);
                    },
                    NumOutcome::Invalid => {
                        if n >= 2 && s.get_char(n - 2) == 'k' {
                            match parse_number(s, n - 2, 1000) {
                                NumOutcome::Value(v) => {
                                    return Ok(Amount::Grams(v));
                                },
                                _ => {
                                    return Err(Error::Parse);
                                },
                            }
                        } else {
                            return Err(Error::Parse);
                        }
                    },
                }
            } else if cl == 'l' {
                if n >= 2 && s.get_char(n - 2) == 'm' {
                    match parse_number(s, n - 2, 1) {
                        NumOutcome::Value(v) => {
                            return Ok(Amount::Millis(v));
                        },
                        NumOutcome::TooBig => {
                            return Err(Error::Parse);
                        },
                        NumOutcome::Invalid => {},
                    }
                }
                match parse_number(s, n - 1, 1000) {
                    NumOutcome::Value(v) => Ok(Amount::Millis(v)),
                    _ => Err(Error::Parse),
                }
            } else {
                match parse_all_digits(s) {
                    NumOutcome::Value(v) => Ok(Amount::Count(v)),
                    _ => Err(Error::Parse),
                }
            }
        } else {
            Err(Error::Parse)
        }
    }
}

/// How a candidate number string turned out.
enum NumOutcome {
    /// The string does not match the numeric grammar.
    Invalid,
    /// The string is a number, but its scaled value does not fit.
    TooBig,
    /// The scaled, truncated value.
    Value(usize),
}

/// The whole string is a bare digit string, as a count reads it.
fn parse_all_digits(s: &str) -> (r: NumOutcome)
    ensures
        match r {
            NumOutcome::Invalid => !(s@.len() > 0 && all_digits(s@)),
            NumOutcome::TooBig => s@.len() > 0 && all_digits(s@) && digits_val(s@) > usize::MAX,
            NumOutcome::Value(v) => s@.len() > 0 && all_digits(s@) && v == digits_val(s@) && v
                <= usize::MAX,
        },
{
    let n = s.unicode_len();
    if n == 0 {
        return NumOutcome::Invalid;
    }
    let mut i: usize = 0;
    while i < n
        invariant
            i <= n,
            n == s@.len(),
            forall|j: int| 0 <= j < i ==> is_digit(#[trigger] s@[j]),
        decreases n - i,
    {
        if !is_digit_char(s.get_char(i)) {
            return NumOutcome::Invalid;
        }
        i = i + 1;
    }
    proof {
        assert(s@.subrange(0, n as int) =~= s@);
    }
    match digits_value_exec(s, 0, n) {
        Some(v) => NumOutcome::Value(v),
        None => NumOutcome::TooBig,
    }
}

/// Accumulates the value of a digit range, or reports that it exceeds
/// the machine's integer range.
fn digits_value_exec(s: &str, from: usize, to: usize) -> (r: Option<usize>)
    requires
        from <= to <= s@.len(),
        all_digits(s@.subrange(from as int, to as int)),
    ensures
        match r {
            Some(v) => v == digits_val(s@.subrange(from as int, to as int)),
            None => digits_val(s@.subrange(from as int, to as int)) > usize::MAX,
        },
{
    let ghost whole = s@.subrange(from as int, to as int);
    let mut acc: usize = 0;
    let mut i: usize = from;
    while i < to
        invariant
            from <= i <= to <= s@.len(),
            all_digits(whole),
            whole == s@.subrange(from as int, to as int),
            acc == digits_val(s@.subrange(from as int, i as int)),
        decreases to - i,
    {
        let ghost pre = s@.subrange(from as int, i as int);
        proof {
            assert(whole[i - from] == s@[i as int]);
        }
        let d = char_digit_val(s.get_char(i));
        let limit = (usize::MAX - d) / 10;
        proof {
            lemma_fundamental_div_mod(usize::MAX - d, 10);
            assert(s@.subrange(from as int, i + 1).drop_last() =~= pre);
        }
        if acc > limit {
            proof {
                assert(digits_val(s@.subrange(from as int, i + 1)) > usize::MAX);
                lemma_digits_val_take_mono(whole, i + 1 - from);
                assert(whole.take(i + 1 - from) =~= s@.subrange(from as int, i + 1));
            }
            return None;
        }
        acc = acc * 10 + d;
        i = i + 1;
    }
    proof {
        assert(s@.subrange(from as int, to as int) =~= whole);
    }
    Some(acc)
}

/// The dot of a dotted number is unique.
proof fn lemma_dot_unique(s: Seq<char>, i: int, j: int)
    requires
        dot_split_at(s, i),
        dot_split_at(s, j),
    ensures
        i == j,
{
    if i < j {
        assert(s.skip(i + 1)[j - i - 1] == s[j]);
        assert(is_digit(s[j]));
    }
    if j < i {
        assert(s.skip(j + 1)[i - j - 1] == s[i]);
        assert(is_digit(s[i]));
    }
}

/// What the fractional digits add to the scaled value: at most the first
/// three sub-unit digits survive the truncation.
pub open spec fn frac_scaled(f: Seq<char>, factor: nat) -> nat {
    if factor != 1000 || f.len() == 0 {
        0
    } else if f.len() == 1 {
        digits_val(f) * 100
    } else if f.len() == 2 {
        digits_val(f) * 10
    } else {
        digits_val(f.take(3))
    }
}

/// A dotted number's value splits into the whole part scaled by the
/// factor plus what the fraction adds.
proof fn lemma_number_value_dot(s: Seq<char>, i: int, factor: nat)
    requires
        dot_split_at(s, i),
        s.len() >= 2,
        factor == 1 || factor == 1000,
    ensures
        valid_number(s),
        number_value(s, factor) == digits_val(s.take(i)) * factor + frac_scaled(
            s.skip(i + 1),
            factor,
        ),
{
    assert(!all_digits(s)) by {
        assert(s[i] == '.');
    }
    let j = dot_pos(s);
    assert(dot_split_at(s, j)) by {
        assert(dot_split_at(s, i));
    }
    lemma_dot_unique(s, i, j);
    let w = s.take(i);
    let f = s.skip(i + 1);
    let wv = digits_val(w);
    let fv = digits_val(f);
    let p = pow10(f.len());
    lemma_pow10_pos(f.len());
    lemma_digits_val_bound(f);
    assert((wv * p + fv) * factor == fv * factor + (wv * factor) * p) by (nonlinear_arith);
    lemma_hoist_over_denominator(fv * factor as int, wv * factor as int, p);
    assert(number_value(s, factor) == (fv * factor) as int / (p as int) + wv * factor);
    if factor == 1 {
        lemma_fundamental_div_mod_converse(fv as int, p as int, 0, fv as int);
        assert(fv * 1 == fv) by (nonlinear_arith);
        assert((fv * factor) as int / (p as int) == 0);
    } else {
        crate::text::lemma_pow10_vals();
        if f.len() == 0 {
            assert(fv == 0);
            assert((fv * factor) as int / (p as int) == 0);
        } else if f.len() == 1 {
            assert(fv * 1000 == (fv * 100) * 10) by (nonlinear_arith);
            lemma_div_by_multiple(fv * 100 as int, 10);
        } else if f.len() == 2 {
            assert(fv * 1000 == (fv * 10) * 100) by (nonlinear_arith);
            lemma_div_by_multiple(fv * 10 as int, 100);
        } else if f.len() == 3 {
            lemma_div_by_multiple(fv as int, 1000);
            assert(f.take(3) =~= f);
        } else {
            let q = pow10((f.len() - 3) as nat);
            lemma_pow10_pos((f.len() - 3) as nat);
            assert(p == 1000 * q) by {
                lemma_pow10_mul3(f.len());
            }
            lemma_div_denominator(fv * 1000 as int, 1000, q as int);
            lemma_div_by_multiple(fv as int, 1000);
            assert((fv * 1000) as int / (p as int) == fv as int / q as int);
            lemma_digits_val_split(f, 3);
            let f3 = digits_val(f.take(3));
            let rest = digits_val(f.skip(3));
            assert(fv == f3 * q + rest);
            lemma_digits_val_bound_sub(f);
            assert(rest < q);
            lemma_fundamental_div_mod_converse(fv as int, q as int, f3 as int, rest as int);
        }
    }
}

/// `pow10(n) == 1000 * pow10(n - 3)` for `n >= 3`.
proof fn lemma_pow10_mul3(n: nat)
    requires
        n >= 3,
    ensures
        pow10(n) == 1000 * pow10((n - 3) as nat),
{
    assert(pow10(n) == 10 * pow10((n - 1) as nat));
    assert(pow10((n - 1) as nat) == 10 * pow10((n - 2) as nat));
    assert(pow10((n - 2) as nat) == 10 * pow10((n - 3) as nat));
}

/// The tail beyond the first three fractional digits stays below its
/// own power of ten.
proof fn lemma_digits_val_bound_sub(f: Seq<char>)
    requires
        all_digits(f),
        f.len() > 3,
    ensures
        digits_val(f.skip(3)) < pow10((f.len() - 3) as nat),
{
    assert(all_digits(f.skip(3))) by {
        assert(forall|k: int|
            0 <= k < f.skip(3).len() ==> f.skip(3)[k] == f[k + 3] && is_digit(#[trigger] f[k + 3]));
    }
    lemma_digits_val_bound(f.skip(3));
}

/// Reads the first `end` characters of `s` as a number scaled by
/// `factor`, truncating to whole sub-units.
fn parse_number(s: &str, end: usize, factor: usize) -> (r: NumOutcome)
    requires
        end <= s@.len(),
        factor == 1 || factor == 1000,
    ensures
        ({
            let sub = s@.take(end as int);
            match r {
                NumOutcome::Invalid => !valid_number(sub),
                NumOutcome::TooBig => valid_number(sub) && number_value(sub, factor as nat)
                    > usize::MAX,
                NumOutcome::Value(v) => valid_number(sub) && v == number_value(
                    sub,
                    factor as nat,
                ) && 0 <= number_value(sub, factor as nat) <= usize::MAX,
            }
        }),
{
    let ghost sub = s@.take(end as int);
    let mut dot: usize = 0;
    let mut have_dot = false;
    let mut i: usize = 0;
    while i < end
        invariant
            i <= end <= s@.len(),
            sub == s@.take(end as int),
            sub.len() == end,
            have_dot ==> dot < i && sub[dot as int] == '.',
            forall|j: int| 0 <= j < i && (!have_dot || j != dot) ==> is_digit(#[trigger] sub[j]),
        decreases end - i,
    {
        let c = s.get_char(i);
        proof {
            assert(sub[i as int] == s@[i as int]);
        }
        if c == '.' {
            if have_dot {
                proof {
                    lemma_two_dots_invalid(sub, dot as int, i as int);
                }
                return NumOutcome::Invalid;
            }
            dot = i;
            have_dot = true;
        } else if !is_digit_char(c) {
            proof {
                lemma_bad_char_invalid(sub, i as int);
            }
            return NumOutcome::Invalid;
        }
        i = i + 1;
    }
    if !have_dot {
        if end == 0 {
            proof {
                lemma_empty_invalid(sub);
            }
            return NumOutcome::Invalid;
        }
        assert(all_digits(sub));
        proof {
            assert(sub.subrange(0, end as int) =~= sub);
        }
        let w = match digits_value_str_take(s, 0, end, end) {
            Some(w) => w,
            None => {
                proof {
                    lemma_mul_ge_self(digits_val(sub), factor as nat);
                }
                return NumOutcome::TooBig;
            },
        };
        return scale_whole(w, 0, factor, Ghost(sub));
    }
    // One dot at `dot`, all other characters digits.
    if end < 2 {
        proof {
            assert(!valid_number(sub)) by {
                assert(sub.len() < 2);
                assert(!all_digits(sub)) by {
                    assert(sub[dot as int] == '.');
                }
            }
        }
        return NumOutcome::Invalid;
    }
    proof {
        assert(dot_split_at(sub, dot as int)) by {
            assert(forall|j: int|
                0 <= j < sub.take(dot as int).len() ==> #[trigger] sub.take(dot as int)[j]
                    == sub[j]);
            assert(forall|j: int|
                0 <= j < sub.skip(dot + 1).len() ==> #[trigger] sub.skip(dot + 1)[j] == sub[j + dot
                    + 1]);
        }
        lemma_number_value_dot(sub, dot as int, factor as nat);
    }
    let ghost w_seq = sub.take(dot as int);
    let ghost f_seq = sub.skip(dot as int + 1);
    let fl = end - dot - 1;
    proof {
        assert(w_seq =~= sub.subrange(0, dot as int));
        assert(f_seq =~= sub.subrange(dot as int + 1, end as int));
        if fl >= 3 {
            assert(f_seq.take(3) =~= sub.subrange(dot as int + 1, dot as int + 4));
        }
    }
    // What the fraction adds after truncation, below 1000.
    let frac_add: usize = if factor == 1 || fl == 0 {
        0
    } else if fl == 1 {
        proof {
            lemma_frac_small(f_seq, 1);
        }
        match digits_value_str_take(s, dot + 1, end, end) {
            Some(d) => d * 100,
            None => 0,
        }
    } else if fl == 2 {
        proof {
            lemma_frac_small(f_seq, 2);
        }
        match digits_value_str_take(s, dot + 1, end, end) {
            Some(d) => d * 10,
            None => 0,
        }
    } else {
        proof {
            lemma_frac_small(f_seq.take(3), 3);
        }
        match digits_value_str_take(s, dot + 1, dot + 4, end) {
            Some(d) => d,
            None => 0,
        }
    };
    proof {
        assert(frac_add == frac_scaled(f_seq, factor as nat));
    }
    let w = match digits_value_str_take(s, 0, dot, end) {
        Some(w) => w,
        None => {
            proof {
                lemma_mul_ge_self(digits_val(w_seq), factor as nat);
            }
            return NumOutcome::TooBig;
        },
    };
    scale_whole(w, frac_add, factor, Ghost(sub))
}

/// `a * f >= a` for a factor of at least one.
proof fn lemma_mul_ge_self(a: nat, f: nat)
    requires
        f >= 1,
    ensures
        a * f >= a,
{
    assert(a * f >= a * 1) by (nonlinear_arith)
        requires
            f >= 1,
    ;
}

/// The value of at most three fractional digits stays below 1000, and
/// below 100 or 10 for fewer digits.
proof fn lemma_frac_small(f: Seq<char>, n: nat)
    requires
        all_digits(f),
        f.len() == n,
        1 <= n <= 3,
    ensures
        n == 1 ==> digits_val(f) <= 9,
        n == 2 ==> digits_val(f) <= 99,
        n == 3 ==> digits_val(f) <= 999,
{
    lemma_digits_val_bound(f);
    crate::text::lemma_pow10_vals();
}

/// Combines the whole part, the factor, and what the fraction adds
/// into the final value, or reports that it does not fit.
fn scale_whole(w: usize, frac_add: usize, factor: usize, Ghost(sub): Ghost<Seq<char>>) -> (r:
    NumOutcome)
    requires
        factor == 1 || factor == 1000,
        frac_add < 1000,
        valid_number(sub),
        number_value(sub, factor as nat) == w * factor + frac_add,
    ensures
        ({
            match r {
                NumOutcome::Invalid => false,
                NumOutcome::TooBig => valid_number(sub) && number_value(sub, factor as nat)
                    > usize::MAX,
                NumOutcome::Value(v) => valid_number(sub) && v == number_value(
                    sub,
                    factor as nat,
                ) && 0 <= number_value(sub, factor as nat) <= usize::MAX,
            }
        }),
{
    let scaled = if factor == 1 {
        w
    } else {
        let limit = usize::MAX / 1000;
        proof {
            lemma_fundamental_div_mod(usize::MAX as int, 1000);
        }
        if w > limit {
            proof {
                assert(w * 1000 > usize::MAX) by (nonlinear_arith)
                    requires
                        w >= usize::MAX as int / 1000 + 1,
                        usize::MAX as int == 1000 * (usize::MAX as int / 1000) + usize::MAX as int
                            % 1000,
                        usize::MAX as int % 1000 < 1000,
                ;
            }
            return NumOutcome::TooBig;
        }
        proof {
            assert(w * 1000 <= usize::MAX) by (nonlinear_arith)
                requires
                    w <= usize::MAX as int / 1000,
                    usize::MAX as int == 1000 * (usize::MAX as int / 1000) + usize::MAX as int
                        % 1000,
                    usize::MAX as int % 1000 < 1000,
            ;
        }
        w * 1000
    };
    if scaled > usize::MAX - frac_add {
        return NumOutcome::TooBig;
    }
    NumOutcome::Value(scaled + frac_add)
}

/// Reads a digit range of a string prefix, as [`digits_value_exec`]
/// does, phrased over the prefix `s[..end]`.
fn digits_value_str_take(s: &str, from: usize, to: usize, end: usize) -> (r: Option<usize>)
    requires
        from <= to <= end <= s@.len(),
        all_digits(s@.take(end as int).subrange(from as int, to as int)),
    ensures
        match r {
            Some(v) => v == digits_val(s@.take(end as int).subrange(from as int, to as int)) && v
                <= usize::MAX,
            None => digits_val(s@.take(end as int).subrange(from as int, to as int)) > usize::MAX,
        },
{
    proof {
        assert(s@.take(end as int).subrange(from as int, to as int) =~= s@.subrange(
            from as int,
            to as int,
        ));
    }
    digits_value_exec(s, from, to)
}

/// No string with two dots is a number.
proof fn lemma_two_dots_invalid(s: Seq<char>, d1: int, d2: int)
    requires
        0 <= d1 < d2 < s.len(),
        s[d1] == '.',
        s[d2] == '.',
    ensures
        !valid_number(s),
{
    assert(!all_digits(s)) by {
        assert(!is_digit(s[d1]));
    }
    assert forall|k: int| !dot_split_at(s, k) by {
        if 0 <= k < s.len() {
            if k != d1 {
                lemma_dot_elsewhere(s, k, d1);
            } else {
                lemma_dot_elsewhere(s, k, d2);
            }
        }
    }
}

/// A dot at any position other than the split point breaks the split.
proof fn lemma_dot_elsewhere(s: Seq<char>, k: int, d: int)
    requires
        0 <= k < s.len(),
        0 <= d < s.len(),
        d != k,
        s[d] == '.',
    ensures
        !dot_split_at(s, k),
{
    if dot_split_at(s, k) {
        if d < k {
            assert(s.take(k)[d] == s[d]);
            assert(is_digit(s[d]));
        } else {
            assert(s.skip(k + 1)[d - k - 1] == s[d]);
            assert(is_digit(s[d]));
        }
    }
}

/// A character that is neither a digit nor a dot breaks every reading.
proof fn lemma_bad_char_invalid(s: Seq<char>, m: int)
    requires
        0 <= m < s.len(),
        !is_digit(s[m]),
        s[m] != '.',
    ensures
        !valid_number(s),
{
    assert(!all_digits(s));
    assert forall|k: int| !dot_split_at(s, k) by {
        if 0 <= k < s.len() && dot_split_at(s, k) {
            if m < k {
                assert(s.take(k)[m] == s[m]);
            } else if m > k {
                assert(s.skip(k + 1)[m - k - 1] == s[m]);
            }
        }
    }
}

/// The empty string is not a number.
proof fn lemma_empty_invalid(s: Seq<char>)
    requires
        s.len() == 0,
    ensures
        !valid_number(s),
{
}

/// One digit as text.
fn digit_str(d: usize) -> (r: &'static str)
    requires
        d < 10,
    ensures
        r@ == seq![crate::text::digit_char(d as nat)],
{
    let r: &'static str = if d == 0 {
        "0"
    } else if d == 1 {
        "1"
    } else if d == 2 {
        "2"
    } else if d == 3 {
        "3"
    } else if d == 4 {
        "4"
    } else if d == 5 {
        "5"
    } else if d == 6 {
        "6"
    } else if d == 7 {
        "7"
    } else if d == 8 {
        "8"
    } else {
        "9"
    };
    proof {
        reveal_strlit("0");
        reveal_strlit("1");
        reveal_strlit("2");
        reveal_strlit("3");
        reveal_strlit("4");
        reveal_strlit("5");
        reveal_strlit("6");
        reveal_strlit("7");
        reveal_strlit("8");
        reveal_strlit("9");
        assert(r@ =~= seq![crate::text::digit_char(d as nat)]);
    }
    r
}

/// Appends the decimal digits of `n`.
fn push_dec(out: &mut String, n: usize)
    ensures
        final(out)@ == old(out)@ + dec_digits(n as nat),
    decreases n,
{
    if n >= 10 {
        push_dec(out, n / 10);
        out.append(digit_str(n % 10));
        proof {
            assert(out@ =~= old(out)@ + dec_digits(n as nat));
        }
    } else {
        out.append(digit_str(n));
        proof {
            assert(out@ =~= old(out)@ + dec_digits(n as nat));
        }
    }
}

/// Appends the trimmed fractional digits of a sub-unit remainder.
fn push_frac(out: &mut String, r: usize)
    requires
        1 <= r < 1000,
    ensures
        final(out)@ == old(out)@ + frac_digits(r as nat),
{
    if r % 100 == 0 {
        out.append(digit_str(r / 100));
        proof {
            assert(out@ =~= old(out)@ + frac_digits(r as nat));
        }
    } else if r % 10 == 0 {
        out.append(digit_str(r / 100));
        out.append(digit_str((r / 10) % 10));
        proof {
            assert(out@ =~= old(out)@ + frac_digits(r as nat));
        }
    } else {
        out.append(digit_str(r / 100));
        out.append(digit_str((r / 10) % 10));
        out.append(digit_str(r % 10));
        proof {
            assert(out@ =~= old(out)@ + frac_digits(r as nat));
        }
    }
}

impl Amount {
    /// Renders the amount as [`spec_render_amount`] writes it.
    pub fn render(&self) -> (r: String)
        ensures
            r@ == spec_render_amount(*self),
    {
        let mut out = String::new();
        match self {
            Amount::Count(n) => {
                push_dec(&mut out, *n);
                proof {
                    assert(out@ =~= spec_render_amount(*self));
                }
            },
            Amount::Grams(g) => {
                if *g < 1000 {
                    push_dec(&mut out, *g);
                    out.append("g");
                    proof {
                        reveal_strlit("g");
                        assert(out@ =~= spec_render_amount(*self));
                    }
                } else {
                    push_dec(&mut out, *g / 1000);
                    if *g % 1000 != 0 {
                        out.append(".");
                        push_frac(&mut out, *g % 1000);
                    }
                    out.append("kg");
                    proof {
                        reveal_strlit(".");
                        reveal_strlit("kg");
                        assert(out@ =~= spec_render_amount(*self));
                    }
                }
            },
            Amount::Millis(m) => {
                if *m < 1000 {
                    push_dec(&mut out, *m);
                    out.append("ml");
                    proof {
                        reveal_strlit("ml");
                        assert(out@ =~= spec_render_amount(*self));
                    }
                } else {
                    push_dec(&mut out, *m / 1000);
                    if *m % 1000 != 0 {
                        out.append(".");
                        push_frac(&mut out, *m % 1000);
                    }
                    out.append("l");
                    proof {
                        reveal_strlit(".");
                        reveal_strlit("l");
                        assert(out@ =~= spec_render_amount(*self));
                    }
                }
            },
        }
        out
    }
}

/// The trimmed fraction's digits are digits and scale back to the
/// remainder they were written from.
proof fn lemma_frac_digits(r: nat)
    requires
        1 <= r < 1000,
    ensures
        1 <= frac_digits(r).len() <= 3,
        all_digits(frac_digits(r)),
        frac_scaled(frac_digits(r), 1000) == r,
{
    let f = frac_digits(r);
    let d1 = crate::text::digit_char(r / 100);
    let d2 = crate::text::digit_char((r / 10) % 10);
    let d3 = crate::text::digit_char(r % 10);
    crate::text::lemma_digit_char(r / 100);
    crate::text::lemma_digit_char((r / 10) % 10);
    crate::text::lemma_digit_char(r % 10);
    assert(digits_val(Seq::<char>::empty()) == 0);
    assert(digits_val(seq![d1]) == r / 100) by {
        assert(seq![d1].drop_last() =~= Seq::<char>::empty());
        assert(seq![d1].last() == d1);
    }
    assert(digits_val(seq![d1, d2]) == (r / 100) * 10 + (r / 10) % 10) by {
        assert(seq![d1, d2].drop_last() =~= seq![d1]);
        assert(seq![d1, d2].last() == d2);
    }
    assert(digits_val(seq![d1, d2, d3]) == ((r / 100) * 10 + (r / 10) % 10) * 10 + r % 10) by {
        assert(seq![d1, d2, d3].drop_last() =~= seq![d1, d2]);
        assert(seq![d1, d2, d3].last() == d3);
    }
    if r % 100 == 0 {
        assert(f =~= seq![d1]);
        assert(digits_val(f) == r / 100);
        assert((r / 100) * 100 == r) by (nonlinear_arith)
            requires
                1 <= r < 1000,
                r % 100 == 0,
        ;
    } else if r % 10 == 0 {
        assert(f =~= seq![d1, d2]);
        assert(digits_val(f) == (r / 100) * 10 + (r / 10) % 10);
        assert((r / 100) * 10 + (r / 10) % 10 == r / 10) by (nonlinear_arith)
            requires
                1 <= r < 1000,
        ;
        assert((r / 10) * 10 == r) by (nonlinear_arith)
            requires
                1 <= r < 1000,
                r % 10 == 0,
        ;
    } else {
        assert(f =~= seq![d1, d2, d3]);
        assert(digits_val(f) == ((r / 100) * 10 + (r / 10) % 10) * 10 + r % 10);
        assert(((r / 100) * 10 + (r / 10) % 10) * 10 + r % 10 == r) by (nonlinear_arith)
            requires
                1 <= r < 1000,
        ;
        assert(f.take(3) =~= f);
    }
}

/// The large-unit digits of a magnitude of at least one large unit are a
/// number that scales back to the magnitude; a stray letter after them
/// breaks the reading.
proof fn lemma_large_value(v: nat)
    requires
        1000 <= v <= usize::MAX,
    ensures
        large_value_digits(v).len() >= 1,
        is_digit(large_value_digits(v).last()),
        valid_number(large_value_digits(v)),
        number_value(large_value_digits(v), 1000) == v,
        !valid_number(large_value_digits(v).push('k')),
{
    let s = large_value_digits(v);
    let q = v / 1000;
    let r = v % 1000;
    lemma_dec_digits(q);
    if r == 0 {
        assert(s == dec_digits(q));
        assert(is_digit(s.last()));
        assert(number_value(s, 1000) == (digits_val(s) * 1000) as int);
        assert(q * 1000 == v) by (nonlinear_arith)
            requires
                v >= 0,
                q == v / 1000,
                v % 1000 == 0,
        ;
    } else {
        lemma_frac_digits(r);
        let w = dec_digits(q);
        let f = frac_digits(r);
        let wl = w.len() as int;
        assert(s == w + seq!['.'] + f);
        assert(s.len() == wl + 1 + f.len());
        assert(s.last() == f.last());
        assert(is_digit(f.last()));
        assert(s[wl] == '.');
        assert(s.take(wl) =~= w);
        assert(s.skip(wl + 1) =~= f);
        assert(dot_split_at(s, wl));
        lemma_number_value_dot(s, wl, 1000);
        assert(number_value(s, 1000) == digits_val(w) * 1000 + frac_scaled(f, 1000));
        assert(q * 1000 + r == v) by {
            vstd::arithmetic::div_mod::lemma_fundamental_div_mod(v as int, 1000);
        }
    }
    lemma_bad_char_invalid(s.push('k'), s.len() as int);
    assert(s.push('k')[s.len() as int] == 'k');
}

/// Rendering an amount and parsing the text back returns the amount
/// itself: the round trip loses no magnitude and no kind.
pub proof fn lemma_render_parse_round_trip(a: Amount)
    ensures
        spec_parse_amount(spec_render_amount(a)) == Some(a),
{
    match a {
        Amount::Count(n) => {
            let s = dec_digits(n as nat);
            lemma_dec_digits(n as nat);
            assert(is_digit(s.last()));
            assert(count_of(digits_val(s) as int) == Some(a));
        },
        Amount::Grams(g) => {
            if g < 1000 {
                let s = spec_render_amount(a);
                let w = dec_digits(g as nat);
                lemma_dec_digits(g as nat);
                assert(s.last() == 'g');
                assert(s.take(s.len() - 1) =~= w);
                assert(number_value(w, 1) == (digits_val(w) * 1) as int);
                assert(digits_val(w) * 1 == g);
                assert(grams_of(g as int) == Some(a));
            } else {
                let lv = large_value_digits(g as nat);
                lemma_large_value(g as nat);
                let s = spec_render_amount(a);
                let n = s.len() as int;
                assert(s == lv + seq!['k', 'g']);
                assert(s.last() == 'g');
                assert(s[n - 2] == 'k');
                assert(s.take(n - 1) =~= lv.push('k'));
                assert(!valid_number(s.take(n - 1)));
                assert(s.take(n - 2) =~= lv);
                assert(grams_of(number_value(lv, 1000)) == Some(a));
            }
        },
        Amount::Millis(m) => {
            if m < 1000 {
                let s = spec_render_amount(a);
                let w = dec_digits(m as nat);
                lemma_dec_digits(m as nat);
                let n = s.len() as int;
                assert(s == w + seq!['m', 'l']);
                assert(s.last() == 'l');
                assert(s[n - 2] == 'm');
                assert(s.take(n - 2) =~= w);
                assert(number_value(w, 1) == (digits_val(w) * 1) as int);
                assert(digits_val(w) * 1 == m);
                assert(millis_of(m as int) == Some(a));
            } else {
                let lv = large_value_digits(m as nat);
                lemma_large_value(m as nat);
                let s = spec_render_amount(a);
                let n = s.len() as int;
                assert(s == lv.push('l'));
                assert(s.last() == 'l');
                assert(s[n - 2] == lv.last());
                assert(is_digit(s[n - 2]));
                assert(s[n - 2] != 'm');
                assert(s.take(n - 1) =~= lv);
                assert(millis_of(number_value(lv, 1000)) == Some(a));
            }
        },
    }
}

/// Rendering what a valid amount string parses to gives a string that
/// parses back to the same kind and the same magnitude in canonical
/// sub-units, whatever unit the rendering chose.
pub proof fn lemma_parse_then_render_keeps_value(s: Seq<char>)
    requires
        spec_parse_amount(s) is Some,
    ensures
        spec_parse_amount(spec_render_amount(spec_parse_amount(s)->Some_0)) == spec_parse_amount(
            s,
        ),
{
    lemma_render_parse_round_trip(spec_parse_amount(s)->Some_0);
}

/// Addition of same-kind amounts does not depend on the order of the
/// operands; amounts of different kinds stay incompatible either way.
pub proof fn lemma_add_commutative(a: Amount, b: Amount)
    ensures
        same_kind(a, b) == same_kind(b, a),
        same_kind(a, b) && magnitude(a) + magnitude(b) <= usize::MAX ==> amount_sum(a, b)
            == amount_sum(b, a),
{
}

/// Addition of same-kind amounts groups freely.
pub proof fn lemma_add_associative(a: Amount, b: Amount, c: Amount)
    requires
        same_kind(a, b),
        same_kind(b, c),
        magnitude(a) + magnitude(b) + magnitude(c) <= usize::MAX,
    ensures
        same_kind(amount_sum(a, b), c),
        same_kind(a, amount_sum(b, c)),
        amount_sum(amount_sum(a, b), c) == amount_sum(a, amount_sum(b, c)),
{
}

} // verus!
