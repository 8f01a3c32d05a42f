use vstd::prelude::*;
use vstd::arithmetic::div_mod::{lemma_div_denominator, lemma_hoist_over_denominator};
use crate::error::NumberFormatError;
use crate::text::{chars_of, find_from, next_index_of};

verus! {

/// Which unit suffixes a magnitude may carry.
///
/// `Binary` is `df -h`: single-letter suffixes are powers of 1024, and a trailing
/// `%` is dropped as well. `Mixed` is `free`: single-letter suffixes are powers of
/// 1000 and the two-letter `Ki`, `Mi`, ... are powers of 1024.
#[derive(Clone, Copy, PartialEq, Eq, Structural)]
pub enum UnitTable {
    Binary,
    Mixed,
}

pub open spec fn kib(e: nat) -> nat
    decreases e,
{
    if e == 0 {
        1
    } else {
        1024 * kib((e - 1) as nat)
    }
}

pub open spec fn kilo(e: nat) -> nat
    decreases e,
{
    if e == 0 {
        1
    } else {
        1000 * kilo((e - 1) as nat)
    }
}

pub open spec fn pow10(e: nat) -> nat
    decreases e,
{
    if e == 0 {
        1
    } else {
        10 * pow10((e - 1) as nat)
    }
}

/// The suffixes of a table with their multipliers, in the order they are tried.
pub open spec fn suffixes(t: UnitTable) -> Seq<(Seq<char>, nat)> {
    match t {
        UnitTable::Binary => seq![
            (seq!['B'], 1nat),
            (seq!['K'], kib(1)),
            (seq!['M'], kib(2)),
            (seq!['G'], kib(3)),
            (seq!['T'], kib(4)),
            (seq!['P'], kib(5)),
        ],
        UnitTable::Mixed => seq![
            (seq!['B'], 1nat),
            (seq!['K'], kilo(1)),
            (seq!['M'], kilo(2)),
            (seq!['G'], kilo(3)),
            (seq!['T'], kilo(4)),
            (seq!['P'], kilo(5)),
            (seq!['K', 'i'], kib(1)),
            (seq!['M', 'i'], kib(2)),
            (seq!['G', 'i'], kib(3)),
            (seq!['T', 'i'], kib(4)),
            (seq!['P', 'i'], kib(5)),
        ],
    }
}

pub open spec fn ends_with(s: Seq<char>, suf: Seq<char>) -> bool {
    suf.len() <= s.len() && s.subrange(s.len() - suf.len(), s.len() as int) == suf
}

/// Strip, once, the first suffix of `list` from index `i` on that `s` ends
/// with; the multiplier is 1 where none does.
pub open spec fn strip_unit_from(s: Seq<char>, list: Seq<(Seq<char>, nat)>, i: int) -> (
    Seq<char>,
    nat,
)
    decreases list.len() - i,
{
    if i < 0 || i >= list.len() {
        (s, 1)
    } else if ends_with(s, list[i].0) {
        (s.subrange(0, s.len() - list[i].0.len()), list[i].1)
    } else {
        strip_unit_from(s, list, i + 1)
    }
}

/// The numeric text left of `s` under table `t`, and the multiplier: the unit
/// is stripped once, then, under `Binary`, one trailing `%`.
pub open spec fn strip_unit(s: Seq<char>, t: UnitTable) -> (Seq<char>, nat) {
    let (rest, mul) = strip_unit_from(s, suffixes(t), 0);
    if t == UnitTable::Binary && ends_with(rest, seq!['%']) {
        (rest.drop_last(), mul)
    } else {
        (rest, mul)
    }
}

pub open spec fn is_digit(c: char) -> bool {
    '0' <= c && c <= '9'
}

pub open spec fn digit_value(c: char) -> nat {
    (c as int - '0' as int) as nat
}

pub open spec fn all_digits(s: Seq<char>) -> bool {
    forall|i: int| 0 <= i < s.len() ==> is_digit(#[trigger] s[i])
}

/// The number that a string of decimal digits writes.
pub open spec fn digits_value(s: Seq<char>) -> nat
    decreases s.len(),
{
    if s.len() == 0 {
        0
    } else {
        digits_value(s.drop_last()) * 10 + digit_value(s.last())
    }
}

/// A leading `+` or `-` split off: whether it was `-`, and the rest.
pub open spec fn sign_split(s: Seq<char>) -> (bool, Seq<char>) {
    if s.len() > 0 && (s[0] == '+' || s[0] == '-') {
        (s[0] == '-', s.drop_first())
    } else {
        (false, s)
    }
}

/// `c` is the lower-case ASCII letter `l` in either case.
pub open spec fn same_letter(c: char, l: char) -> bool {
    c == l || (c as u32) as int + 32 == (l as u32) as int
}

/// `s` spells the lower-case word `w`, ignoring ASCII case.
pub open spec fn eq_ignore_case(s: Seq<char>, w: Seq<char>) -> bool {
    s.len() == w.len() && forall|i: int| 0 <= i < s.len() ==> same_letter(s[i], w[i])
}

/// Split `digits [. digits]` (at least one digit) into integer and fraction digits.
pub open spec fn mantissa_parts(m: Seq<char>) -> Option<(Seq<char>, Seq<char>)> {
    let d = next_index_of(m, 0, '.');
    let ip = m.subrange(0, d);
    let fp = if d < m.len() {
        m.subrange(d + 1, m.len() as int)
    } else {
        Seq::empty()
    };
    if all_digits(ip) && all_digits(fp) && ip.len() + fp.len() > 0 {
        Some((ip, fp))
    } else {
        None
    }
}

/// The value of an exponent `[+|-] digits`.
pub open spec fn exponent_value(x: Seq<char>) -> Option<int> {
    let (neg, d) = sign_split(x);
    if d.len() > 0 && all_digits(d) {
        Some(
            if neg {
                -(digits_value(d) as int)
            } else {
                digits_value(d) as int
            },
        )
    } else {
        None
    }
}

/// Where the exponent marker `e` or `E` stands, or the length of `b`.
pub open spec fn exp_mark(b: Seq<char>) -> int {
    let x = next_index_of(b, 0, 'e');
    let y = next_index_of(b, 0, 'E');
    if x <= y {
        x
    } else {
        y
    }
}

/// Floating-point text, as `f64`'s `FromStr` reads it.
pub ghost enum FloatText {
    /// `ip.fp × 10^exp`, negative where `neg`.
    Finite { neg: bool, ip: Seq<char>, fp: Seq<char>, exp: int },
    Infinite { neg: bool },
    NotANumber,
}

/// Read `[+|-] (inf | infinity | nan | digits [. digits] [(e|E) [+|-] digits])`,
/// the words in any case, with at least one mantissa digit.
pub open spec fn float_text(s: Seq<char>) -> Option<FloatText> {
    let (neg, body) = sign_split(s);
    if eq_ignore_case(body, seq!['i', 'n', 'f']) || eq_ignore_case(
        body,
        seq!['i', 'n', 'f', 'i', 'n', 'i', 't', 'y'],
    ) {
        Some(FloatText::Infinite { neg })
    } else if eq_ignore_case(body, seq!['n', 'a', 'n']) {
        Some(FloatText::NotANumber)
    } else {
        let x = exp_mark(body);
        let e = if x < body.len() {
            exponent_value(body.subrange(x + 1, body.len() as int))
        } else {
            Some(0int)
        };
        match (mantissa_parts(body.subrange(0, x)), e) {
            (Some((ip, fp)), Some(exp)) => Some(FloatText::Finite { neg, ip, fp, exp }),
            _ => None,
        }
    }
}

pub open spec fn u64_max() -> int {
    0xffff_ffff_ffff_ffff
}

/// `n × mul × 10^e`, truncated toward zero.
pub open spec fn shifted(n: nat, e: int, mul: nat) -> nat {
    if e >= 0 {
        n * mul * pow10(e as nat)
    } else {
        (n * mul) / pow10((-e) as nat)
    }
}

/// `v` held to the range of `u64`.
pub open spec fn saturate(v: int) -> int {
    if v > u64_max() {
        u64_max()
    } else if v < 0 {
        0
    } else {
        v
    }
}

/// The value of a magnitude such as `12K`, `1.5Gi`, `1e3` or `42%` under table
/// `t`, or `None` where the text left after the unit is no floating-point number.
///
/// The number times the unit's multiplier is truncated toward zero and held to
/// the range of `u64`, as a cast from `f64` does: a negative value and NaN give
/// 0, a value past the range and positive infinity give `u64::MAX`. The
/// arithmetic is exact.
pub open spec fn magnitude(s: Seq<char>, t: UnitTable) -> Option<u64> {
    let (num, mul) = strip_unit(s, t);
    match float_text(num) {
        Some(FloatText::Finite { neg, ip, fp, exp }) => Some(
            (if neg {
                0
            } else {
                saturate(shifted(digits_value(ip + fp), exp - fp.len(), mul) as int)
            }) as u64,
        ),
        Some(FloatText::Infinite { neg }) => Some(
            (if neg {
                0
            } else {
                u64_max()
            }) as u64,
        ),
        Some(FloatText::NotANumber) => Some(0),
        None => None,
    }
}

fn suffix_count(t: UnitTable) -> (r: usize)
    ensures
        r == suffixes(t).len(),
{
    match t {
        UnitTable::Binary => 6,
        UnitTable::Mixed => 11,
    }
}

fn suffix_at(t: UnitTable, i: usize) -> (r: (Vec<char>, u64))
    requires
        i < suffixes(t).len(),
    ensures
        r.0@ == suffixes(t)[i as int].0,
        r.1 as nat == suffixes(t)[i as int].1,
        r.0@.len() > 0,
        1 <= r.1 <= kib(5),
{
    reveal_with_fuel(kib, 6);
    reveal_with_fuel(kilo, 6);
    let k: u64 = 1024;
    let d: u64 = 1000;
    match t {
        UnitTable::Binary => {
            if i == 0 {
                (vec!['B'], 1)
            } else if i == 1 {
                (vec!['K'], k)
            } else if i == 2 {
                (vec!['M'], k * k)
            } else if i == 3 {
                (vec!['G'], k * k * k)
            } else if i == 4 {
                (vec!['T'], k * k * k * k)
            } else {
                (vec!['P'], k * k * k * k * k)
            }
        },
        UnitTable::Mixed => {
            if i == 0 {
                (vec!['B'], 1)
            } else if i == 1 {
                (vec!['K'], d)
            } else if i == 2 {
                (vec!['M'], d * d)
            } else if i == 3 {
                (vec!['G'], d * d * d)
            } else if i == 4 {
                (vec!['T'], d * d * d * d)
            } else if i == 5 {
                (vec!['P'], d * d * d * d * d)
            } else if i == 6 {
                (vec!['K', 'i'], k)
            } else if i == 7 {
                (vec!['M', 'i'], k * k)
            } else if i == 8 {
                (vec!['G', 'i'], k * k * k)
            } else if i == 9 {
                (vec!['T', 'i'], k * k * k * k)
            } else {
                (vec!['P', 'i'], k * k * k * k * k)
            }
        },
    }
}

/// Whether `s[..n]` ends with `suf`.
fn ends_with_at(s: &Vec<char>, n: usize, suf: &Vec<char>) -> (r: bool)
    requires
        n <= s.len(),
    ensures
        r == ends_with(s@.subrange(0, n as int), suf@),
{
    if suf.len() > n {
        return false;
    }
    let off = n - suf.len();
    let mut i: usize = 0;
    while i < suf.len()
        invariant
            off + suf.len() == n <= s.len(),
            i <= suf.len(),
            forall|k: int| 0 <= k < i ==> s@[off + k] == suf@[k],
        decreases suf.len() - i,
    {
        if s[off + i] != suf[i] {
            assert(s@.subrange(0, n as int).subrange(off as int, n as int)[i as int] != suf@[i as int]);
            return false;
        }
        i = i + 1;
    }
    assert(s@.subrange(0, n as int).subrange(off as int, n as int) =~= suf@);
    true
}

/// The length of the numeric text of `s` under table `t`, and the multiplier.
fn strip_unit_len(s: &Vec<char>, t: UnitTable) -> (r: (usize, u64))
    ensures
        r.0 <= s.len(),
        1 <= r.1 <= kib(5),
        (s@.subrange(0, r.0 as int), r.1 as nat) == strip_unit(s@, t),
{
    let count = suffix_count(t);
    let mut i: usize = 0;
    let mut n: usize = s.len();
    let mut mul: u64 = 1;
    let mut found = false;
    assert(s@.subrange(0, s.len() as int) =~= s@);
    assert(kib(5) == 1024 * 1024 * 1024 * 1024 * 1024) by {
        reveal_with_fuel(kib, 6);
    }
    while i < count && !found
        invariant
            count == suffixes(t).len(),
            i <= count,
            1 <= mul <= kib(5),
            n <= s.len(),
            found ==> (s@.subrange(0, n as int), mul as nat) == strip_unit_from(
                s@,
                suffixes(t),
                0,
            ),
            !found ==> n == s.len() && mul == 1 && strip_unit_from(s@, suffixes(t), 0)
                == strip_unit_from(s@, suffixes(t), i as int),
        decreases count - i + (if found { 0int } else { 1int }),
    {
        let (suf, m) = suffix_at(t, i);
        assert(s@.subrange(0, s.len() as int) =~= s@);
        if ends_with_at(s, n, &suf) {
            assert(s@.subrange(0, n - suf.len()) =~= s@.subrange(0, n as int).subrange(
                0,
                n - suf.len(),
            ));
            n = n - suf.len();
            mul = m;
            found = true;
        } else {
            i = i + 1;
        }
    }
    let ghost stripped = strip_unit_from(s@, suffixes(t), 0);
    assert(s@.subrange(0, n as int) == stripped.0);
    if t == UnitTable::Binary {
        let pct = vec!['%'];
        assert(pct@ =~= seq!['%']);
        if ends_with_at(s, n, &pct) {
            assert(s@.subrange(0, n - 1) =~= s@.subrange(0, n as int).drop_last());
            n = n - 1;
        }
        assert(s@.subrange(0, n as int) == strip_unit(s@, t).0);
    }
    assert(mul as nat == strip_unit(s@, t).1);
    (n, mul)
}

/// A copy of `s[lo..hi]`.
pub fn copy_range(s: &Vec<char>, lo: usize, hi: usize) -> (r: Vec<char>)
    requires
        lo <= hi <= s.len(),
    ensures
        r@ == s@.subrange(lo as int, hi as int),
{
    let mut out: Vec<char> = Vec::new();
    let mut i: usize = lo;
    while i < hi
        invariant
            lo <= i <= hi <= s.len(),
            out@ == s@.subrange(lo as int, i as int),
        decreases hi - i,
    {
        out.push(s[i]);
        assert(out@ =~= s@.subrange(lo as int, i + 1));
        i = i + 1;
    }
    out
}

fn all_digits_exec(s: &Vec<char>) -> (r: bool)
    ensures
        r == all_digits(s@),
{
    let mut i: usize = 0;
    while i < s.len()
        invariant
            i <= s.len(),
            forall|k: int| 0 <= k < i ==> is_digit(#[trigger] s@[k]),
        decreases s.len() - i,
    {
        if !('0' <= s[i] && s[i] <= '9') {
            return false;
        }
        i = i + 1;
    }
    true
}

proof fn lemma_digits_prepend(c: char, s: Seq<char>)
    ensures
        digits_value(seq![c] + s) == digit_value(c) * pow10(s.len()) + digits_value(s),
    decreases s.len(),
{
    let cs = seq![c] + s;
    if s.len() == 0 {
        assert(cs.drop_last() =~= Seq::<char>::empty());
        assert(cs.last() == c);
        assert(pow10(0) == 1);
        assert(digit_value(c) * 1 == digit_value(c));
        assert(digits_value(cs) == digits_value(cs.drop_last()) * 10 + digit_value(cs.last()));
        assert(digits_value(Seq::<char>::empty()) == 0);
    } else {
        assert(cs.last() == s.last());
        assert(pow10(s.len()) == 10 * pow10((s.len() - 1) as nat));
        assert(cs.drop_last() =~= seq![c] + s.drop_last());
        lemma_digits_prepend(c, s.drop_last());
        let p = pow10((s.len() - 1) as nat);
        let dc = digit_value(c);
        let v = digits_value(s.drop_last());
        assert((dc * p + v) * 10 + digit_value(s.last()) == dc * (10 * p) + (v * 10
            + digit_value(s.last()))) by (nonlinear_arith);
        assert(digits_value(seq![c] + s.drop_last()) == dc * p + v);
        assert(digits_value(cs) == digits_value(cs.drop_last()) * 10 + digit_value(cs.last()));
        assert(digits_value(s) == v * 10 + digit_value(s.last()));
        assert(dc * pow10(s.len()) == dc * (10 * p));
        assert(digits_value(cs) == dc * pow10(s.len()) + digits_value(s));
    }
}

/// `min(value of the digits, cap)`.
fn integer_capped(s: &Vec<char>, cap: u128) -> (r: u128)
    requires
        all_digits(s@),
        1 <= cap <= 0x1_0000_0000_0000_0000_0000_0000,
    ensures
        r == if digits_value(s@) < cap {
            digits_value(s@) as int
        } else {
            cap as int
        },
{
    let mut acc: u128 = 0;
    let mut i: usize = 0;
    assert(s@.subrange(0, 0) =~= Seq::<char>::empty());
    while i < s.len()
        invariant
            i <= s.len(),
            all_digits(s@),
            1 <= cap <= 0x1_0000_0000_0000_0000_0000_0000,
            acc == if digits_value(s@.subrange(0, i as int)) < cap {
                digits_value(s@.subrange(0, i as int)) as int
            } else {
                cap as int
            },
        decreases s.len() - i,
    {
        let c = s[i];
        assert(is_digit(s@[i as int]));
        let d = (c as u32 - '0' as u32) as u128;
        assert(s@.subrange(0, i + 1).drop_last() =~= s@.subrange(0, i as int));
        let ghost prev = digits_value(s@.subrange(0, i as int));
        assert(digits_value(s@.subrange(0, i + 1)) == prev * 10 + d);
        let next = acc * 10 + d;
        if next < cap {
            acc = next;
        } else {
            acc = cap;
        }
        i = i + 1;
    }
    assert(s@.subrange(0, s.len() as int) =~= s@);
    acc
}

/// `value of the fraction digits * mul`, truncated: `digits * mul / 10^len`.
fn fraction_scaled(s: &Vec<char>, mul: u64) -> (r: u64)
    requires
        all_digits(s@),
        1 <= mul <= 0x4_0000_0000_0000,
    ensures
        r == (digits_value(s@) * (mul as nat)) / pow10(s@.len()),
        r < mul,
{
    let mut y: u64 = 0;
    let mut i: usize = s.len();
    let n = s.len();
    assert(s@.subrange(n as int, n as int) =~= Seq::<char>::empty());
    while i > 0
        invariant
            i <= n == s.len(),
            all_digits(s@),
            1 <= mul <= 0x4_0000_0000_0000,
            y < mul,
            y == (digits_value(s@.subrange(i as int, n as int)) * (mul as nat)) / pow10((n - i) as nat),
        decreases i,
    {
        let c = s[i - 1];
        assert(is_digit(s@[i - 1]));
        let d = (c as u32 - '0' as u32) as u64;
        let ghost tail = s@.subrange(i as int, n as int);
        let ghost v = digits_value(tail);
        let ghost p = pow10((n - i) as nat);
        proof {
            assert(s@.subrange(i - 1, n as int) =~= seq![c] + tail);
            lemma_digits_prepend(c, tail);
            assert(pow10((n - (i - 1)) as nat) == 10 * p);
            lemma_pow10_pos((n - i) as nat);
            lemma_hoist_over_denominator((v * mul) as int, (d * mul) as int, p);
            lemma_div_denominator((v * mul + d * mul * p) as int, p as int, 10);
            assert((d * p + v) * mul == v * mul + d * mul * p) by (nonlinear_arith);
            assert(d * mul + y < 10 * mul) by (nonlinear_arith)
                requires
                    d < 10,
                    y < mul,
            ;
        }
        y = (d * mul + y) / 10;
        i = i - 1;
    }
    assert(s@.subrange(0, n as int) =~= s@);
    y
}

proof fn lemma_pow10_pos(e: nat)
    ensures
        pow10(e) > 0,
    decreases e,
{
    if e > 0 {
        lemma_pow10_pos((e - 1) as nat);
    }
}

proof fn lemma_pow10_add(a: nat, b: nat)
    ensures
        pow10(a + b) == pow10(a) * pow10(b),
    decreases b,
{
    if b == 0 {
        assert(a + b == a);
        assert(pow10(0) == 1);
        assert(pow10(a) * 1 == pow10(a));
    } else {
        lemma_pow10_add(a, (b - 1) as nat);
        assert(pow10(a + b) == 10 * pow10((a + b - 1) as nat));
        assert(pow10(b) == 10 * pow10((b - 1) as nat));
        assert(pow10(a) * (10 * pow10((b - 1) as nat)) == 10 * (pow10(a) * pow10((b - 1) as nat)))
            by (nonlinear_arith);
    }
}

proof fn lemma_pow10_mono(a: nat, b: nat)
    requires
        a <= b,
    ensures
        pow10(a) <= pow10(b),
{
    lemma_pow10_add(a, (b - a) as nat);
    lemma_pow10_pos((b - a) as nat);
    lemma_pow10_pos(a);
    assert(pow10(a) * pow10((b - a) as nat) >= pow10(a)) by (nonlinear_arith)
        requires
            pow10((b - a) as nat) >= 1,
            pow10(a) >= 1,
    ;
}

proof fn lemma_pow10_facts()
    ensures
        pow10(16) == 10_000_000_000_000_000,
        pow10(19) == 10_000_000_000_000_000_000,
        pow10(20) == 100_000_000_000_000_000_000,
{
    reveal_with_fuel(pow10, 21);
}

proof fn lemma_digits_bound(s: Seq<char>)
    requires
        all_digits(s),
    ensures
        digits_value(s) < pow10(s.len()),
    decreases s.len(),
{
    if s.len() == 0 {
        assert(pow10(0) == 1);
    } else {
        assert(all_digits(s.drop_last())) by {
            assert forall|i: int| 0 <= i < s.drop_last().len() implies is_digit(
                #[trigger] s.drop_last()[i],
            ) by {
                assert(s.drop_last()[i] == s[i]);
            }
        }
        lemma_digits_bound(s.drop_last());
        let p = pow10((s.len() - 1) as nat);
        let v = digits_value(s.drop_last());
        let d = digit_value(s.last());
        assert(is_digit(s[s.len() - 1]));
        assert(d <= 9);
        assert(pow10(s.len()) == 10 * p);
        assert(v * 10 + d < 10 * p) by (nonlinear_arith)
            requires
                v < p,
                d <= 9,
        ;
    }
}

proof fn lemma_digits_append(a: Seq<char>, b: Seq<char>)
    ensures
        digits_value(a + b) == digits_value(a) * pow10(b.len()) + digits_value(b),
    decreases b.len(),
{
    if b.len() == 0 {
        assert(a + b =~= a);
        assert(pow10(0) == 1);
        assert(digits_value(b) == 0);
        assert(digits_value(a) * 1 == digits_value(a));
    } else {
        assert((a + b).drop_last() =~= a + b.drop_last());
        assert((a + b).last() == b.last());
        lemma_digits_append(a, b.drop_last());
        let p = pow10((b.len() - 1) as nat);
        let va = digits_value(a);
        let vb = digits_value(b.drop_last());
        let l = digit_value(b.last());
        assert(pow10(b.len()) == 10 * p);
        assert((va * p + vb) * 10 + l == va * (10 * p) + (vb * 10 + l)) by (nonlinear_arith);
        assert(digits_value(a + b) == digits_value((a + b).drop_last()) * 10 + digit_value(
            (a + b).last(),
        ));
        assert(digits_value(b) == vb * 10 + l);
    }
}

/// Far enough out, the exponent no longer changes the saturated value.
proof fn lemma_shift_stable(n: nat, len: nat, e1: int, e2: int, mul: nat)
    requires
        n < pow10(len),
        1 <= mul <= 0x4_0000_0000_0000,
        (e1 >= 20 && e2 >= 20) || (e1 <= -(len + 16) && e2 <= -(len + 16)),
    ensures
        saturate(shifted(n, e1, mul) as int) == saturate(shifted(n, e2, mul) as int),
{
    lemma_pow10_facts();
    if e1 >= 20 {
        if n > 0 {
            lemma_shift_large(n, e1, mul);
            lemma_shift_large(n, e2, mul);
        } else {
            assert(0 * mul * pow10(e1 as nat) == 0) by (nonlinear_arith);
            assert(0 * mul * pow10(e2 as nat) == 0) by (nonlinear_arith);
        }
    } else {
        lemma_shift_small(n, len, e1, mul);
        lemma_shift_small(n, len, e2, mul);
    }
}

proof fn lemma_shift_large(n: nat, e: int, mul: nat)
    requires
        n >= 1,
        mul >= 1,
        e >= 20,
    ensures
        shifted(n, e, mul) > u64_max(),
{
    lemma_pow10_facts();
    lemma_pow10_mono(20, e as nat);
    let p = pow10(e as nat);
    assert(n * mul * p >= p) by (nonlinear_arith)
        requires
            n >= 1,
            mul >= 1,
            p >= 0,
    ;
}

proof fn lemma_shift_small(n: nat, len: nat, e: int, mul: nat)
    requires
        n < pow10(len),
        1 <= mul <= 0x4_0000_0000_0000,
        e <= -(len + 16),
    ensures
        shifted(n, e, mul) == 0,
{
    lemma_pow10_facts();
    lemma_pow10_add(len, 16);
    lemma_pow10_mono(len + 16, (-e) as nat);
    let p = pow10(len);
    assert(n * mul < p * 10_000_000_000_000_000) by (nonlinear_arith)
        requires
            n < p,
            mul <= 0x4_0000_0000_0000,
    ;
    assert((n * mul) / pow10((-e) as nat) == 0) by (nonlinear_arith)
        requires
            n * mul < pow10((-e) as nat),
    ;
}

fn pow10_exec(e: u32) -> (r: u64)
    requires
        e <= 19,
    ensures
        r == pow10(e as nat),
{
    proof {
        lemma_pow10_facts();
    }
    let mut r: u64 = 1;
    let mut i: u32 = 0;
    while i < e
        invariant
            i <= e <= 19,
            r == pow10(i as nat),
            pow10(19) == 10_000_000_000_000_000_000,
        decreases e - i,
    {
        proof {
            lemma_pow10_mono((i + 1) as nat, 19);
        }
        r = r * 10;
        i = i + 1;
    }
    r
}

/// `value of the digits × mul × 10^e`, truncated and held to the range of `u64`.
fn scale_digits(d: &Vec<char>, e: i128, mul: u64) -> (r: u64)
    requires
        all_digits(d@),
        1 <= mul <= 0x4_0000_0000_0000,
        -0x1_0000_0000_0000_0000_0000_0000 < e < 0x1_0000_0000_0000_0000_0000_0000,
    ensures
        r == saturate(shifted(digits_value(d@), e as int, mul as nat) as int),
{
    let cap: u128 = 0x1_0000_0000_0000_0000;
    let ghost nv = digits_value(d@);
    let n = d.len();
    proof {
        lemma_pow10_facts();
        lemma_digits_bound(d@);
    }
    let nz = integer_capped(d, cap);
    if nz == 0 {
        assert(nv == 0);
        proof {
            if e >= 0 {
                assert(0nat * (mul as nat) * pow10(e as nat) == 0) by (nonlinear_arith);
            } else {
                assert(0nat * (mul as nat) == 0);
                lemma_pow10_pos((-e) as nat);
            }
        }
        return 0;
    }
    if e >= 0 {
        if e >= 20 {
            proof {
                lemma_shift_large(nv, e as int, mul as nat);
            }
            return 0xffff_ffff_ffff_ffff;
        }
        let p = pow10_exec(e as u32);
        proof {
            lemma_pow10_mono(e as nat, 19);
        }
        assert(nz * (p as u128) <= 0x1_0000_0000_0000_0000 * 10_000_000_000_000_000_000)
            by (nonlinear_arith)
            requires
                nz <= 0x1_0000_0000_0000_0000u128,
                p <= 10_000_000_000_000_000_000u64,
        ;
        let t0 = nz * (p as u128);
        let t1 = if t0 < cap {
            t0
        } else {
            cap
        };
        assert(t1 * (mul as u128) <= 0x1_0000_0000_0000_0000 * 0x4_0000_0000_0000)
            by (nonlinear_arith)
            requires
                t1 <= 0x1_0000_0000_0000_0000u128,
                mul <= 0x4_0000_0000_0000,
        ;
        let total = t1 * (mul as u128);
        proof {
            let x = nv * (p as nat);
            lemma_pow10_pos(e as nat);
            assert(nv * (mul as nat) * (p as nat) == x * (mul as nat)) by (nonlinear_arith)
                requires
                    x == nv * (p as nat),
            ;
            if t1 == cap {
                if nv >= cap {
                    assert(x >= cap) by (nonlinear_arith)
                        requires
                            x == nv * (p as nat),
                            nv >= cap,
                            p >= 1,
                    ;
                } else {
                    assert(t0 == x);
                }
                assert(x * (mul as nat) >= x) by (nonlinear_arith)
                    requires
                        mul >= 1,
                ;
                assert(total >= cap) by (nonlinear_arith)
                    requires
                        total == cap * (mul as u128),
                        mul >= 1,
                ;
            } else {
                if nv >= cap {
                    assert(nz * (p as u128) >= cap) by (nonlinear_arith)
                        requires
                            nz == cap,
                            p >= 1,
                    ;
                }
                assert(t1 == x);
            }
        }
        if total > 0xffff_ffff_ffff_ffff {
            return 0xffff_ffff_ffff_ffff;
        }
        return total as u64;
    }
    let m: i128 = -e;
    if m >= n as i128 + 16 {
        proof {
            lemma_shift_small(nv, n as nat, e as int, mul as nat);
        }
        return 0;
    }
    if m <= n as i128 {
        let cut = n - m as usize;
        let ip = copy_range(d, 0, cut);
        let fp = copy_range(d, cut, n);
        assert(d@ =~= ip@ + fp@);
        assert(all_digits(ip@)) by {
            assert forall|i: int| 0 <= i < ip@.len() implies is_digit(#[trigger] ip@[i]) by {
                assert(ip@[i] == d@[i]);
            }
        }
        assert(all_digits(fp@)) by {
            assert forall|i: int| 0 <= i < fp@.len() implies is_digit(#[trigger] fp@[i]) by {
                assert(fp@[i] == d@[cut + i]);
            }
        }
        let w = integer_capped(&ip, cap);
        let y = fraction_scaled(&fp, mul);
        assert(w * (mul as u128) <= 0x1_0000_0000_0000_0000 * 0x4_0000_0000_0000)
            by (nonlinear_arith)
            requires
                w <= 0x1_0000_0000_0000_0000u128,
                mul <= 0x4_0000_0000_0000,
        ;
        let total: u128 = w * (mul as u128) + y as u128;
        proof {
            let iv = digits_value(ip@);
            let fv = digits_value(fp@);
            let pp = pow10(fp@.len());
            lemma_digits_append(ip@, fp@);
            lemma_pow10_pos(fp@.len());
            assert(fp@.len() == m);
            assert(nv * (mul as nat) == fv * (mul as nat) + (iv * (mul as nat)) * pp)
                by (nonlinear_arith)
                requires
                    nv == iv * pp + fv,
            ;
            lemma_hoist_over_denominator((fv * (mul as nat)) as int, (iv * (mul as nat)) as int, pp);
            if iv >= cap {
                assert(iv * (mul as nat) >= cap) by (nonlinear_arith)
                    requires
                        iv >= cap,
                        mul >= 1,
                ;
                assert(w * (mul as u128) >= cap) by (nonlinear_arith)
                    requires
                        w == cap,
                        mul >= 1,
                ;
            }
        }
        if total > 0xffff_ffff_ffff_ffff {
            return 0xffff_ffff_ffff_ffff;
        }
        return total as u64;
    }
    let y = fraction_scaled(d, mul);
    let extra = (m - n as i128) as u32;
    let q = pow10_exec(extra);
    proof {
        lemma_pow10_pos(n as nat);
        lemma_pow10_pos(extra as nat);
        lemma_div_denominator((nv * (mul as nat)) as int, pow10(n as nat) as int, pow10(extra as nat) as int);
        lemma_pow10_add(n as nat, extra as nat);
        assert(y / q <= y) by (nonlinear_arith)
            requires
                q >= 1,
        ;
    }
    y / q
}

/// Whether `s` spells the lower-case word `w`, ignoring ASCII case.
fn eq_word(s: &Vec<char>, w: &Vec<char>) -> (r: bool)
    ensures
        r == eq_ignore_case(s@, w@),
{
    if s.len() != w.len() {
        return false;
    }
    let mut i: usize = 0;
    while i < s.len()
        invariant
            s.len() == w.len(),
            i <= s.len(),
            forall|k: int| 0 <= k < i ==> same_letter(s@[k], w@[k]),
        decreases s.len() - i,
    {
        let a = s[i];
        let b = w[i];
        if !(s[i] == w[i] || (s[i] as u32) as u64 + 32 == (w[i] as u32) as u64) {
            return false;
        }
        i = i + 1;
    }
    true
}

/// `a` followed by `b`.
fn concat(a: &Vec<char>, b: &Vec<char>) -> (r: Vec<char>)
    ensures
        r@ == a@ + b@,
{
    let mut out = copy_range(a, 0, a.len());
    let mut i: usize = 0;
    assert(a@.subrange(0, a.len() as int) =~= a@);
    while i < b.len()
        invariant
            i <= b.len(),
            out@ == a@ + b@.subrange(0, i as int),
        decreases b.len() - i,
    {
        out.push(b[i]);
        assert(out@ =~= a@ + b@.subrange(0, i + 1));
        i = i + 1;
    }
    assert(b@.subrange(0, b.len() as int) =~= b@);
    out
}

/// The value of the magnitude `s` under table `t`, or `None` where it is no number.
pub fn parse_magnitude(s: &Vec<char>, t: UnitTable) -> (r: Option<u64>)
    ensures
        r == magnitude(s@, t),
{
    let (n, mul) = strip_unit_len(s, t);
    let num = copy_range(s, 0, n);
    let signed = num.len() > 0 && (num[0] == '+' || num[0] == '-');
    let neg = signed && num[0] == '-';
    let st: usize = if signed {
        1
    } else {
        0
    };
    let body = copy_range(&num, st, num.len());
    assert(body@ =~= sign_split(num@).1);
    assert(neg == sign_split(num@).0);
    if eq_word(&body, &vec!['i', 'n', 'f']) || eq_word(
        &body,
        &vec!['i', 'n', 'f', 'i', 'n', 'i', 't', 'y'],
    ) {
        return if neg {
            Some(0)
        } else {
            Some(0xffff_ffff_ffff_ffff)
        };
    }
    if eq_word(&body, &vec!['n', 'a', 'n']) {
        return Some(0);
    }
    let xl = find_from(&body, 0, 'e');
    let xu = find_from(&body, 0, 'E');
    let x = if xl <= xu {
        xl
    } else {
        xu
    };
    let mant = copy_range(&body, 0, x);
    let e = if x < body.len() {
        let xs = copy_range(&body, x + 1, body.len());
        parse_exponent(&xs)
    } else {
        Some((false, 0u128))
    };
    let ghost ex = if x < body.len() {
        body@.subrange(x + 1, body@.len() as int)
    } else {
        Seq::empty()
    };
    let (eneg, ev) = match e {
        Some(p) => p,
        None => {
            return None;
        },
    };
    let (ip, fp) = match parse_mantissa(&mant) {
        Some(p) => p,
        None => {
            return None;
        },
    };
    if neg {
        return Some(0);
    }
    assert(kib(5) == 0x4_0000_0000_0000) by {
        reveal_with_fuel(kib, 6);
    }
    let ghost edv: nat = digits_value(sign_split(ex).1);
    Some(finite_value(&ip, &fp, eneg, ev, mul, Ghost(edv)))
}

/// Read an exponent `[+|-] digits`: its sign, and its digits' value capped at 2^70.
fn parse_exponent(xs: &Vec<char>) -> (r: Option<(bool, u128)>)
    ensures
        match r {
            None => exponent_value(xs@) is None,
            Some((neg, ev)) => {
                let d = sign_split(xs@).1;
                &&& exponent_value(xs@) is Some
                &&& all_digits(d)
                &&& neg == sign_split(xs@).0
                &&& ev == if digits_value(d) < 0x40_0000_0000_0000_0000 {
                    digits_value(d) as int
                } else {
                    0x40_0000_0000_0000_0000
                }
                &&& exponent_value(xs@)->Some_0 == if neg {
                    -(digits_value(d) as int)
                } else {
                    digits_value(d) as int
                }
            },
        },
{
    let esigned = xs.len() > 0 && (xs[0] == '+' || xs[0] == '-');
    let eneg = esigned && xs[0] == '-';
    let est: usize = if esigned {
        1
    } else {
        0
    };
    let ed = copy_range(xs, est, xs.len());
    assert(ed@ =~= sign_split(xs@).1);
    if !(ed.len() > 0 && all_digits_exec(&ed)) {
        return None;
    }
    Some((eneg, integer_capped(&ed, 0x40_0000_0000_0000_0000)))
}

/// Split `digits [. digits]` into integer and fraction digits.
fn parse_mantissa(m: &Vec<char>) -> (r: Option<(Vec<char>, Vec<char>)>)
    ensures
        match r {
            None => mantissa_parts(m@) is None,
            Some((ip, fp)) => mantissa_parts(m@) == Some((ip@, fp@)),
        },
{
    let dpos = find_from(m, 0, '.');
    let ip = copy_range(m, 0, dpos);
    let fp = if dpos < m.len() {
        copy_range(m, dpos + 1, m.len())
    } else {
        Vec::new()
    };
    assert(fp@ =~= (if dpos < m.len() {
        m@.subrange(dpos + 1, m.len() as int)
    } else {
        Seq::<char>::empty()
    }));
    if !(all_digits_exec(&ip) && all_digits_exec(&fp) && ip.len() + fp.len() > 0) {
        return None;
    }
    Some((ip, fp))
}

/// `ip.fp × 10^(±edv) × mul`, truncated and held to the range of `u64`, where
/// `ev` is the exponent `edv` capped at 2^70.
fn finite_value(
    ip: &Vec<char>,
    fp: &Vec<char>,
    eneg: bool,
    ev: u128,
    mul: u64,
    Ghost(edv): Ghost<nat>,
) -> (r: u64)
    requires
        all_digits(ip@),
        all_digits(fp@),
        1 <= mul <= 0x4_0000_0000_0000,
        ev == if edv < 0x40_0000_0000_0000_0000 {
            edv as int
        } else {
            0x40_0000_0000_0000_0000
        },
    ensures
        r == saturate(
            shifted(
                digits_value(ip@ + fp@),
                (if eneg {
                    -(edv as int)
                } else {
                    edv as int
                }) - fp@.len(),
                mul as nat,
            ) as int,
        ),
{
    let dgs = concat(ip, fp);
    assert(all_digits(dgs@)) by {
        assert forall|i: int| 0 <= i < dgs@.len() implies is_digit(#[trigger] dgs@[i]) by {
            if i < ip@.len() {
                assert(dgs@[i] == ip@[i]);
            } else {
                assert(dgs@[i] == fp@[i - ip@.len()]);
            }
        }
    }
    let k = fp.len() as i128;
    let e: i128 = if eneg {
        -(ev as i128) - k
    } else {
        ev as i128 - k
    };
    let r = scale_digits(&dgs, e, mul);
    let il = ip.len();
    let fl = fp.len();
    proof {
        let exact = (if eneg {
            -(edv as int)
        } else {
            edv as int
        }) - fp@.len();
        if edv >= 0x40_0000_0000_0000_0000 {
            assert(il == ip@.len() && fl == fp@.len());
            assert(dgs@.len() == ip@.len() + fp@.len());
            assert(k == fp@.len());
            assert(ev == 0x40_0000_0000_0000_0000);
            lemma_digits_bound(dgs@);
            lemma_shift_stable(digits_value(dgs@), dgs@.len(), exact, e as int, mul as nat);
        }
    }
    r
}

/// Read the magnitude `num` under table `t`; the error holds `num` itself.
pub fn parse_number_with(num: &str, t: UnitTable) -> (r: Result<u64, NumberFormatError>)
    ensures
        match r {
            Ok(v) => magnitude(num@, t) == Some(v),
            Err(e) => magnitude(num@, t) is None && e.token@ == num@,
        },
{
    let s = chars_of(num);
    match parse_magnitude(&s, t) {
        Some(v) => Ok(v),
        None => Err(NumberFormatError { token: num.to_owned() }),
    }
}

} // verus!
