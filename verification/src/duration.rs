//! Segment durations of HLS playlists, held as duration codes.
//!
//! An `#EXTINF:` duration is a decimal number of seconds, read as
//! `f64::from_str` reads a finite number: digits with an optional decimal
//! point and an optional exponent.  Its value is taken exactly: the code of a
//! duration is twice its whole nanoseconds, plus one when digits follow them
//! that are not all zero; durations of 10^18 nanoseconds or more share one
//! code.  Codes order durations as their values do, except that two durations
//! with the same whole nanoseconds that both have a fraction of one get the
//! same code.  Only positive durations count.  The comparisons with six and
//! seven seconds are exact on codes.
use vstd::prelude::*;
use crate::text::{
    chars_of, find, find_exec, lemma_find_from, lower, lower_vec, slice_vec, split, split_vec, strip_leading, strip_leading_vec, trim,
    trim_vec, views,
};

verus! {

broadcast use vstd::string::group_string_axioms;

pub open spec fn nanos_cap() -> nat {
    1_000_000_000_000_000_000
}

pub open spec fn is_digit(c: char) -> bool {
    '0' <= c && c <= '9'
}

pub open spec fn all_digits(s: Seq<char>) -> bool {
    forall|i: int| 0 <= i < s.len() ==> is_digit(#[trigger] s[i])
}

/// The number that a run of decimal digits denotes.
pub open spec fn digits_value(s: Seq<char>) -> nat
    decreases s.len(),
{
    if s.len() == 0 {
        0
    } else {
        digits_value(s.drop_last()) * 10 + ((s.last() as nat) - 48) as nat
    }
}

/// The digits of an exponent (`e` or `E` already removed): an optional sign
/// and at least one digit.
pub open spec fn exponent_value(e: Seq<char>) -> Option<int> {
    let neg = e.len() > 0 && e[0] == '-';
    let ds = if e.len() > 0 && (e[0] == '+' || e[0] == '-') {
        e.drop_first()
    } else {
        e
    };
    if ds.len() > 0 && all_digits(ds) {
        Some(
            if neg {
                0 - digits_value(ds)
            } else {
                digits_value(ds) as int
            },
        )
    } else {
        None
    }
}

/// The part of a number text before its exponent, and the exponent's text.
pub open spec fn mantissa_exponent(body: Seq<char>) -> (Seq<char>, Option<Seq<char>>) {
    match find(lower(body), seq!['e']) {
        Some(k) => (body.subrange(0, k), Some(body.subrange(k + 1, body.len() as int))),
        None => (body, None),
    }
}

/// The digits before and after the decimal point of a mantissa.
pub open spec fn point_parts(mant: Seq<char>) -> (Seq<char>, Seq<char>) {
    match find(mant, seq!['.']) {
        Some(k) => (mant.subrange(0, k), mant.subrange(k + 1, mant.len() as int)),
        None => (mant, Seq::<char>::empty()),
    }
}

/// A finite decimal number text as `f64::from_str` reads one: an optional
/// `+`, digits with at most one decimal point (at least one digit), and an
/// optional exponent.  Gives all the digits, how many stand before the
/// point, and the exponent.
pub open spec fn number_parts(t: Seq<char>) -> Option<(Seq<char>, int, int)> {
    let body = if t.len() > 0 && t[0] == '+' {
        t.drop_first()
    } else {
        t
    };
    let me = mantissa_exponent(body);
    let pp = point_parts(me.0);
    let x = match me.1 {
        None => Some(0int),
        Some(e) => exponent_value(e),
    };
    if all_digits(pp.0) && all_digits(pp.1) && pp.0.len() + pp.1.len() > 0 && x is Some {
        Some((pp.0 + pp.1, pp.0.len() as int, x->0))
    } else {
        None
    }
}

/// The number that the digits before place `p` denote, with zeros supplied
/// past the last digit.
pub open spec fn whole_before(d: Seq<char>, p: int) -> nat {
    if p <= 0 {
        0
    } else if p >= d.len() {
        digits_value(d) * pow10((p - d.len()) as nat)
    } else {
        digits_value(d.take(p))
    }
}

/// Some digit at or after place `p` is not zero.
pub open spec fn digits_after(d: Seq<char>, p: int) -> bool {
    exists|i: int| 0 <= i < d.len() && p <= i && d[i] != '0'
}

/// The code of a duration of `nanos` whole nanoseconds, with or without a
/// fraction of a nanosecond: twice the nanoseconds, plus one for a fraction.
/// Durations of 10^18 nanoseconds or more all get the code of 10^18.  Codes
/// order durations as their values do, but for two durations with the same
/// whole nanoseconds that both have a fraction.
pub open spec fn duration_code(nanos: nat, fraction: bool) -> nat {
    if nanos >= nanos_cap() {
        2 * nanos_cap()
    } else {
        2 * nanos + if fraction {
            1nat
        } else {
            0nat
        }
    }
}

/// The code of the positive duration that a number text of seconds denotes.
pub open spec fn positive_duration(t: Seq<char>) -> Option<u64> {
    match number_parts(t) {
        None => None,
        Some(p) => {
            let place = p.1 + p.2 + 9;
            let c = duration_code(whole_before(p.0, place), digits_after(p.0, place));
            if c > 0 {
                Some(c as u64)
            } else {
                None
            }
        },
    }
}

/// The duration text of an `#EXTINF:` line: after the tag (repeated tags
/// stripped), up to the first comma, trimmed.
pub open spec fn extinf_text(line: Seq<char>) -> Option<Seq<char>> {
    let trimmed = trim(line);
    if !"#EXTINF:"@.is_prefix_of(trimmed) {
        None
    } else {
        Some(trim(split(strip_leading(trimmed, "#EXTINF:"@), seq![','])[0]))
    }
}

/// The code of the positive duration that an `#EXTINF:` line gives its segment.
pub open spec fn extinf_duration(line: Seq<char>) -> Option<u64> {
    match extinf_text(line) {
        Some(t) => positive_duration(t),
        None => None,
    }
}

proof fn lemma_split_nonempty(s: Seq<char>, sep: Seq<char>)
    ensures
        split(s, sep).len() > 0,
    decreases s.len(),
{
}

pub fn extinf_duration_exec(line: &Vec<char>) -> (r: Option<u64>)
    ensures
        r == extinf_duration(line@),
{
    let trimmed = trim_vec(line);
    let tag = chars_of("#EXTINF:");
    let rest = strip_leading_vec(&trimmed, &tag);
    if !crate::text::starts_with_exec(&trimmed, &tag) {
        return None;
    }
    let mut comma: Vec<char> = Vec::new();
    comma.push(',');
    assert(comma@ =~= seq![',']);
    let pieces = split_vec(&rest, &comma);
    proof {
        lemma_split_nonempty(rest@, comma@);
        assert(views(pieces@)[0] == pieces@[0]@);
    }
    let value = trim_vec(&pieces[0]);
    positive_duration_exec(&value)
}

fn all_digits_exec(s: &Vec<char>) -> (r: bool)
    ensures
        r == all_digits(s@),
{
    let mut i: usize = 0;
    while i < s.len()
        invariant
            i <= s.len(),
            forall|j: int| 0 <= j < i ==> is_digit(#[trigger] s@[j]),
        decreases s.len() - i,
    {
        if !('0' <= s[i] && s[i] <= '9') {
            assert(!is_digit(s@[i as int]));
            return false;
        }
        i += 1;
    }
    true
}

/// The bound beyond which an exponent makes no difference here.
pub open spec fn exponent_bound() -> int {
    100_000_000_000_000_000_000
}

pub open spec fn clamp_exponent(x: int) -> int {
    if x > exponent_bound() {
        exponent_bound()
    } else if x < -exponent_bound() {
        -exponent_bound()
    } else {
        x
    }
}

proof fn lemma_digits_step(s: Seq<char>, i: int)
    requires
        0 <= i < s.len(),
    ensures
        digits_value(s.take(i + 1)) == digits_value(s.take(i)) * 10 + ((s[i] as nat) - 48) as nat,
{
    assert(s.take(i + 1).drop_last() =~= s.take(i));
    assert(s.take(i + 1).last() == s[i]);
}

fn exponent_exec(e: &Vec<char>) -> (r: Option<i128>)
    ensures
        match r {
            Some(x) => exponent_value(e@) is Some && x == clamp_exponent(exponent_value(e@)->0),
            None => exponent_value(e@) is None,
        },
{
    let neg = e.len() > 0 && e[0] == '-';
    let ds = if e.len() > 0 && (e[0] == '+' || e[0] == '-') {
        let b = slice_vec(e, 1, e.len());
        assert(b@ =~= e@.drop_first());
        b
    } else {
        e.clone()
    };
    if ds.len() == 0 || !all_digits_exec(&ds) {
        return None;
    }
    let bound: u128 = 100_000_000_000_000_000_000;
    let mut acc: u128 = 0;
    let mut i: usize = 0;
    while i < ds.len()
        invariant
            i <= ds.len(),
            all_digits(ds@),
            bound == exponent_bound(),
            acc == if digits_value(ds@.take(i as int)) < exponent_bound() {
                digits_value(ds@.take(i as int))
            } else {
                exponent_bound() as nat
            },
        decreases ds.len() - i,
    {
        proof {
            lemma_digits_step(ds@, i as int);
            assert(is_digit(ds@[i as int]));
        }
        let d = (ds[i] as u128) - 48;
        let next = acc * 10 + d;
        acc = if next < bound {
            next
        } else {
            bound
        };
        i += 1;
    }
    assert(ds@.take(ds.len() as int) =~= ds@);
    if neg {
        Some(0 - (acc as i128))
    } else {
        Some(acc as i128)
    }
}

pub open spec fn capped(n: nat) -> nat {
    if n < nanos_cap() {
        n
    } else {
        nanos_cap()
    }
}

pub open spec fn prefix_value(d: Seq<char>, i: int, place: int) -> nat {
    if place <= 0 {
        0
    } else if i <= place {
        digits_value(d.take(i))
    } else {
        digits_value(d.take(place))
    }
}

proof fn lemma_pow10_at_least(k: nat)
    requires
        k >= 18,
    ensures
        pow10(k) >= nanos_cap(),
    decreases k,
{
    if k == 18 {
        reveal_with_fuel(pow10, 19);
    } else {
        lemma_pow10_at_least((k - 1) as nat);
    }
}

proof fn lemma_pow10_positive(k: nat)
    ensures
        pow10(k) >= 1,
    decreases k,
{
    if k > 0 {
        lemma_pow10_positive((k - 1) as nat);
    }
}

/// The capped whole nanoseconds before place `place`, and whether a digit
/// that is not zero follows them.
fn whole_and_fraction(d: &Vec<char>, place: i128) -> (r: (u64, bool))
    requires
        all_digits(d@),
    ensures
        r.0 == capped(whole_before(d@, place as int)),
        r.1 == digits_after(d@, place as int),
{
    let cap: u64 = 1_000_000_000_000_000_000;
    let mut acc: u64 = 0;
    let mut more = false;
    let mut i: usize = 0;
    while i < d.len()
        invariant
            i <= d.len(),
            all_digits(d@),
            cap == nanos_cap(),
            acc == capped(prefix_value(d@, i as int, place as int)),
            more == exists|j: int| 0 <= j < i && place <= j && d@[j] != '0',
        decreases d.len() - i,
    {
        let c = d[i];
        proof {
            assert(is_digit(d@[i as int]));
            lemma_digits_step(d@, i as int);
        }
        if (i as i128) < place {
            let next = acc * 10 + ((c as u64) - 48);
            acc = if next < cap {
                next
            } else {
                cap
            };
        } else if c != '0' {
            more = true;
        }
        i += 1;
        proof {
            assert(more == exists|j: int| 0 <= j < i && place <= j && d@[j] != '0') by {
                if more {
                    if c != '0' && place <= i - 1 {
                        assert(d@[i - 1] != '0');
                    }
                }
            }
        }
    }
    assert(d@.take(d.len() as int) =~= d@);
    let n = d.len() as i128;
    proof {
        assert(pow10(0) == 1);
        assert(digits_value(d@) * 1 == digits_value(d@));
        assert(prefix_value(d@, n as int, place as int) == whole_before(d@, place as int) || place > n);
    }
    if place > n && acc > 0 {
        let k = place - n;
        proof {
            assert(digits_value(d@) >= 1);
        }
        if k >= 18 {
            proof {
                lemma_pow10_at_least((place - n) as nat);
                let dv = digits_value(d@);
                let pk = pow10((place - n) as nat);
                assert(dv * pk >= nanos_cap()) by (nonlinear_arith)
                    requires
                        dv >= 1,
                        pk >= nanos_cap(),
                ;
            }
            acc = cap;
        } else {
            let mut j: i128 = 0;
            while j < k
                invariant
                    0 <= j <= k,
                    k == place - n,
                    cap == nanos_cap(),
                    acc == capped(digits_value(d@) * pow10(j as nat)),
                decreases k - j,
            {
                proof {
                    let dv = digits_value(d@);
                    let pj = pow10(j as nat);
                    assert(pow10((j + 1) as nat) == 10 * pj);
                    assert(dv * (10 * pj) == 10 * (dv * pj)) by (nonlinear_arith);
                }
                let next = acc * 10;
                acc = if next < cap {
                    next
                } else {
                    cap
                };
                j += 1;
            }
        }
    } else if place > n {
        proof {
            let pk = pow10((place - n) as nat);
            assert(digits_value(d@) == 0);
            assert(0 * pk == 0) by (nonlinear_arith);
        }
    }
    proof {
        if place > n {
            assert forall|j: int| 0 <= j < d@.len() && place <= j implies d@[j] == '0' by {}
        }
    }
    (acc, more)
}

proof fn lemma_clamped_place(d: Seq<char>, il: int, xs: int)
    requires
        0 <= il <= d.len() <= usize::MAX,
    ensures
        capped(whole_before(d, il + clamp_exponent(xs) + 9)) == capped(whole_before(d, il + xs + 9)),
        digits_after(d, il + clamp_exponent(xs) + 9) == digits_after(d, il + xs + 9),
{
    let place = il + clamp_exponent(xs) + 9;
    let p_spec = il + xs + 9;
    if xs > exponent_bound() {
        assert(place - d.len() >= 18 && p_spec - d.len() >= 18);
        lemma_pow10_at_least((place - d.len()) as nat);
        lemma_pow10_at_least((p_spec - d.len()) as nat);
        let pa = pow10((place - d.len()) as nat);
        let pb = pow10((p_spec - d.len()) as nat);
        let v = digits_value(d);
        if v >= 1 {
            assert(v * pa >= nanos_cap() && v * pb >= nanos_cap()) by (nonlinear_arith)
                requires
                    v >= 1,
                    pa >= nanos_cap(),
                    pb >= nanos_cap(),
            ;
        } else {
            assert(v * pa == 0 && v * pb == 0) by (nonlinear_arith)
                requires
                    v == 0,
            ;
        }
    }
}

#[verifier::rlimit(40)]
fn positive_duration_exec(t: &Vec<char>) -> (r: Option<u64>)
    ensures
        r == positive_duration(t@),
{
    let body = if t.len() > 0 && t[0] == '+' {
        let b = slice_vec(t, 1, t.len());
        assert(b@ =~= t@.drop_first());
        b
    } else {
        t.clone()
    };
    let lowered = lower_vec(&body);
    let mut e_char: Vec<char> = Vec::new();
    e_char.push('e');
    assert(e_char@ =~= seq!['e']);
    proof {
        lemma_find_from(lowered@, e_char@, 0);
    }
    let n = body.len();
    let (mant, exp_text) = match find_exec(&lowered, &e_char) {
        Some(k) => (slice_vec(&body, 0, k), Some(slice_vec(&body, k + 1, n))),
        None => (body.clone(), None),
    };
    let mut dot: Vec<char> = Vec::new();
    dot.push('.');
    assert(dot@ =~= seq!['.']);
    proof {
        lemma_find_from(mant@, dot@, 0);
    }
    let (int_part, frac_part) = match find_exec(&mant, &dot) {
        Some(k) => {
            let m = mant.len();
            (slice_vec(&mant, 0, k), slice_vec(&mant, k + 1, m))
        },
        None => (mant.clone(), Vec::new()),
    };
    assert(frac_part@.len() == 0 ==> frac_part@ =~= Seq::<char>::empty());
    let x: i128 = match &exp_text {
        None => 0,
        Some(e) => match exponent_exec(e) {
            Some(v) => v,
            None => {
                return None;
            },
        },
    };
    if int_part.len() + frac_part.len() == 0 || !all_digits_exec(&int_part) || !all_digits_exec(&frac_part) {
        return None;
    }
    let digits = crate::text::concat_vec(&int_part, &frac_part);
    assert(all_digits(digits@)) by {
        assert forall|j: int| 0 <= j < digits@.len() implies is_digit(#[trigger] digits@[j]) by {
            if j < int_part@.len() {
                assert(digits@[j] == int_part@[j]);
            } else {
                assert(digits@[j] == frac_part@[j - int_part@.len()]);
            }
        }
    }
    let place: i128 = (int_part.len() as i128) + x + 9;
    let (whole, more) = whole_and_fraction(&digits, place);
    proof {
        let me = mantissa_exponent(body@);
        assert(me.0 == mant@);
        let pp = point_parts(mant@);
        assert(pp.0 == int_part@ && pp.1 == frac_part@);
        let xs: int = match me.1 {
            None => 0int,
            Some(e) => exponent_value(e)->0,
        };
        assert(x == clamp_exponent(xs));
        lemma_clamped_place(digits@, int_part@.len() as int, xs);
    }
    let code: u64 = if whole >= 1_000_000_000_000_000_000 {
        2_000_000_000_000_000_000
    } else {
        2 * whole + if more {
            1
        } else {
            0
        }
    };
    if code > 0 {
        Some(code)
    } else {
        None
    }
}

pub open spec fn pow10(n: nat) -> nat
    decreases n,
{
    if n == 0 {
        1
    } else {
        10 * pow10((n - 1) as nat)
    }
}


/// `x` placed after every element of the sorted `s` that is not greater.
pub open spec fn insert_sorted(s: Seq<u64>, x: u64) -> Seq<u64>
    decreases s.len(),
{
    if s.len() == 0 {
        seq![x]
    } else if s.last() <= x {
        s.push(x)
    } else {
        insert_sorted(s.drop_last(), x).push(s.last())
    }
}

/// The values in ascending order.
pub open spec fn sorted_values(s: Seq<u64>) -> Seq<u64>
    decreases s.len(),
{
    if s.len() == 0 {
        seq![]
    } else {
        insert_sorted(sorted_values(s.drop_last()), s.last())
    }
}

/// The middle duration of at least six (the one at index `len / 2` in ascending order).
pub open spec fn median(s: Seq<u64>) -> Option<u64> {
    if s.len() < 6 {
        None
    } else {
        Some(sorted_values(s)[(s.len() / 2) as int])
    }
}

proof fn lemma_insert_sorted_at(s: Seq<u64>, x: u64, p: int)
    requires
        0 <= p <= s.len(),
        forall|j: int| p <= j < s.len() ==> s[j] > x,
        p == 0 || s[p - 1] <= x,
    ensures
        insert_sorted(s, x) == s.insert(p, x),
    decreases s.len(),
{
    if s.len() == 0 {
        assert(s.insert(p, x) =~= seq![x]);
    } else if p == s.len() {
        assert(s.insert(p, x) =~= s.push(x));
    } else {
        lemma_insert_sorted_at(s.drop_last(), x, p);
        assert(s.drop_last().insert(p, x).push(s.last()) =~= s.insert(p, x));
    }
}

pub fn sorted_values_exec(v: &Vec<u64>) -> (r: Vec<u64>)
    ensures
        r@ == sorted_values(v@),
        r@.len() == v@.len(),
{
    let mut sorted: Vec<u64> = Vec::new();
    let mut i: usize = 0;
    while i < v.len()
        invariant
            i <= v.len(),
            sorted@ == sorted_values(v@.take(i as int)),
            sorted@.len() == i,
        decreases v.len() - i,
    {
        let x = v[i];
        let mut p = sorted.len();
        while p > 0 && sorted[p - 1] > x
            invariant
                p <= sorted.len(),
                forall|j: int| p <= j < sorted@.len() ==> sorted@[j] > x,
            decreases p,
        {
            p -= 1;
        }
        proof {
            lemma_insert_sorted_at(sorted@, x, p as int);
            assert(v@.take(i + 1).drop_last() =~= v@.take(i as int));
        }
        sorted.insert(p, x);
        i += 1;
    }
    assert(v@.take(v.len() as int) =~= v@);
    sorted
}

pub fn median_exec(v: &Vec<u64>) -> (r: Option<u64>)
    ensures
        r == median(v@),
{
    if v.len() < 6 {
        return None;
    }
    let sorted = sorted_values_exec(v);
    Some(sorted[v.len() / 2])
}

proof fn lemma_insert_sorted_props(s: Seq<u64>, x: u64)
    requires
        forall|i: int, j: int| 0 <= i < j < s.len() ==> s[i] <= s[j],
    ensures
        forall|i: int, j: int| 0 <= i < j < insert_sorted(s, x).len() ==> insert_sorted(s, x)[i] <= insert_sorted(s, x)[j],
        insert_sorted(s, x).to_multiset() == s.to_multiset().insert(x),
    decreases s.len(),
{
    broadcast use vstd::seq_lib::group_to_multiset_ensures;
    if s.len() == 0 {
        assert(seq![x] =~= s.push(x));
    } else {
        let init = s.drop_last();
        assert(init.push(s.last()) =~= s);
        if s.last() > x {
            lemma_insert_sorted_props(init, x);
            let rest = insert_sorted(init, x);
            assert forall|i: int| 0 <= i < rest.len() implies rest[i] <= s.last() by {
                let y = rest[i];
                assert(rest.contains(y));
                assert(rest.to_multiset().count(y) > 0);
                if y != x {
                    assert(init.to_multiset().count(y) > 0);
                    assert(init.contains(y));
                    let k = choose|k: int| 0 <= k < init.len() && init[k] == y;
                    assert(s[k] == y);
                }
            }
        }
    }
}

/// Sorting the durations orders them ascending and keeps every one of them,
/// so the median, when there is one, is one of the durations.
pub proof fn law_sorted_values(s: Seq<u64>)
    ensures
        forall|i: int, j: int| 0 <= i < j < sorted_values(s).len() ==> sorted_values(s)[i] <= sorted_values(s)[j],
        sorted_values(s).to_multiset() == s.to_multiset(),
        median(s) matches Some(m) ==> s.contains(m),
    decreases s.len(),
{
    broadcast use vstd::seq_lib::group_to_multiset_ensures;
    if s.len() > 0 {
        law_sorted_values(s.drop_last());
        lemma_insert_sorted_props(sorted_values(s.drop_last()), s.last());
        assert(s.drop_last().push(s.last()) =~= s);
    }
    if s.len() >= 6 {
        let m = sorted_values(s)[(s.len() / 2) as int];
        assert(sorted_values(s).len() == s.len()) by {
            assert(sorted_values(s).to_multiset().len() == s.to_multiset().len());
        }
        assert(sorted_values(s).contains(m));
        assert(sorted_values(s).to_multiset().count(m) > 0);
    }
}

} // verus!
