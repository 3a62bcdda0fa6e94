use vstd::prelude::*;

verus! {

use vstd::arithmetic::div_mod::{lemma_div_pos_is_pos, lemma_multiply_divide_le};
use vstd::arithmetic::mul::{lemma_mul_inequality, lemma_mul_upper_bound};
use crate::fixed::{Fixed, div_trunc};

/// A piecewise-linear membership curve: how strongly a scalar input belongs
/// to the named `category`. The `points` are expected sorted ascending by
/// their first coordinate; an unsorted curve still yields a deterministic
/// value (the linear scan below), it is simply not meaningful.
#[derive(Clone, Debug)]
pub struct FuzzySet {
    pub category: u64,
    pub points: Vec<(Fixed, Fixed)>,
}

/// Linear interpolation `y1 + (y2 - y1) * (x - x1) / (x2 - x1)` on scalars in
/// millionths, with the division rounded toward zero.
pub open spec fn interp_spec(x1: int, y1: int, x2: int, y2: int, x: int) -> int
    recommends
        x1 <= x <= x2,
        x1 < x2,
{
    if y2 >= y1 {
        y1 + (y2 - y1) * (x - x1) / (x2 - x1)
    } else {
        y1 - (y1 - y2) * (x - x1) / (x2 - x1)
    }
}

/// The scan of consecutive point pairs from index `i` on: the first segment
/// with `x1 <= x <= x2` decides the value (the earlier point's value when the
/// segment is vertical), and zero is left when no segment matches.
pub open spec fn scan_from(points: Seq<(Fixed, Fixed)>, x: int, i: int) -> int
    decreases points.len() - i,
{
    if i < 0 || i + 1 >= points.len() {
        0
    } else {
        let x1 = points[i].0.micros as int;
        let y1 = points[i].1.micros as int;
        let x2 = points[i + 1].0.micros as int;
        let y2 = points[i + 1].1.micros as int;
        if x1 <= x && x <= x2 {
            if x1 == x2 {
                y1
            } else {
                interp_spec(x1, y1, x2, y2, x)
            }
        } else {
            scan_from(points, x, i + 1)
        }
    }
}

/// The membership degree of input `x` (in millionths) on a curve: zero on an
/// empty curve, flat extrapolation outside the domain, and otherwise the
/// segment scan.
pub open spec fn membership_spec(points: Seq<(Fixed, Fixed)>, x: int) -> int {
    if points.len() == 0 {
        0
    } else if x <= points[0].0.micros as int {
        points[0].1.micros as int
    } else if x >= points[points.len() - 1].0.micros as int {
        points[points.len() - 1].1.micros as int
    } else {
        scan_from(points, x, 0)
    }
}

/// Law: a curve of a single point is constant — every input has that point's
/// membership degree, by flat extrapolation in both directions.
pub proof fn lemma_single_point_constant(points: Seq<(Fixed, Fixed)>, x: int)
    requires
        points.len() == 1,
    ensures
        membership_spec(points, x) == points[0].1.micros as int,
{
}

/// Exact interpolation on one non-vertical segment, in machine integers.
fn interp_exec(x1: i32, y1: i32, x2: i32, y2: i32, x: i32) -> (r: i32)
    requires
        x1 <= x <= x2,
        x1 < x2,
    ensures
        r as int == interp_spec(x1 as int, y1 as int, x2 as int, y2 as int, x as int),
{
    let run: i64 = x2 as i64 - x1 as i64;
    let t: i64 = x as i64 - x1 as i64;
    if y2 >= y1 {
        let dy: i64 = y2 as i64 - y1 as i64;
        proof {
            lemma_mul_upper_bound(dy as int, 0x1_0000_0000, t as int, 0x1_0000_0000);
        }
        let prod: u128 = (dy as u128) * (t as u128);
        let q: u128 = prod / (run as u128);
        proof {
            lemma_div_pos_is_pos(prod as int, run as int);
            lemma_mul_inequality(t as int, run as int, dy as int);
            lemma_multiply_divide_le(prod as int, run as int, dy as int);
        }
        let res: i64 = y1 as i64 + q as i64;
        res as i32
    } else {
        let dy: i64 = y1 as i64 - y2 as i64;
        proof {
            lemma_mul_upper_bound(dy as int, 0x1_0000_0000, t as int, 0x1_0000_0000);
        }
        let prod: u128 = (dy as u128) * (t as u128);
        let q: u128 = prod / (run as u128);
        proof {
            lemma_div_pos_is_pos(prod as int, run as int);
            lemma_mul_inequality(t as int, run as int, dy as int);
            lemma_multiply_divide_le(prod as int, run as int, dy as int);
        }
        let res: i64 = y1 as i64 - q as i64;
        res as i32
    }
}

/// The value paired with the first occurrence of key `k`, if any. Sequences
/// of key-value pairs with unique keys are this library's mappings.
pub open spec fn assoc<V>(s: Seq<(u64, V)>, k: u64) -> Option<V>
    decreases s.len(),
{
    if s.len() == 0 {
        None
    } else if s[0].0 == k {
        Some(s[0].1)
    } else {
        assoc(s.drop_first(), k)
    }
}

/// No two pairs of the sequence share a key.
pub open spec fn unique_keys<V>(s: Seq<(u64, V)>) -> bool {
    forall|i: int, j: int| 0 <= i < j < s.len() ==> s[i].0 != s[j].0
}

/// The mapping that a key-value sequence stands for.
pub open spec fn map_of<V>(s: Seq<(u64, V)>) -> Map<u64, V> {
    Map::new(|k: u64| assoc(s, k).is_some(), |k: u64| assoc(s, k).unwrap())
}

/// Skipping a pair whose key is not `k` leaves the association unchanged.
proof fn lemma_assoc_skip_step<V>(s: Seq<(u64, V)>, k: u64, j: int)
    requires
        0 <= j < s.len(),
        s[j].0 != k,
    ensures
        assoc(s.skip(j), k) == assoc(s.skip(j + 1), k),
{
    assert(s.skip(j)[0] == s[j]);
    assert(s.skip(j).drop_first() =~= s.skip(j + 1));
}

/// Appending a pair leaves every earlier association in place and serves key
/// `k0` only where it was absent.
proof fn lemma_assoc_push<V>(s: Seq<(u64, V)>, k0: u64, v0: V, k: u64)
    ensures
        assoc(s.push((k0, v0)), k) == if assoc(s, k).is_some() {
            assoc(s, k)
        } else if k0 == k {
            Some(v0)
        } else {
            None::<V>
        },
    decreases s.len(),
{
    if s.len() == 0 {
        assert(s.push((k0, v0)).drop_first() =~= s);
    } else {
        assert(s.push((k0, v0))[0] == s[0]);
        assert(s.push((k0, v0)).drop_first() =~= s.drop_first().push((k0, v0)));
        lemma_assoc_push(s.drop_first(), k0, v0, k);
    }
}

/// Overwriting the value at position `m`, keeping its key, changes exactly
/// that key's association, provided keys are unique.
proof fn lemma_assoc_update<V>(s: Seq<(u64, V)>, m: int, v0: V, k: u64)
    requires
        0 <= m < s.len(),
        unique_keys(s),
    ensures
        assoc(s.update(m, (s[m].0, v0)), k) == if k == s[m].0 {
            Some(v0)
        } else {
            assoc(s, k)
        },
    decreases s.len(),
{
    let u = s.update(m, (s[m].0, v0));
    if m == 0 {
        assert(u[0] == (s[0].0, v0));
        if s[0].0 != k {
            assert(u.drop_first() =~= s.drop_first());
        }
    } else {
        assert(u[0] == s[0]);
        if s[0].0 == k {
            assert(s[0].0 != s[m].0);
        } else {
            assert(u.drop_first() =~= s.drop_first().update(m - 1, (s[m].0, v0)));
            assert(unique_keys(s.drop_first())) by {
                assert(forall|i: int, j: int|
                    0 <= i < j < s.drop_first().len() ==> s.drop_first()[i] == s[i + 1]
                        && s.drop_first()[j] == s[j + 1]);
            }
            assert(s.drop_first()[m - 1] == s[m]);
            lemma_assoc_update(s.drop_first(), m - 1, v0, k);
        }
    }
}

/// Under unique keys, any pair of the sequence decides the association of its
/// key.
proof fn lemma_assoc_witness<V>(s: Seq<(u64, V)>, k: u64, m: int)
    requires
        unique_keys(s),
        0 <= m < s.len(),
        s[m].0 == k,
    ensures
        assoc(s, k) == Some(s[m].1),
    decreases s.len(),
{
    if m > 0 {
        assert(s[0].0 != k);
        assert(unique_keys(s.drop_first())) by {
            assert(forall|i: int, j: int|
                0 <= i < j < s.drop_first().len() ==> s.drop_first()[i] == s[i + 1]
                    && s.drop_first()[j] == s[j + 1]);
        }
        assert(s.drop_first()[m - 1] == s[m]);
        lemma_assoc_witness(s.drop_first(), k, m - 1);
    }
}

/// A key that no pair holds has no association.
proof fn lemma_assoc_absent<V>(s: Seq<(u64, V)>, k: u64)
    requires
        forall|m: int| 0 <= m < s.len() ==> s[m].0 != k,
    ensures
        assoc(s, k).is_none(),
    decreases s.len(),
{
    if s.len() > 0 {
        assert(forall|m: int|
            0 <= m < s.drop_first().len() ==> s.drop_first()[m] == s[m + 1]);
        lemma_assoc_absent(s.drop_first(), k);
    }
}

/// Finds the position of key `k` in a key-value sequence, if present.
fn find_key<V>(entries: &Vec<(u64, V)>, k: u64) -> (r: Option<usize>)
    ensures
        match r {
            Some(m) => m < entries@.len() && entries@[m as int].0 == k && assoc(entries@, k)
                == Some(entries@[m as int].1),
            None => assoc(entries@, k).is_none(),
        },
{
    let n: usize = entries.len();
    let mut j: usize = 0;
    proof {
        assert(entries@.skip(0) =~= entries@);
    }
    while j < n
        invariant
            n == entries@.len(),
            j <= n,
            assoc(entries@, k) == assoc(entries@.skip(j as int), k),
        decreases n - j,
    {
        if entries[j].0 == k {
            proof {
                assert(entries@.skip(j as int)[0] == entries@[j as int]);
            }
            return Some(j);
        }
        proof {
            lemma_assoc_skip_step(entries@, k, j as int);
        }
        j = j + 1;
    }
    proof {
        assert(entries@.skip(n as int) =~= Seq::<(u64, V)>::empty());
    }
    None
}

/// A rule: when the antecedent `condition` holds to some degree, each
/// consequence key is pulled toward its paired weight with that degree.
/// Consequences form a mapping: `wf()` says their keys are unique, and every
/// constructor here keeps them so.
#[derive(Clone, Debug)]
pub struct FuzzyRule {
    pub condition: u64,
    pub consequences: Vec<(u64, Fixed)>,
}

impl FuzzyRule {
    /// The consequences hold at most one entry per output key.
    pub open spec fn wf(self) -> bool {
        unique_keys(self.consequences@)
    }

    /// A rule for `condition` with no consequences yet.
    pub fn new(condition: u64) -> (r: FuzzyRule)
        ensures
            r.condition == condition,
            r.consequences@.len() == 0,
            r.wf(),
    {
        FuzzyRule { condition, consequences: Vec::new() }
    }

    /// Attaches weight `value` to `output`: a fresh output key gains an
    /// entry, a key attached before has its weight overwritten — the last
    /// write wins, and no second entry appears.
    pub fn with_consequence(self, output: u64, value: Fixed) -> (r: FuzzyRule)
        requires
            self.wf(),
        ensures
            r.wf(),
            r.condition == self.condition,
            assoc(r.consequences@, output) == Some(value),
            forall|k: u64| k != output ==> assoc(r.consequences@, k) == assoc(
                self.consequences@,
                k,
            ),
            map_of(r.consequences@) == map_of(self.consequences@).insert(output, value),
            r.consequences@.len() == if assoc(self.consequences@, output).is_some() {
                self.consequences@.len()
            } else {
                self.consequences@.len() + 1
            },
    {
        let ghost before = self.consequences@;
        let mut rule = self;
        match find_key(&rule.consequences, output) {
            Some(m) => {
                rule.consequences[m] = (output, value);
                proof {
                    assert(rule.consequences@ == before.update(m as int, (before[m as int].0, value)));
                    assert forall|k: u64| #[trigger] assoc(rule.consequences@, k) == (if k
                        == output {
                        Some(value)
                    } else {
                        assoc(before, k)
                    }) by {
                        lemma_assoc_update(before, m as int, value, k);
                    }
                    assert(unique_keys(rule.consequences@)) by {
                        assert(forall|i: int|
                            0 <= i < before.len() ==> rule.consequences@[i].0 == before[i].0);
                    }
                }
            },
            None => {
                rule.consequences.push((output, value));
                proof {
                    assert forall|k: u64| #[trigger] assoc(rule.consequences@, k) == (if k
                        == output {
                        Some(value)
                    } else {
                        assoc(before, k)
                    }) by {
                        lemma_assoc_push(before, output, value, k);
                    }
                    assert(unique_keys(rule.consequences@)) by {
                        assert(forall|m: int| 0 <= m < before.len() ==> before[m].0 != output)
                            by {
                            if exists|m: int| 0 <= m < before.len() && before[m].0 == output {
                                let m = choose|m: int|
                                    0 <= m < before.len() && before[m].0 == output;
                                lemma_assoc_witness(before, output, m);
                            }
                        }
                        assert(forall|i: int|
                            0 <= i < before.len() ==> rule.consequences@[i] == before[i]);
                    }
                }
            },
        }
        proof {
            assert(map_of(rule.consequences@) =~= map_of(before).insert(output, value));
        }
        rule
    }

    /// The weight attached to `output`, if any.
    pub fn consequence(&self, output: u64) -> (r: Option<Fixed>)
        ensures
            r == assoc(self.consequences@, output),
    {
        match find_key(&self.consequences, output) {
            Some(m) => Some(self.consequences[m].1),
            None => None,
        }
    }
}

/// Whether no two entries of `entries` share a key.
fn has_unique_keys(entries: &Vec<(u64, Fixed)>) -> (r: bool)
    ensures
        r == unique_keys(entries@),
{
    let n: usize = entries.len();
    let mut i: usize = 0;
    while i < n
        invariant
            n == entries@.len(),
            i <= n,
            forall|a: int, b: int| 0 <= a < b < n && a < i as int ==> entries@[a].0 != entries@[b].0,
        decreases n - i,
    {
        let mut j: usize = i + 1;
        while j < n
            invariant
                n == entries@.len(),
                i < j <= n,
                forall|b: int| (i as int) < b < (j as int) ==> entries@[i as int].0 != entries@[b].0,
            decreases n - j,
        {
            if entries[i].0 == entries[j].0 {
                return false;
            }
            j = j + 1;
        }
        i = i + 1;
    }
    true
}

impl FuzzySet {
    /// Builds a membership curve for `category` from its points.
    pub fn new(category: u64, points: Vec<(Fixed, Fixed)>) -> (r: FuzzySet)
        ensures
            r.category == category,
            r.points@ == points@,
    {
        FuzzySet { category, points }
    }

    /// The membership degree of `input` on this curve: zero on an empty
    /// curve, the first (last) point's degree below (above) the domain, and
    /// otherwise the linear interpolation on the first segment that contains
    /// `input`.
    pub fn membership(&self, input: Fixed) -> (r: Fixed)
        ensures
            r.as_int() == membership_spec(self.points@, input.as_int()),
    {
        let ghost x = input.as_int();
        let n: usize = self.points.len();
        if n == 0 {
            return Fixed { micros: 0 };
        }
        if input.micros <= self.points[0].0.micros {
            return self.points[0].1;
        }
        if input.micros >= self.points[n - 1].0.micros {
            return self.points[n - 1].1;
        }
        let mut i: usize = 0;
        while i + 1 < n
            invariant
                n == self.points@.len(),
                i + 1 <= n,
                1 <= n,
                x == input.as_int(),
                x > self.points@[0].0.micros as int,
                x < self.points@[n - 1].0.micros as int,
                scan_from(self.points@, x, 0) == scan_from(self.points@, x, i as int),
            decreases n - i,
        {
            let (x1, y1) = self.points[i];
            let (x2, y2) = self.points[i + 1];
            if input.micros >= x1.micros && input.micros <= x2.micros {
                if x1.micros == x2.micros {
                    return y1;
                }
                let m: i32 = interp_exec(x1.micros, y1.micros, x2.micros, y2.micros, input.micros);
                return Fixed { micros: m };
            }
            i = i + 1;
        }
        Fixed { micros: 0 }
    }
}

/// The strength of the antecedent `cond` at input `x`: the membership degree
/// of `x` on the first curve whose category equals `cond`, and zero when no
/// curve matches. Only the first match counts, also where several curves
/// share a category.
pub open spec fn strength_spec(sets: Seq<FuzzySet>, cond: u64, x: int) -> int
    decreases sets.len(),
{
    if sets.len() == 0 {
        0
    } else if sets[0].category == cond {
        membership_spec(sets[0].points@, x)
    } else {
        strength_spec(sets.drop_first(), cond, x)
    }
}

/// Numerator of the weighted average for output key `k` at input `x`: the sum
/// of `weight * strength` over the rules whose strength is positive and whose
/// consequences hold `k`.
pub open spec fn total_num(sets: Seq<FuzzySet>, rules: Seq<FuzzyRule>, x: int, k: u64) -> int
    decreases rules.len(),
{
    if rules.len() == 0 {
        0
    } else {
        let prev = total_num(sets, rules.drop_last(), x, k);
        let s = strength_spec(sets, rules.last().condition, x);
        if s > 0 {
            match assoc(rules.last().consequences@, k) {
                Some(w) => prev + w.micros * s,
                None => prev,
            }
        } else {
            prev
        }
    }
}

/// Denominator of the weighted average for output key `k` at input `x`: the
/// sum of the strengths of the rules that contribute to `k`.
pub open spec fn total_den(sets: Seq<FuzzySet>, rules: Seq<FuzzyRule>, x: int, k: u64) -> int
    decreases rules.len(),
{
    if rules.len() == 0 {
        0
    } else {
        let prev = total_den(sets, rules.drop_last(), x, k);
        let s = strength_spec(sets, rules.last().condition, x);
        if s > 0 {
            match assoc(rules.last().consequences@, k) {
                Some(w) => prev + s,
                None => prev,
            }
        } else {
            prev
        }
    }
}

/// Peeling the rule at position `i` off the totals over the first `i + 1`
/// rules: a rule adds `weight * strength` and `strength` exactly when its
/// strength is positive and its consequences hold the key.
proof fn lemma_total_unfold(sets: Seq<FuzzySet>, rules: Seq<FuzzyRule>, x: int, k: u64, i: int)
    requires
        0 <= i < rules.len(),
    ensures
        strength_spec(sets, rules[i].condition, x) > 0 && assoc(rules[i].consequences@, k).is_some()
            ==> total_num(sets, rules.take(i + 1), x, k) == total_num(sets, rules.take(i), x, k)
            + assoc(rules[i].consequences@, k).unwrap().micros * strength_spec(
            sets,
            rules[i].condition,
            x,
        ) && total_den(sets, rules.take(i + 1), x, k) == total_den(sets, rules.take(i), x, k)
            + strength_spec(sets, rules[i].condition, x),
        !(strength_spec(sets, rules[i].condition, x) > 0 && assoc(
            rules[i].consequences@,
            k,
        ).is_some()) ==> total_num(sets, rules.take(i + 1), x, k) == total_num(
            sets,
            rules.take(i),
            x,
            k,
        ) && total_den(sets, rules.take(i + 1), x, k) == total_den(sets, rules.take(i), x, k),
{
    assert(rules.take(i + 1).drop_last() =~= rules.take(i));
    assert(rules.take(i + 1).last() == rules[i]);
}

/// The membership degree of `input` on the first curve of category `cond`,
/// zero when no curve matches.
fn first_strength(sets: &Vec<FuzzySet>, cond: u64, input: Fixed) -> (s: Fixed)
    ensures
        s.as_int() == strength_spec(sets@, cond, input.as_int()),
{
    let n: usize = sets.len();
    let mut j: usize = 0;
    proof {
        assert(sets@.skip(0) =~= sets@);
    }
    while j < n
        invariant
            n == sets@.len(),
            j <= n,
            strength_spec(sets@, cond, input.as_int()) == strength_spec(
                sets@.skip(j as int),
                cond,
                input.as_int(),
            ),
        decreases n - j,
    {
        proof {
            assert(sets@.skip(j as int)[0] == sets@[j as int]);
        }
        if sets[j].category == cond {
            return sets[j].membership(input);
        }
        proof {
            assert(sets@.skip(j as int).drop_first() =~= sets@.skip(j as int + 1));
        }
        j = j + 1;
    }
    proof {
        assert(sets@.skip(n as int).len() == 0);
    }
    Fixed { micros: 0 }
}

/// Quotient rounded toward zero, on machine integers, for a weighted average
/// whose numerator is bounded by the weight range times the denominator.
fn div_toward_zero(n: i128, d: i128) -> (q: i128)
    requires
        0 < d <= 0x8000_0000_0000_0000_0000_0000,
        -0x8000_0000 * d <= n <= 0x7fff_ffff * d,
    ensures
        q == div_trunc(n as int, d as int),
        -0x8000_0000 <= q <= 0x7fff_ffff,
{
    if n >= 0 {
        proof {
            lemma_div_pos_is_pos(n as int, d as int);
            lemma_multiply_divide_le(n as int, d as int, 0x7fff_ffff);
        }
        let qu: u128 = (n as u128) / (d as u128);
        qu as i128
    } else {
        let m: i128 = -n;
        proof {
            lemma_div_pos_is_pos(m as int, d as int);
            lemma_multiply_divide_le(m as int, d as int, 0x8000_0000);
        }
        let qu: u128 = (m as u128) / (d as u128);
        -(qu as i128)
    }
}

/// One accumulator entry, after the first `rules` rules: the exact totals of
/// its key, a positive denominator, and the bounds that keep the running sums
/// inside machine integers.
spec fn acc_entry_ok(sets: Seq<FuzzySet>, rules: Seq<FuzzyRule>, x: int, e: (u64, (i128, i128))) -> bool {
    &&& e.1.1 as int == total_den(sets, rules, x, e.0)
    &&& e.1.0 as int == total_num(sets, rules, x, e.0)
    &&& 0 < e.1.1 as int <= rules.len() * 0x7fff_ffff
    &&& -(0x8000_0000 * (e.1.1 as int)) <= e.1.0 as int <= 0x7fff_ffff * (e.1.1 as int)
}

/// One accumulator entry in the middle of one rule's consequences: keys among
/// the first `j` consequences already carry that rule's contribution of
/// strength `s`, the others still carry the totals over the earlier rules.
spec fn acc_entry_mid(
    sets: Seq<FuzzySet>,
    pre: Seq<FuzzyRule>,
    x: int,
    cons: Seq<(u64, Fixed)>,
    j: int,
    s: int,
    e: (u64, (i128, i128)),
) -> bool {
    &&& match assoc(cons.take(j), e.0) {
        Some(w) => e.1.0 as int == total_num(sets, pre, x, e.0) + w.micros * s && e.1.1 as int
            == total_den(sets, pre, x, e.0) + s,
        None => e.1.0 as int == total_num(sets, pre, x, e.0) && e.1.1 as int == total_den(
            sets,
            pre,
            x,
            e.0,
        ),
    }
    &&& 0 < e.1.1 as int
    &&& 0 <= total_den(sets, pre, x, e.0) <= pre.len() * 0x7fff_ffff
    &&& -(0x8000_0000 * total_den(sets, pre, x, e.0)) <= total_num(sets, pre, x, e.0)
    &&& total_num(sets, pre, x, e.0) <= 0x7fff_ffff * total_den(sets, pre, x, e.0)
}

/// Pairing a result sequence with the accumulator: equal keys position by
/// position make the two associations agree, and a served key is served by
/// one shared position.
proof fn lemma_assoc_paired(entries: Seq<(u64, Fixed)>, acc: Seq<(u64, (i128, i128))>, k: u64)
    requires
        entries.len() == acc.len(),
        forall|m: int| 0 <= m < acc.len() ==> (#[trigger] entries[m]).0 == acc[m].0,
    ensures
        assoc(entries, k).is_some() == assoc(acc, k).is_some(),
        assoc(acc, k).is_some() ==> exists|m: int|
            0 <= m < acc.len() && (#[trigger] entries[m]).0 == k && assoc(entries, k) == Some(
                entries[m].1,
            ) && assoc(acc, k) == Some(acc[m].1),
    decreases entries.len(),
{
    if entries.len() > 0 {
        if acc[0].0 == k {
            assert(entries[0].0 == k);
        } else {
            assert(forall|m: int|
                0 <= m < acc.drop_first().len() ==> (#[trigger] entries.drop_first()[m])
                    == entries[m + 1] && acc.drop_first()[m] == acc[m + 1]);
            lemma_assoc_paired(entries.drop_first(), acc.drop_first(), k);
            if assoc(acc, k).is_some() {
                let m0 = choose|m: int|
                    0 <= m < acc.drop_first().len() && (#[trigger] entries.drop_first()[m]).0 == k
                        && assoc(entries.drop_first(), k) == Some(entries.drop_first()[m].1)
                        && assoc(acc.drop_first(), k) == Some(acc.drop_first()[m].1);
                assert(entries[m0 + 1].0 == k);
            }
        }
    }
}

/// What `evaluate` returns: `out` holds exactly the output keys with positive
/// total contributing strength, each mapped to the strength-weighted average
/// of its contributed weights, rounded toward zero.
pub open spec fn is_evaluation(
    sets: Seq<FuzzySet>,
    rules: Seq<FuzzyRule>,
    x: int,
    out: Seq<(u64, Fixed)>,
) -> bool {
    &&& unique_keys(out)
    &&& forall|k: u64| #![trigger assoc(out, k)]
        assoc(out, k).is_some() <==> total_den(sets, rules, x, k) > 0
    &&& forall|k: u64| #![trigger assoc(out, k)]
        assoc(out, k).is_some() ==> assoc(out, k).unwrap().micros as int == div_trunc(
            total_num(sets, rules, x, k),
            total_den(sets, rules, x, k),
        )
}

/// Law: evaluation is a function of the configuration and the input alone.
/// Any two result mappings of one configuration and one input agree on every
/// output key — repeated calls return identical mappings.
pub proof fn lemma_evaluate_deterministic(
    sets: Seq<FuzzySet>,
    rules: Seq<FuzzyRule>,
    x: int,
    a: Seq<(u64, Fixed)>,
    b: Seq<(u64, Fixed)>,
)
    requires
        is_evaluation(sets, rules, x, a),
        is_evaluation(sets, rules, x, b),
    ensures
        forall|k: u64| #![trigger assoc(a, k), assoc(b, k)] assoc(a, k) == assoc(b, k),
        map_of(a) == map_of(b),
{
    assert forall|k: u64| #![trigger assoc(a, k), assoc(b, k)] assoc(a, k) == assoc(b, k) by {
        if assoc(a, k).is_some() {
            let va = assoc(a, k).unwrap();
            let vb = assoc(b, k).unwrap();
            assert(va.micros == vb.micros);
        }
    }
    assert(map_of(a) =~= map_of(b));
}

/// The result of an evaluation: a mapping from output key to scalar, with at
/// most one entry per key. Keys with no contribution are absent, not present
/// with value zero.
#[derive(Clone, Debug, PartialEq)]
pub struct OutputMap {
    pub entries: Vec<(u64, Fixed)>,
}

impl OutputMap {
    /// The mapping these entries stand for.
    pub open spec fn as_map(self) -> Map<u64, Fixed> {
        map_of(self.entries@)
    }

    /// The value recorded for `key`, if any.
    pub fn get(&self, key: u64) -> (r: Option<Fixed>)
        ensures
            r == assoc(self.entries@, key),
    {
        match find_key(&self.entries, key) {
            Some(m) => Some(self.entries[m].1),
            None => None,
        }
    }

    /// Whether no output key is present.
    pub fn is_empty(&self) -> (r: bool)
        ensures
            r <==> self.entries@.len() == 0,
    {
        self.entries.len() == 0
    }

    /// How many output keys are present.
    pub fn len(&self) -> (r: usize)
        ensures
            r == self.entries@.len(),
    {
        self.entries.len()
    }
}

/// The inference system: membership curves for the antecedent categories and
/// rules from antecedents to weighted consequences. Built once by
/// registration calls, then queried through `evaluate`.
#[derive(Clone, Debug)]
pub struct FuzzySystem {
    pub input_sets: Vec<FuzzySet>,
    pub rules: Vec<FuzzyRule>,
}

impl FuzzySystem {
    /// Every rule's consequences form a mapping (unique keys). The
    /// registration calls keep this, and `evaluate` relies on it.
    pub open spec fn wf(self) -> bool {
        forall|i: int| 0 <= i < self.rules@.len() ==> (#[trigger] self.rules@[i]).wf()
    }

    /// Whether every rule's consequences form a mapping — the condition
    /// `evaluate` relies on. Systems built through `new`, `add_input_set`,
    /// `add_rule` and the rule builder always pass; the check is for callers
    /// that assemble the public fields directly.
    pub fn is_well_formed(&self) -> (r: bool)
        ensures
            r == self.wf(),
    {
        let n: usize = self.rules.len();
        let mut i: usize = 0;
        while i < n
            invariant
                n == self.rules@.len(),
                i <= n,
                forall|m: int| 0 <= m < i as int ==> (#[trigger] self.rules@[m]).wf(),
            decreases n - i,
        {
            if !has_unique_keys(&self.rules[i].consequences) {
                return false;
            }
            i = i + 1;
        }
        true
    }

    /// An empty system: no curves, no rules.
    pub fn new() -> (r: FuzzySystem)
        ensures
            r.input_sets@.len() == 0,
            r.rules@.len() == 0,
            r.wf(),
    {
        FuzzySystem { input_sets: Vec::new(), rules: Vec::new() }
    }

    /// Registers a membership curve. A category registered twice is served by
    /// its first curve only (see `strength_spec`).
    pub fn add_input_set(&mut self, set: FuzzySet)
        ensures
            final(self).input_sets@ == old(self).input_sets@.push(set),
            final(self).rules@ == old(self).rules@,
    {
        self.input_sets.push(set);
    }

    /// Registers a rule.
    pub fn add_rule(&mut self, rule: FuzzyRule)
        ensures
            final(self).rules@ == old(self).rules@.push(rule),
            final(self).input_sets@ == old(self).input_sets@,
            old(self).wf() && rule.wf() ==> final(self).wf(),
    {
        self.rules.push(rule);
        assert(old(self).wf() && rule.wf() ==> self.wf()) by {
            if old(self).wf() && rule.wf() {
                assert(forall|i: int|
                    0 <= i < old(self).rules@.len() ==> self.rules@[i] == old(self).rules@[i]);
            }
        }
    }

    /// Evaluates the system at `input`. Each rule whose antecedent strength
    /// is positive records, under each of its consequence keys, that rule's
    /// weight and strength; the result maps every key so recorded — and no
    /// other — to the strength-weighted average of its recorded weights,
    /// rounded toward zero. A rule with no matching curve, or with
    /// non-positive strength, contributes nothing; with no rules at all the
    /// result is empty for every input.
    pub fn evaluate(&self, input: Fixed) -> (r: OutputMap)
        requires
            self.wf(),
        ensures
            is_evaluation(self.input_sets@, self.rules@, input.as_int(), r.entries@),
            self.rules@.len() == 0 ==> r.entries@.len() == 0,
    {
        let ghost sets = self.input_sets@;
        let ghost x = input.as_int();
        let nrules: usize = self.rules.len();
        let mut acc: Vec<(u64, (i128, i128))> = Vec::new();
        let mut i: usize = 0;
        while i < nrules
            invariant
                self.wf(),
                sets == self.input_sets@,
                x == input.as_int(),
                nrules == self.rules@.len(),
                i <= nrules,
                unique_keys(acc@),
                forall|m: int|
                    0 <= m < acc@.len() ==> acc_entry_ok(
                        sets,
                        self.rules@.take(i as int),
                        x,
                        #[trigger] acc@[m],
                    ),
                forall|k: u64| #![trigger assoc(acc@, k)]
                    assoc(acc@, k).is_none() ==> total_den(sets, self.rules@.take(i as int), x, k)
                        == 0 && total_num(sets, self.rules@.take(i as int), x, k) == 0,
                i == 0 ==> acc@.len() == 0,
            decreases nrules - i,
        {
            let ghost pre = self.rules@.take(i as int);
            let rule = &self.rules[i];
            proof {
                assert(self.rules@[i as int].wf());
            }
            let ghost cons = rule.consequences@;
            let s: Fixed = first_strength(&self.input_sets, rule.condition, input);
            let ghost smu = s.as_int();
            if s.micros > 0 {
                let ncons: usize = rule.consequences.len();
                let mut j: usize = 0;
                proof {
                    assert(cons.take(0) =~= Seq::<(u64, Fixed)>::empty());
                }
                while j < ncons
                    invariant
                        sets == self.input_sets@,
                        x == input.as_int(),
                        0 <= i < self.rules@.len(),
                        pre == self.rules@.take(i as int),
                        pre.len() == i as int,
                        cons == self.rules@[i as int].consequences@,
                        rule.consequences@ == cons,
                        unique_keys(cons),
                        ncons == cons.len(),
                        j <= ncons,
                        smu == strength_spec(sets, self.rules@[i as int].condition, x),
                        s.micros as int == smu,
                        0 < smu <= 0x7fff_ffff,
                        unique_keys(acc@),
                        forall|m: int|
                            0 <= m < acc@.len() ==> acc_entry_mid(
                                sets,
                                pre,
                                x,
                                cons,
                                j as int,
                                smu,
                                #[trigger] acc@[m],
                            ),
                        forall|k: u64| #![trigger assoc(acc@, k)]
                            assoc(acc@, k).is_none() ==> total_den(sets, pre, x, k) == 0
                                && total_num(sets, pre, x, k) == 0 && assoc(
                                cons.take(j as int),
                                k,
                            ).is_none(),
                    decreases ncons - j,
                {
                    let (k, w) = rule.consequences[j];
                    proof {
                        assert(cons[j as int] == (k, w));
                        assert(forall|m: int|
                            0 <= m < j as int ==> (#[trigger] cons.take(j as int)[m]) == cons[m]);
                        assert(forall|m: int|
                            0 <= m < j as int ==> (#[trigger] cons.take(j as int)[m]).0 != k);
                        lemma_assoc_absent(cons.take(j as int), k);
                        assert(cons.take(j as int + 1) =~= cons.take(j as int).push((k, w)));
                        lemma_mul_inequality(-0x8000_0000, w.micros as int, smu);
                        lemma_mul_inequality(w.micros as int, 0x7fff_ffff, smu);
                        lemma_mul_inequality(smu, 0x7fff_ffff, 0x8000_0000);
                        lemma_mul_inequality(smu, 0x7fff_ffff, 0x7fff_ffff);
                    }
                    let sw: i128 = (w.micros as i128) * (s.micros as i128);
                    let ghost acc_old = acc@;
                    match find_key(&acc, k) {
                        Some(m) => {
                            proof {
                                assert(acc_entry_mid(sets, pre, x, cons, j as int, smu, acc@[m as int]));
                                assert(pre.len() * 0x7fff_ffff
                                    <= 0xffff_ffff_ffff_ffff * 0x7fff_ffff);
                            }
                            let e = acc[m];
                            let n1: i128 = e.1.0 + sw;
                            let d1: i128 = e.1.1 + s.micros as i128;
                            acc[m] = (k, (n1, d1));
                            proof {
                                assert(acc@ == acc_old.update(m as int, (acc_old[m as int].0, (n1, d1))));
                                assert forall|k2: u64| #![trigger assoc(acc@, k2)]
                                    assoc(acc@, k2) == (if k2 == k {
                                        Some((n1, d1))
                                    } else {
                                        assoc(acc_old, k2)
                                    }) by {
                                    lemma_assoc_update(acc_old, m as int, (n1, d1), k2);
                                }
                                assert(unique_keys(acc@)) by {
                                    assert(forall|p: int|
                                        0 <= p < acc_old.len() ==> (#[trigger] acc@[p]).0
                                            == acc_old[p].0);
                                }
                                assert forall|p: int|
                                    0 <= p < acc@.len() implies acc_entry_mid(
                                    sets,
                                    pre,
                                    x,
                                    cons,
                                    j as int + 1,
                                    smu,
                                    #[trigger] acc@[p],
                                ) by {
                                    lemma_assoc_push(cons.take(j as int), k, w, acc@[p].0);
                                    if p != m as int {
                                        assert(acc@[p] == acc_old[p]);
                                        assert(acc_entry_mid(sets, pre, x, cons, j as int, smu, acc_old[p]));
                                        assert(acc_old[p].0 != k);
                                    } else {
                                        assert(acc@[p] == (acc_old[m as int].0, (n1, d1)));
                                        assert(assoc(cons.take(j as int + 1), k) == Some(w));
                                    }
                                }
                                assert forall|k2: u64| #![trigger assoc(acc@, k2)]
                                    assoc(acc@, k2).is_none() implies total_den(sets, pre, x, k2)
                                    == 0 && total_num(sets, pre, x, k2) == 0 && assoc(
                                    cons.take(j as int + 1),
                                    k2,
                                ).is_none() by {
                                    assert(assoc(acc_old, k2).is_none());
                                    lemma_assoc_push(cons.take(j as int), k, w, k2);
                                    assert(k2 != k);
                                }
                            }
                        },
                        None => {
                            acc.push((k, (sw, s.micros as i128)));
                            proof {
                                assert(total_den(sets, pre, x, k) == 0);
                                assert(total_num(sets, pre, x, k) == 0);
                                assert(acc@ == acc_old.push((k, (sw, s.micros as i128))));
                                assert forall|k2: u64| #![trigger assoc(acc@, k2)]
                                    assoc(acc@, k2) == (if assoc(acc_old, k2).is_some() {
                                        assoc(acc_old, k2)
                                    } else if k2 == k {
                                        Some((sw, s.micros as i128))
                                    } else {
                                        None
                                    }) by {
                                    lemma_assoc_push(acc_old, k, (sw, s.micros as i128), k2);
                                }
                                assert(unique_keys(acc@)) by {
                                    assert forall|p: int|
                                        0 <= p < acc_old.len() implies (#[trigger] acc_old[p]).0
                                        != k by {
                                        if acc_old[p].0 == k {
                                            lemma_assoc_witness(acc_old, k, p);
                                        }
                                    }
                                    assert(forall|p: int|
                                        0 <= p < acc_old.len() ==> (#[trigger] acc@[p])
                                            == acc_old[p]);
                                    assert(acc@[acc_old.len() as int].0 == k);
                                }
                                assert forall|p: int|
                                    0 <= p < acc@.len() implies acc_entry_mid(
                                    sets,
                                    pre,
                                    x,
                                    cons,
                                    j as int + 1,
                                    smu,
                                    #[trigger] acc@[p],
                                ) by {
                                    lemma_assoc_push(cons.take(j as int), k, w, acc@[p].0);
                                    if p < acc_old.len() {
                                        assert(acc@[p] == acc_old[p]);
                                        assert(acc_entry_mid(sets, pre, x, cons, j as int, smu, acc_old[p]));
                                        assert(acc_old[p].0 != k) by {
                                            if acc_old[p].0 == k {
                                                lemma_assoc_witness(acc_old, k, p);
                                            }
                                        }
                                    } else {
                                        assert(acc@[p] == (k, (sw, s.micros as i128)));
                                        assert(assoc(cons.take(j as int + 1), k) == Some(w));
                                    }
                                }
                                assert forall|k2: u64| #![trigger assoc(acc@, k2)]
                                    assoc(acc@, k2).is_none() implies total_den(sets, pre, x, k2)
                                    == 0 && total_num(sets, pre, x, k2) == 0 && assoc(
                                    cons.take(j as int + 1),
                                    k2,
                                ).is_none() by {
                                    assert(assoc(acc_old, k2).is_none());
                                    lemma_assoc_push(cons.take(j as int), k, w, k2);
                                    assert(k2 != k);
                                }
                            }
                        },
                    }
                    j = j + 1;
                }
                proof {
                    assert(cons.take(ncons as int) =~= cons);
                    assert forall|p: int|
                        0 <= p < acc@.len() implies acc_entry_ok(
                        sets,
                        self.rules@.take(i as int + 1),
                        x,
                        #[trigger] acc@[p],
                    ) by {
                        lemma_total_unfold(sets, self.rules@, x, acc@[p].0, i as int);
                        assert(acc_entry_mid(sets, pre, x, cons, ncons as int, smu, acc@[p]));
                        if assoc(cons, acc@[p].0).is_some() {
                            let wv = assoc(cons, acc@[p].0).unwrap().micros as int;
                            lemma_mul_inequality(-0x8000_0000, wv, smu);
                            lemma_mul_inequality(wv, 0x7fff_ffff, smu);
                        }
                        assert(self.rules@.take(i as int + 1).len() == i as int + 1);
                    }
                    assert forall|k2: u64| #![trigger assoc(acc@, k2)]
                        assoc(acc@, k2).is_none() implies total_den(
                        sets,
                        self.rules@.take(i as int + 1),
                        x,
                        k2,
                    ) == 0 && total_num(sets, self.rules@.take(i as int + 1), x, k2) == 0 by {
                        lemma_total_unfold(sets, self.rules@, x, k2, i as int);
                        assert(assoc(cons, k2).is_none());
                    }
                }
            } else {
                proof {
                    assert forall|p: int|
                        0 <= p < acc@.len() implies acc_entry_ok(
                        sets,
                        self.rules@.take(i as int + 1),
                        x,
                        #[trigger] acc@[p],
                    ) by {
                        lemma_total_unfold(sets, self.rules@, x, acc@[p].0, i as int);
                        assert(acc_entry_ok(sets, pre, x, acc@[p]));
                        assert(self.rules@.take(i as int + 1).len() == i as int + 1);
                        assert(pre.len() == i as int);
                    }
                    assert forall|k2: u64| #![trigger assoc(acc@, k2)]
                        assoc(acc@, k2).is_none() implies total_den(
                        sets,
                        self.rules@.take(i as int + 1),
                        x,
                        k2,
                    ) == 0 && total_num(sets, self.rules@.take(i as int + 1), x, k2) == 0 by {
                        lemma_total_unfold(sets, self.rules@, x, k2, i as int);
                    }
                }
            }
            i = i + 1;
        }
        proof {
            assert(self.rules@.take(nrules as int) =~= self.rules@);
        }
        let nacc: usize = acc.len();
        let mut entries: Vec<(u64, Fixed)> = Vec::new();
        let mut j: usize = 0;
        while j < nacc
            invariant
                sets == self.input_sets@,
                x == input.as_int(),
                nacc == acc@.len(),
                j <= nacc,
                entries@.len() == j,
                nrules == 0 ==> nacc == 0,
                unique_keys(acc@),
                forall|m: int|
                    0 <= m < acc@.len() ==> acc_entry_ok(sets, self.rules@, x, #[trigger] acc@[m]),
                forall|m: int|
                    0 <= m < j as int ==> (#[trigger] entries@[m]).0 == acc@[m].0
                        && entries@[m].1.micros as int == div_trunc(
                        acc@[m].1.0 as int,
                        acc@[m].1.1 as int,
                    ),
                nrules == self.rules@.len(),
            decreases nacc - j,
        {
            let (k, nd) = acc[j];
            proof {
                assert(acc_entry_ok(sets, self.rules@, x, acc@[j as int]));
                assert(self.rules@.len() * 0x7fff_ffff <= 0xffff_ffff_ffff_ffff * 0x7fff_ffff);
            }
            let q: i128 = div_toward_zero(nd.0, nd.1);
            entries.push((k, Fixed { micros: q as i32 }));
            j = j + 1;
        }
        proof {
            assert(unique_keys(entries@)) by {
                assert(forall|m: int|
                    0 <= m < entries@.len() ==> (#[trigger] entries@[m]).0 == acc@[m].0);
            }
            assert forall|k: u64| #![trigger assoc(entries@, k)]
                assoc(entries@, k).is_some() <==> total_den(sets, self.rules@, x, k) > 0 by {
                lemma_assoc_paired(entries@, acc@, k);
                if assoc(acc@, k).is_some() {
                    let m = choose|m: int|
                        0 <= m < acc@.len() && (#[trigger] entries@[m]).0 == k && assoc(entries@, k)
                            == Some(entries@[m].1) && assoc(acc@, k) == Some(acc@[m].1);
                    assert(acc_entry_ok(sets, self.rules@, x, acc@[m]));
                    assert(acc@[m].0 == k);
                }
            }
            assert forall|k: u64| #![trigger assoc(entries@, k)]
                assoc(entries@, k).is_some() implies assoc(entries@, k).unwrap().micros as int
                == div_trunc(total_num(sets, self.rules@, x, k), total_den(sets, self.rules@, x, k)) by {
                lemma_assoc_paired(entries@, acc@, k);
                let m = choose|m: int|
                    0 <= m < acc@.len() && (#[trigger] entries@[m]).0 == k && assoc(entries@, k)
                        == Some(entries@[m].1) && assoc(acc@, k) == Some(acc@[m].1);
                assert(acc_entry_ok(sets, self.rules@, x, acc@[m]));
                assert(acc@[m].0 == k);
            }
        }
        OutputMap { entries }
    }
}

impl Default for FuzzySystem {
    /// An empty system, as `new` builds it.
    fn default() -> (r: FuzzySystem)
        ensures
            r.input_sets@.len() == 0,
            r.rules@.len() == 0,
            r.wf(),
    {
        FuzzySystem { input_sets: Vec::new(), rules: Vec::new() }
    }
}

} // verus!
