//! Splitting a one-dimensional extent into segments under sizing constraints.
//!
//! Floors (`Min`) are served first, then exact sizes (`Length`, `Percentage`,
//! `Ratio`), then ceilings (`Max`), each in list order and each taking what it
//! asks for or what is left, whichever is less. Sizes are kept as exact
//! fractions; the boundaries between segments are rounded to the nearest unit
//! (ties to even) and the lengths are the differences of rounded boundaries.
//! The space left over is then handed out as the `SegmentSize` policy says.
//!
//! When floors or ceilings together ask for more than there is, they share
//! the shortfall in this serving order: the earlier ones keep their size and
//! the later ones give way (two `Min(4)` over 7 units give 4 and 3). This is
//! the intended reading of "sharing the deficit".
use vstd::prelude::*;

verus! {

/// How one segment of a split extent wants to be sized.
#[derive(Debug, Clone, Copy, PartialEq, Eq, Hash)]
pub enum Constraint {
    /// Exactly this many units, as far as space allows.
    Length(u16),
    /// At most this many units; gives way first when space is short.
    Max(u16),
    /// At least this many units; served before every other kind.
    Min(u16),
    /// This percentage of the whole extent.
    Percentage(u16),
    /// This fraction of the whole extent (a zero denominator counts as one).
    Ratio(u32, u32),
}

/// What happens to the space that is left once every constraint is served.
#[derive(Debug, Clone, Copy, PartialEq, Eq, Hash)]
pub enum SegmentSize {
    /// The space is left unused after the last segment.
    Exact,
    /// The space is shared out so that the growable segments end up level.
    EvenDistribution,
    /// The last segment receives all of the space.
    LastTakesRemainder,
}

/// Largest common denominator for which positions are computed exactly.
pub const MAX_DENOMINATOR: u64 = 0xffff_ffff_ffff_ffff;

/// The denominator of the fraction of the extent that a constraint asks for.
pub open spec fn den_of(c: Constraint) -> nat {
    match c {
        Constraint::Percentage(_) => 100,
        Constraint::Ratio(_, d) => if d == 0 { 1 } else { d as nat },
        _ => 1,
    }
}

/// Greatest common divisor, by Euclid's algorithm.
pub open spec fn gcd(a: nat, b: nat) -> nat
    decreases b,
{
    if b == 0 { a } else { gcd(b, a % b) }
}

/// Least common multiple of two positive integers.
pub open spec fn lcm(a: nat, b: nat) -> nat {
    (a / gcd(a, b)) * b
}

/// The least common multiple of the denominators of all constraints.
pub open spec fn common_den(cs: Seq<Constraint>) -> nat
    decreases cs.len(),
{
    if cs.len() == 0 {
        1
    } else {
        lcm(common_den(cs.drop_last()), den_of(cs.last()))
    }
}

proof fn lemma_divides_through(a: int, b: int, g: int)
    requires
        a >= 0,
        b > 0,
        g > 0,
        b % g == 0,
        (a % b) % g == 0,
    ensures
        a % g == 0,
{
    vstd::arithmetic::div_mod::lemma_fundamental_div_mod(a, b);
    vstd::arithmetic::div_mod::lemma_fundamental_div_mod(b, g);
    vstd::arithmetic::div_mod::lemma_fundamental_div_mod(a % b, g);
    let k1 = b / g;
    let k2 = (a % b) / g;
    assert(a == (k1 * (a / b) + k2) * g) by (nonlinear_arith)
        requires a == b * (a / b) + a % b, b == g * k1 + 0, a % b == g * k2 + 0;
    vstd::arithmetic::div_mod::lemma_mod_multiples_basic(k1 * (a / b) + k2, g);
}

pub(crate) proof fn lemma_gcd(a: nat, b: nat)
    requires
        a >= 1 || b >= 1,
    ensures
        gcd(a, b) >= 1,
        a % gcd(a, b) == 0,
        b % gcd(a, b) == 0,
    decreases b,
{
    if b == 0 {
        vstd::arithmetic::div_mod::lemma_mod_self_0(a as int);
    } else {
        lemma_gcd(b, a % b);
        lemma_divides_through(a as int, b as int, gcd(a, b) as int);
    }
}

/// The least common multiple is a positive multiple of both, no smaller
/// than the first; with one it is the other.
pub(crate) proof fn lemma_lcm(a: nat, b: nat)
    requires
        a >= 1,
        b >= 1,
    ensures
        lcm(a, b) >= a,
        lcm(a, b) % a == 0,
        lcm(a, b) % b == 0,
        lcm(a, 1) == a,
{
    lemma_gcd(a, b);
    let g = gcd(a, b) as int;
    vstd::arithmetic::div_mod::lemma_fundamental_div_mod(a as int, g);
    vstd::arithmetic::div_mod::lemma_fundamental_div_mod(b as int, g);
    let ka = (a as int) / g;
    let kb = (b as int) / g;
    assert(kb >= 1) by (nonlinear_arith)
        requires b == g * kb + 0, b >= 1, g >= 1;
    assert(ka >= 1) by (nonlinear_arith)
        requires a == g * ka + 0, a >= 1, g >= 1;
    assert(lcm(a, b) == ka * (b as int));
    vstd::arithmetic::div_mod::lemma_mod_multiples_basic(ka, b as int);
    assert(ka * (b as int) == kb * (a as int)) by (nonlinear_arith)
        requires a == g * ka + 0, b == g * kb + 0;
    vstd::arithmetic::div_mod::lemma_mod_multiples_basic(kb, a as int);
    assert(kb * (a as int) >= a) by (nonlinear_arith)
        requires kb >= 1, a >= 1;
    assert(gcd(a, 1) == gcd(1, a % 1));
    assert(a % 1 == 0);
    assert(gcd(1, 0) == 1);
}

proof fn lemma_divides_trans(x: int, d: int, l: int)
    requires
        x > 0,
        d > 0,
        d % x == 0,
        l % d == 0,
    ensures
        l % x == 0,
{
    vstd::arithmetic::div_mod::lemma_fundamental_div_mod(d, x);
    vstd::arithmetic::div_mod::lemma_fundamental_div_mod(l, d);
    let k = d / x;
    let m = l / d;
    assert(l == (k * m) * x) by (nonlinear_arith)
        requires d == x * k + 0, l == d * m + 0;
    vstd::arithmetic::div_mod::lemma_mod_multiples_basic(k * m, x);
}

/// Greatest common divisor of two machine integers.
pub(crate) fn gcd_exec(a: u128, b: u128) -> (r: u128)
    ensures
        r as nat == gcd(a as nat, b as nat),
{
    let mut x = a;
    let mut y = b;
    while y != 0
        invariant
            gcd(x as nat, y as nat) == gcd(a as nat, b as nat),
        decreases y,
    {
        let t = x % y;
        x = y;
        y = t;
    }
    x
}

/// The constraints admit exact positions in machine integers.
pub open spec fn fits_exact(cs: Seq<Constraint>) -> bool {
    common_den(cs) <= MAX_DENOMINATOR
}

/// Rounds `n / d` to the nearest integer, ties to the even neighbour.
pub open spec fn round_half_even(n: int, d: int) -> int {
    let q = n / d;
    let r = n % d;
    if 2 * r < d {
        q
    } else if 2 * r > d {
        q + 1
    } else if q % 2 == 0 {
        q
    } else {
        q + 1
    }
}

pub(crate) proof fn lemma_den_positive(c: Constraint)
    ensures
        den_of(c) >= 1,
{
}

pub(crate) proof fn lemma_common_den(cs: Seq<Constraint>)
    ensures
        common_den(cs) >= 1,
        forall|i: int| 0 <= i < cs.len() ==> #[trigger] (common_den(cs) % den_of(cs[i])) == 0,
    decreases cs.len(),
{
    if cs.len() > 0 {
        let pre = cs.drop_last();
        lemma_common_den(pre);
        let d = common_den(pre);
        let b = den_of(cs.last());
        lemma_den_positive(cs.last());
        lemma_lcm(d, b);
        assert forall|i: int| 0 <= i < cs.len() implies #[trigger] (common_den(cs) % den_of(cs[i])) == 0 by {
            lemma_den_positive(cs[i]);
            if i < cs.len() - 1 {
                assert(cs[i] == pre[i]);
                lemma_divides_trans(den_of(cs[i]) as int, d as int, lcm(d, b) as int);
            }
        }
    }
}

/// Constraints that ask for whole units only have a common denominator of one.
pub proof fn lemma_common_den_unit(cs: Seq<Constraint>)
    requires
        forall|i: int| 0 <= i < cs.len() ==> den_of(#[trigger] cs[i]) == 1,
    ensures
        common_den(cs) == 1,
    decreases cs.len(),
{
    if cs.len() > 0 {
        let pre = cs.drop_last();
        assert forall|i: int| 0 <= i < pre.len() implies den_of(#[trigger] pre[i]) == 1 by {
            assert(pre[i] == cs[i]);
        }
        lemma_common_den_unit(pre);
        assert(den_of(cs[cs.len() - 1]) == 1);
        lemma_lcm(1, 1);
    }
}

/// Rounded positions keep their order.
pub proof fn lemma_round_monotone(a: int, b: int, d: int)
    requires
        0 <= a <= b,
        d > 0,
    ensures
        round_half_even(a, d) <= round_half_even(b, d),
{
    vstd::arithmetic::div_mod::lemma_div_is_ordered(a, b, d);
    vstd::arithmetic::div_mod::lemma_fundamental_div_mod(a, d);
    vstd::arithmetic::div_mod::lemma_fundamental_div_mod(b, d);
    if a / d == b / d {
        assert(a % d <= b % d) by (nonlinear_arith)
            requires a == d * (a / d) + a % d, b == d * (b / d) + b % d, a / d == b / d, a <= b;
    }
}

/// A position within `[0, m * d]` rounds into `[0, m]`; a multiple of `d` rounds exactly.
pub proof fn lemma_round_bounds(a: int, d: int, m: int)
    requires
        0 <= a <= m * d,
        d > 0,
        m >= 0,
    ensures
        0 <= round_half_even(a, d) <= m,
        round_half_even(m * d, d) == m,
{
    vstd::arithmetic::div_mod::lemma_fundamental_div_mod(a, d);
    vstd::arithmetic::div_mod::lemma_div_by_multiple(m, d);
    vstd::arithmetic::div_mod::lemma_mod_multiples_basic(m, d);
    assert(0 <= a / d) by {
        vstd::arithmetic::div_mod::lemma_div_pos_is_pos(a, d);
    }
    assert(a / d <= m) by {
        vstd::arithmetic::div_mod::lemma_div_is_ordered(a, m * d, d);
    }
    if a / d == m {
        assert(a % d == 0) by (nonlinear_arith)
            requires a == d * (a / d) + a % d, a / d == m, a <= m * d, a % d >= 0;
    }
}

/// Serving order of a constraint: floors first, then exact sizes, then ceilings.
pub open spec fn class_of(c: Constraint) -> int {
    match c {
        Constraint::Min(_) => 0,
        Constraint::Max(_) => 2,
        _ => 1,
    }
}

/// The size a constraint asks for over an extent of `total`, in units of `1 / d`.
pub open spec fn desired(c: Constraint, total: int, d: int) -> int {
    match c {
        Constraint::Length(n) => n * d,
        Constraint::Min(n) => n * d,
        Constraint::Max(n) => n * d,
        Constraint::Percentage(p) => total * p * (d / 100),
        Constraint::Ratio(a, _) => total * a * (d / (den_of(c) as int)),
    }
}

/// What each constraint asks for, in units of `1 / common_den(cs)`.
pub open spec fn desired_seq(cs: Seq<Constraint>, total: int) -> Seq<int> {
    Seq::new(cs.len(), |i: int| desired(cs[i], total, common_den(cs) as int))
}

/// The serving order of each constraint.
pub open spec fn class_seq(cs: Seq<Constraint>) -> Seq<int> {
    Seq::new(cs.len(), |i: int| class_of(cs[i]))
}

/// Sum of `vals[m]` over the `m < n` that are served before position `j` of class `k`.
pub open spec fn served_sum(vals: Seq<int>, cls: Seq<int>, n: int, k: int, j: int) -> int
    decreases n,
{
    if n <= 0 {
        0
    } else {
        served_sum(vals, cls, n - 1, k, j) + if cls[n - 1] < k || (cls[n - 1] == k && n - 1 < j) {
            vals[n - 1]
        } else {
            0
        }
    }
}

/// The smaller of two integers.
pub open spec fn min_int(a: int, b: int) -> int {
    if a <= b { a } else { b }
}

/// The size granted to segment `i`, in units of `1 / common_den(cs)`: the
/// segments are served in class order, then index order, each taking what it
/// asks for or what is left of the extent, whichever is less.
pub open spec fn granted(cs: Seq<Constraint>, total: int, i: int) -> int {
    let cap = total * common_den(cs);
    let before = served_sum(desired_seq(cs, total), class_seq(cs), cs.len() as int, class_of(cs[i]), i);
    min_int(cap, before + desired_seq(cs, total)[i]) - min_int(cap, before)
}

pub open spec fn granted_seq(cs: Seq<Constraint>, total: int) -> Seq<int> {
    Seq::new(cs.len(), |i: int| granted(cs, total, i))
}

/// Sum of the first `i` values.
pub open spec fn prefix_sum(s: Seq<int>, i: int) -> int
    decreases i,
{
    if i <= 0 { 0 } else { prefix_sum(s, i - 1) + s[i - 1] }
}

proof fn lemma_served_step(vals: Seq<int>, cls: Seq<int>, n: int, k: int, j: int)
    requires
        0 <= j < n <= vals.len(),
        n <= cls.len(),
    ensures
        served_sum(vals, cls, n, k, j + 1) == served_sum(vals, cls, n, k, j) + if cls[j] == k { vals[j] } else { 0 },
    decreases n,
{
    if n - 1 > j {
        lemma_served_step(vals, cls, n - 1, k, j);
    } else {
        lemma_served_same(vals, cls, n - 1, k, j, j + 1);
    }
}

proof fn lemma_served_same(vals: Seq<int>, cls: Seq<int>, n: int, k: int, j1: int, j2: int)
    requires
        n <= j1,
        n <= j2,
    ensures
        served_sum(vals, cls, n, k, j1) == served_sum(vals, cls, n, k, j2),
    decreases n,
{
    if n > 0 {
        lemma_served_same(vals, cls, n - 1, k, j1, j2);
    }
}

proof fn lemma_served_pass(vals: Seq<int>, cls: Seq<int>, n: int, k: int, m: int)
    requires
        n <= m,
    ensures
        served_sum(vals, cls, n, k, m) == served_sum(vals, cls, n, k + 1, 0),
    decreases n,
{
    if n > 0 {
        lemma_served_pass(vals, cls, n - 1, k, m);
    }
}

proof fn lemma_served_none(vals: Seq<int>, cls: Seq<int>, n: int)
    requires
        n <= cls.len(),
        forall|m: int| 0 <= m < n ==> cls[m] >= 0,
    ensures
        served_sum(vals, cls, n, 0, 0) == 0,
    decreases n,
{
    if n > 0 {
        lemma_served_none(vals, cls, n - 1);
    }
}

proof fn lemma_served_all(vals: Seq<int>, cls: Seq<int>, n: int)
    requires
        n <= cls.len(),
        forall|m: int| 0 <= m < n ==> cls[m] < 3,
    ensures
        served_sum(vals, cls, n, 3, 0) == prefix_sum(vals, n),
    decreases n,
{
    if n > 0 {
        lemma_served_all(vals, cls, n - 1);
    }
}

fn class_exec(c: Constraint) -> (r: u8)
    ensures
        r as int == class_of(c),
{
    match c {
        Constraint::Min(_) => 0,
        Constraint::Max(_) => 2,
        _ => 1,
    }
}

fn den_exec(c: Constraint) -> (r: u64)
    ensures
        r as nat == den_of(c),
        r >= 1,
{
    match c {
        Constraint::Percentage(_) => 100,
        Constraint::Ratio(_, d) => if d == 0 { 1 } else { d as u64 },
        _ => 1,
    }
}

/// The least common multiple of the denominators of a list of constraints.
pub fn common_denominator(cs: &Vec<Constraint>) -> (r: u64)
    requires
        fits_exact(cs@),
    ensures
        r as nat == common_den(cs@),
{
    let mut d: u64 = 1;
    let mut i: usize = 0;
    while i < cs.len()
        invariant
            i <= cs.len(),
            fits_exact(cs@),
            d as nat == common_den(cs@.take(i as int)),
        decreases cs.len() - i,
    {
        let b = den_exec(cs[i]);
        proof {
            assert(cs@.take(i as int + 1).drop_last() == cs@.take(i as int));
            assert(cs@.take(i as int + 1).last() == cs@[i as int]);
            lemma_common_den(cs@.take(i as int));
            lemma_common_den_grows(cs@, i as int + 1);
        }
        proof {
            lemma_den_positive(cs@[i as int]);
            lemma_gcd(d as nat, b as nat);
            vstd::arithmetic::div_mod::lemma_div_is_ordered_by_denominator(d as int, 1, gcd(d as nat, b as nat) as int);
        }
        let g = gcd_exec(d as u128, b as u128);
        d = ((d as u128 / g) * b as u128) as u64;
        i = i + 1;
    }
    proof {
        assert(cs@.take(cs.len() as int) == cs@);
    }
    d
}

pub(crate) proof fn lemma_common_den_grows(cs: Seq<Constraint>, i: int)
    requires
        0 <= i <= cs.len(),
    ensures
        common_den(cs.take(i)) <= common_den(cs),
    decreases cs.len(),
{
    if i < cs.len() {
        let pre = cs.drop_last();
        assert(pre.take(i) == cs.take(i));
        lemma_common_den_grows(pre, i);
        lemma_common_den(pre);
        lemma_den_positive(cs.last());
        lemma_lcm(common_den(pre), den_of(cs.last()));
    } else {
        assert(cs.take(i) == cs);
    }
}

fn desired_exec(c: Constraint, total: u16, d: u64) -> (r: u128)
    requires
        d >= 1,
        (d as int) % (den_of(c) as int) == 0,
    ensures
        r as int == desired(c, total as int, d as int),
{
    proof {
        lemma_den_positive(c);
    }
    match c {
        Constraint::Length(n) => {
            assert((n as int) * (d as int) <= 0xffffu128 * 0xffff_ffff_ffff_ffffu128) by (nonlinear_arith)
                requires n <= 0xffff, d <= 0xffff_ffff_ffff_ffffu64;
            (n as u128) * (d as u128)
        },
        Constraint::Min(n) => {
            assert((n as int) * (d as int) <= 0xffffu128 * 0xffff_ffff_ffff_ffffu128) by (nonlinear_arith)
                requires n <= 0xffff, d <= 0xffff_ffff_ffff_ffffu64;
            (n as u128) * (d as u128)
        },
        Constraint::Max(n) => {
            assert((n as int) * (d as int) <= 0xffffu128 * 0xffff_ffff_ffff_ffffu128) by (nonlinear_arith)
                requires n <= 0xffff, d <= 0xffff_ffff_ffff_ffffu64;
            (n as u128) * (d as u128)
        },
        Constraint::Percentage(p) => {
            let q = (d / 100) as u128;
            assert((total as int) * (p as int) <= 0xffffu128 * 0xffffu128) by (nonlinear_arith)
                requires total <= 0xffff, p <= 0xffff;
            let tp = (total as u128) * (p as u128);
            assert(tp * q <= 0xffffu128 * 0xffffu128 * 0xffff_ffff_ffff_ffffu128) by (nonlinear_arith)
                requires tp <= 0xffffu128 * 0xffffu128, q <= 0xffff_ffff_ffff_ffffu128;
            tp * q
        },
        Constraint::Ratio(a, b) => {
            let den: u64 = if b == 0 { 1 } else { b as u64 };
            let q = (d / den) as u128;
            assert((total as int) * (a as int) <= 0xffffu128 * 0xffff_ffffu128) by (nonlinear_arith)
                requires total <= 0xffff, a <= 0xffff_ffff;
            let ta = (total as u128) * (a as u128);
            assert(ta * q <= 0xffffu128 * 0xffff_ffffu128 * 0xffff_ffff_ffff_ffffu128) by (nonlinear_arith)
                requires ta <= 0xffffu128 * 0xffff_ffffu128, q <= 0xffff_ffff_ffff_ffffu128;
            ta * q
        },
    }
}

proof fn lemma_granted_step(cap: int, before: int, want: int)
    requires
        cap >= 0,
        want >= 0,
        before >= 0,
    ensures
        min_int(want, cap - min_int(cap, before)) == min_int(cap, before + want) - min_int(cap, before),
        min_int(cap, before) <= min_int(cap, before + want),
{
}

proof fn lemma_desired_nonneg(cs: Seq<Constraint>, total: int, i: int)
    requires
        0 <= i < cs.len(),
        total >= 0,
    ensures
        desired_seq(cs, total)[i] >= 0,
{
    let d = common_den(cs) as int;
    let c = cs[i];
    lemma_den_positive(c);
    assert(d / 100 >= 0 && d / (den_of(c) as int) >= 0);
    match c {
        Constraint::Percentage(p) => {
            assert(total * p * (d / 100) >= 0) by (nonlinear_arith)
                requires total >= 0, p >= 0, d / 100 >= 0;
        },
        Constraint::Ratio(a, _) => {
            assert(total * a * (d / (den_of(c) as int)) >= 0) by (nonlinear_arith)
                requires total >= 0, a >= 0, d / (den_of(c) as int) >= 0;
        },
        Constraint::Length(v) => {
            assert(v * d >= 0) by (nonlinear_arith)
                requires v >= 0, d >= 0;
        },
        Constraint::Min(v) => {
            assert(v * d >= 0) by (nonlinear_arith)
                requires v >= 0, d >= 0;
        },
        Constraint::Max(v) => {
            assert(v * d >= 0) by (nonlinear_arith)
                requires v >= 0, d >= 0;
        },
    }
}

/// Grants each segment its size in units of `1 / d`, serving floors first,
/// then exact sizes, then ceilings, each from what is left of the extent.
fn grant_sizes(cs: &Vec<Constraint>, total: u16, d: u64) -> (r: Vec<u128>)
    requires
        fits_exact(cs@),
        d as nat == common_den(cs@),
    ensures
        r@.len() == cs@.len(),
        forall|i: int| 0 <= i < cs@.len() ==> r@[i] as int == granted(cs@, total as int, i),
        prefix_sum(granted_seq(cs@, total as int), cs@.len() as int) <= (total as int) * (d as int),
{
    let ghost n = cs@.len() as int;
    let ghost des = desired_seq(cs@, total as int);
    let ghost cls = class_seq(cs@);
    let ghost gs = granted_seq(cs@, total as int);
    let ghost capi = (total as int) * (d as int);
    proof {
        lemma_common_den(cs@);
        assert(capi <= 0xffffu128 * 0xffff_ffff_ffff_ffffu128) by (nonlinear_arith)
            requires capi == (total as int) * (d as int), total <= 0xffff, d <= 0xffff_ffff_ffff_ffffu64;
        assert(capi >= 0) by (nonlinear_arith)
            requires capi == (total as int) * (d as int), total >= 0, d >= 0;
        lemma_served_none(des, cls, n);
        lemma_served_none(gs, cls, n);
    }
    let cap: u128 = (total as u128) * (d as u128);
    let mut out: Vec<u128> = Vec::new();
    let mut i: usize = 0;
    while i < cs.len()
        invariant
            i <= cs.len(),
            out@.len() == i,
        decreases cs.len() - i,
    {
        out.push(0);
        i = i + 1;
    }
    let mut budget: u128 = cap;
    let mut k: u8 = 0;
    while k < 3
        invariant
            k <= 3,
            n == cs@.len(),
            out@.len() == n,
            cap as int == capi,
            capi == (total as int) * (d as int),
            capi >= 0,
            d as nat == common_den(cs@),
            des == desired_seq(cs@, total as int),
            cls == class_seq(cs@),
            gs == granted_seq(cs@, total as int),
            budget as int == capi - min_int(capi, served_sum(des, cls, n, k as int, 0)),
            served_sum(gs, cls, n, k as int, 0) == min_int(capi, served_sum(des, cls, n, k as int, 0)),
            forall|m: int| 0 <= m < n && cls[m] < k ==> out@[m] as int == gs[m],
            forall|m: int| 0 <= m < n ==> des[m] >= 0,
        decreases 3 - k,
    {
        let mut j: usize = 0;
        while j < cs.len()
            invariant
                k < 3,
                j <= cs.len(),
                n == cs@.len(),
                out@.len() == n,
                cap as int == capi,
                capi == (total as int) * (d as int),
                capi >= 0,
                d as nat == common_den(cs@),
                des == desired_seq(cs@, total as int),
                cls == class_seq(cs@),
                gs == granted_seq(cs@, total as int),
                budget as int == capi - min_int(capi, served_sum(des, cls, n, k as int, j as int)),
                served_sum(gs, cls, n, k as int, j as int) == min_int(capi, served_sum(des, cls, n, k as int, j as int)),
                forall|m: int| 0 <= m < n && (cls[m] < k || (cls[m] == k && m < j)) ==> out@[m] as int == gs[m],
                forall|m: int| 0 <= m < n ==> des[m] >= 0,
            decreases cs.len() - j,
        {
            let c = cs[j];
            if class_exec(c) == k {
                proof {
                    lemma_common_den(cs@);
                    assert(common_den(cs@) % den_of(cs@[j as int]) == 0);
                    lemma_served_step(des, cls, n, k as int, j as int);
                    lemma_served_step(gs, cls, n, k as int, j as int);
                    lemma_served_nonneg(des, cls, n, k as int, j as int);
                    lemma_granted_step(capi, served_sum(des, cls, n, k as int, j as int), des[j as int]);
                    assert(cls[j as int] == k as int);
                    assert(gs[j as int] == granted(cs@, total as int, j as int));
                }
                let want = desired_exec(c, total, d);
                let g = if want <= budget { want } else { budget };
                out.set(j, g);
                budget = budget - g;
                proof {
                    let before = served_sum(des, cls, n, k as int, j as int);
                    assert(want as int == des[j as int]);
                    assert(g as int == min_int(des[j as int], capi - min_int(capi, before)));
                    assert(capi == (total as int) * common_den(cs@));
                    assert(gs[j as int] == min_int(capi, before + des[j as int]) - min_int(capi, before));
                    assert(g as int == gs[j as int]);
                }
            } else {
                proof {
                    lemma_served_step(des, cls, n, k as int, j as int);
                    lemma_served_step(gs, cls, n, k as int, j as int);
                }
            }
            j = j + 1;
        }
        proof {
            lemma_served_pass(des, cls, n, k as int, n);
            lemma_served_pass(gs, cls, n, k as int, n);
        }
        k = k + 1;
    }
    proof {
        lemma_served_all(gs, cls, n);
        assert forall|i: int| 0 <= i < n implies out@[i] as int == granted(cs@, total as int, i) by {
            assert(cls[i] < 3);
            assert(gs[i] == granted(cs@, total as int, i));
        }
    }
    out
}

proof fn lemma_served_nonneg(vals: Seq<int>, cls: Seq<int>, n: int, k: int, j: int)
    requires
        n <= vals.len(),
        forall|m: int| 0 <= m < n ==> vals[m] >= 0,
    ensures
        served_sum(vals, cls, n, k, j) >= 0,
    decreases n,
{
    if n > 0 {
        lemma_served_nonneg(vals, cls, n - 1, k, j);
    }
}

/// The end of the first `i` segments before slack is handed out: the exact
/// position of that boundary, rounded to the nearest unit.
pub open spec fn exact_end(cs: Seq<Constraint>, total: int, i: int) -> int {
    round_half_even(prefix_sum(granted_seq(cs, total), i), common_den(cs) as int)
}

/// Segment lengths as the differences of consecutive rounded boundaries.
pub open spec fn exact_lengths(cs: Seq<Constraint>, total: int) -> Seq<int> {
    Seq::new(cs.len(), |i: int| exact_end(cs, total, i + 1) - exact_end(cs, total, i))
}

/// The part of the extent that the constraints leave unused.
pub open spec fn slack(cs: Seq<Constraint>, total: int) -> int {
    total - exact_end(cs, total, cs.len() as int)
}

/// Some constraint is a floor.
pub open spec fn has_min(cs: Seq<Constraint>) -> bool {
    exists|i: int| 0 <= i < cs.len() && cs[i] is Min
}

/// The segments that grow under even distribution: the floors if there are
/// any, else all of them.
pub open spec fn grow_mask(cs: Seq<Constraint>) -> Seq<bool> {
    Seq::new(cs.len(), |i: int| !has_min(cs) || cs[i] is Min)
}

/// Space needed to raise every growable length of the first `n` to level `h`.
pub open spec fn fill_cost(xs: Seq<int>, g: Seq<bool>, h: int, n: int) -> int
    decreases n,
{
    if n <= 0 {
        0
    } else {
        fill_cost(xs, g, h, n - 1) + if g[n - 1] && xs[n - 1] <= h { h - xs[n - 1] } else { 0 }
    }
}

/// The highest level, at most `cap`, that `s` units of space can raise the growable lengths to.
pub open spec fn fill_level(xs: Seq<int>, g: Seq<bool>, s: int, h: int, cap: int) -> int
    decreases cap - h,
{
    if h < cap && fill_cost(xs, g, h + 1, xs.len() as int) <= s {
        fill_level(xs, g, s, h + 1, cap)
    } else {
        h
    }
}

/// How many of the first `i` lengths are growable and at or below level `h`.
pub open spec fn level_count(xs: Seq<int>, g: Seq<bool>, h: int, i: int) -> int
    decreases i,
{
    if i <= 0 {
        0
    } else {
        level_count(xs, g, h, i - 1) + if g[i - 1] && xs[i - 1] <= h { 1int } else { 0 }
    }
}

/// Raises the growable lengths to a common level with `s` units of space; the
/// units left over go one each to the earliest lengths at that level.
pub open spec fn even_fill(xs: Seq<int>, g: Seq<bool>, s: int, cap: int) -> Seq<int> {
    let h = fill_level(xs, g, s, 0, cap);
    let extra = s - fill_cost(xs, g, h, xs.len() as int);
    Seq::new(
        xs.len(),
        |i: int|
            if g[i] && xs[i] <= h {
                h + if level_count(xs, g, h, i) < extra { 1int } else { 0 }
            } else {
                xs[i]
            },
    )
}

/// The segment lengths that a split of `total` under `cs` and `policy` yields.
pub open spec fn split_lengths(cs: Seq<Constraint>, total: int, policy: SegmentSize) -> Seq<int> {
    let xs = exact_lengths(cs, total);
    match policy {
        SegmentSize::Exact => xs,
        SegmentSize::LastTakesRemainder => if cs.len() == 0 {
            xs
        } else {
            xs.update(cs.len() - 1, xs[cs.len() - 1] + slack(cs, total))
        },
        SegmentSize::EvenDistribution => even_fill(xs, grow_mask(cs), slack(cs, total), total),
    }
}

pub(crate) proof fn lemma_prefix_mono(s: Seq<int>, i: int, j: int)
    requires
        0 <= i <= j <= s.len(),
        forall|m: int| 0 <= m < s.len() ==> s[m] >= 0,
    ensures
        0 <= prefix_sum(s, i) <= prefix_sum(s, j),
    decreases j,
{
    if j > i {
        lemma_prefix_mono(s, i, j - 1);
    } else if i > 0 {
        lemma_prefix_mono(s, 0, i - 1);
    }
}

proof fn lemma_granted_nonneg(cs: Seq<Constraint>, total: int)
    requires
        total >= 0,
    ensures
        forall|m: int| 0 <= m < cs.len() ==> granted_seq(cs, total)[m] >= 0,
{
    assert forall|m: int| 0 <= m < cs.len() implies granted_seq(cs, total)[m] >= 0 by {
        let des = desired_seq(cs, total);
        assert forall|q: int| 0 <= q < cs.len() implies des[q] >= 0 by {
            lemma_desired_nonneg(cs, total, q);
        }
        lemma_served_nonneg(des, class_seq(cs), cs.len() as int, class_of(cs[m]), m);
        lemma_desired_nonneg(cs, total, m);
        lemma_common_den(cs);
        assert(total * common_den(cs) >= 0) by (nonlinear_arith)
            requires total >= 0, common_den(cs) >= 1;
        lemma_granted_step(
            total * common_den(cs),
            served_sum(des, class_seq(cs), cs.len() as int, class_of(cs[m]), m),
            des[m],
        );
    }
}

/// Exact ends are ordered and stay within the extent.
proof fn lemma_exact_end_bounds(cs: Seq<Constraint>, total: int, i: int, j: int)
    requires
        0 <= i <= j <= cs.len(),
        total >= 0,
        prefix_sum(granted_seq(cs, total), cs.len() as int) <= total * common_den(cs),
    ensures
        0 <= exact_end(cs, total, i) <= exact_end(cs, total, j) <= total,
{
    let gs = granted_seq(cs, total);
    let d = common_den(cs) as int;
    lemma_common_den(cs);
    lemma_granted_nonneg(cs, total);
    lemma_prefix_mono(gs, i, j);
    lemma_prefix_mono(gs, j, cs.len() as int);
    lemma_round_monotone(prefix_sum(gs, i), prefix_sum(gs, j), d);
    lemma_round_bounds(prefix_sum(gs, i), d, total);
    lemma_round_bounds(prefix_sum(gs, j), d, total);
}

/// Exact lengths add up to the rounded end of the last segment.
proof fn lemma_exact_prefix(cs: Seq<Constraint>, total: int, i: int)
    requires
        0 <= i <= cs.len(),
    ensures
        prefix_sum(exact_lengths(cs, total), i) == exact_end(cs, total, i) - exact_end(cs, total, 0),
    decreases i,
{
    if i > 0 {
        lemma_exact_prefix(cs, total, i - 1);
    }
}

proof fn lemma_exact_start(cs: Seq<Constraint>, total: int)
    ensures
        exact_end(cs, total, 0) == 0,
{
    lemma_common_den(cs);
    lemma_round_bounds(0, common_den(cs) as int, 0);
}

/// Computes the lengths before slack is handed out.
fn exact_lengths_exec(cs: &Vec<Constraint>, total: u16) -> (r: Vec<u16>)
    requires
        fits_exact(cs@),
    ensures
        r@.len() == cs@.len(),
        forall|i: int| 0 <= i < cs@.len() ==> r@[i] as int == exact_lengths(cs@, total as int)[i],
        exact_end(cs@, total as int, cs@.len() as int) <= total,
{
    let d = common_denominator(cs);
    let grants = grant_sizes(cs, total, d);
    let ghost gs = granted_seq(cs@, total as int);
    let ghost capi = (total as int) * (d as int);
    proof {
        lemma_common_den(cs@);
        lemma_granted_nonneg(cs@, total as int);
        lemma_exact_start(cs@, total as int);
        assert(capi <= 0xffffu128 * 0xffff_ffff_ffff_ffffu128) by (nonlinear_arith)
            requires capi == (total as int) * (d as int), total <= 0xffff, d <= 0xffff_ffff_ffff_ffffu64;
    }
    let mut out: Vec<u16> = Vec::new();
    let mut pos: u128 = 0;
    let mut prev: u128 = 0;
    let mut i: usize = 0;
    while i < cs.len()
        invariant
            i <= cs.len(),
            grants@.len() == cs@.len(),
            forall|m: int| 0 <= m < cs@.len() ==> grants@[m] as int == gs[m],
            gs == granted_seq(cs@, total as int),
            d as nat == common_den(cs@),
            d >= 1,
            capi == (total as int) * (d as int),
            capi <= 0xffffu128 * 0xffff_ffff_ffff_ffffu128,
            prefix_sum(gs, cs@.len() as int) <= capi,
            forall|m: int| 0 <= m < cs@.len() ==> gs[m] >= 0,
            pos as int == prefix_sum(gs, i as int),
            prev as int == exact_end(cs@, total as int, i as int),
            out@.len() == i,
            forall|m: int| 0 <= m < i ==> out@[m] as int == exact_lengths(cs@, total as int)[m],
        decreases cs.len() - i,
    {
        proof {
            lemma_prefix_mono(gs, i as int + 1, cs@.len() as int);
            lemma_exact_end_bounds(cs@, total as int, i as int, i as int + 1);
        }
        pos = pos + grants[i];
        let end = round_div(pos, d as u128);
        out.push((end - prev) as u16);
        prev = end;
        i = i + 1;
    }
    proof {
        lemma_exact_end_bounds(cs@, total as int, cs@.len() as int, cs@.len() as int);
    }
    out
}

/// The values of a sequence of `u16` as integers.
pub open spec fn ints(v: Seq<u16>) -> Seq<int> {
    Seq::new(v.len(), |i: int| v[i] as int)
}

proof fn lemma_cost_mono(xs: Seq<int>, g: Seq<bool>, h: int, i: int, j: int)
    requires
        0 <= i <= j,
    ensures
        fill_cost(xs, g, h, i) <= fill_cost(xs, g, h, j),
    decreases j,
{
    if j > i {
        lemma_cost_mono(xs, g, h, i, j - 1);
    }
}

proof fn lemma_cost_zero(xs: Seq<int>, g: Seq<bool>, n: int)
    requires
        n <= xs.len(),
        forall|m: int| 0 <= m < xs.len() ==> xs[m] >= 0,
    ensures
        fill_cost(xs, g, 0, n) == 0,
    decreases n,
{
    if n > 0 {
        lemma_cost_zero(xs, g, n - 1);
    }
}

proof fn lemma_level_cost(xs: Seq<int>, g: Seq<bool>, s: int, h: int, cap: int)
    requires
        fill_cost(xs, g, h, xs.len() as int) <= s,
    ensures
        fill_cost(xs, g, fill_level(xs, g, s, h, cap), xs.len() as int) <= s,
        h <= fill_level(xs, g, s, h, cap),
        h <= cap ==> fill_level(xs, g, s, h, cap) <= cap,
    decreases cap - h,
{
    if h < cap && fill_cost(xs, g, h + 1, xs.len() as int) <= s {
        lemma_level_cost(xs, g, s, h + 1, cap);
    }
}

proof fn lemma_fill_prefix(xs: Seq<int>, g: Seq<bool>, s: int, cap: int, i: int)
    requires
        0 <= i <= xs.len(),
        g.len() == xs.len(),
        s - fill_cost(xs, g, fill_level(xs, g, s, 0, cap), xs.len() as int) >= 0,
    ensures
        prefix_sum(even_fill(xs, g, s, cap), i) == prefix_sum(xs, i) + fill_cost(
            xs,
            g,
            fill_level(xs, g, s, 0, cap),
            i,
        ) + min_int(s - fill_cost(xs, g, fill_level(xs, g, s, 0, cap), xs.len() as int), level_count(xs, g, fill_level(xs, g, s, 0, cap), i)),
    decreases i,
{
    if i > 0 {
        lemma_fill_prefix(xs, g, s, cap, i - 1);
        lemma_level_count_nonneg(xs, g, fill_level(xs, g, s, 0, cap), i - 1);
    }
}

proof fn lemma_level_count_nonneg(xs: Seq<int>, g: Seq<bool>, h: int, i: int)
    ensures
        level_count(xs, g, h, i) >= 0,
    decreases i,
{
    if i > 0 {
        lemma_level_count_nonneg(xs, g, h, i - 1);
    }
}

/// Even filling only raises lengths, and uses no more than the space given.
proof fn lemma_even_fill_sum(xs: Seq<int>, g: Seq<bool>, s: int, cap: int)
    requires
        g.len() == xs.len(),
        s >= 0,
        forall|m: int| 0 <= m < xs.len() ==> xs[m] >= 0,
    ensures
        prefix_sum(even_fill(xs, g, s, cap), xs.len() as int) <= prefix_sum(xs, xs.len() as int) + s,
        forall|m: int| 0 <= m < xs.len() ==> even_fill(xs, g, s, cap)[m] >= xs[m],
{
    lemma_cost_zero(xs, g, xs.len() as int);
    lemma_level_cost(xs, g, s, 0, cap);
    lemma_fill_prefix(xs, g, s, cap, xs.len() as int);
    let h = fill_level(xs, g, s, 0, cap);
    assert forall|m: int| 0 <= m < xs.len() implies even_fill(xs, g, s, cap)[m] >= xs[m] by {
        lemma_level_count_nonneg(xs, g, h, m);
    }
}

/// Whether raising the growable lengths to level `h` costs at most `s`.
fn fill_fits(xs: &Vec<u16>, g: &Vec<bool>, h: u32, s: u16) -> (r: bool)
    requires
        xs@.len() == g@.len(),
        h <= 0x10000,
    ensures
        r == (fill_cost(ints(xs@), g@, h as int, xs@.len() as int) <= s),
{
    let ghost x = ints(xs@);
    let mut acc: u32 = 0;
    let mut i: usize = 0;
    while i < xs.len()
        invariant
            i <= xs.len(),
            xs@.len() == g@.len(),
            x == ints(xs@),
            h <= 0x10000,
            acc as int == fill_cost(x, g@, h as int, i as int),
            acc <= s,
        decreases xs.len() - i,
    {
        if g[i] && (xs[i] as u32) <= h {
            acc = acc + (h - xs[i] as u32);
        }
        i = i + 1;
        if acc > s as u32 {
            proof {
                lemma_cost_mono(x, g@, h as int, i as int, xs@.len() as int);
            }
            return false;
        }
    }
    true
}

/// The cost of raising the growable lengths to a level that `s` can pay for.
fn fill_cost_exec(xs: &Vec<u16>, g: &Vec<bool>, h: u32, s: u16) -> (r: u16)
    requires
        xs@.len() == g@.len(),
        h <= 0x10000,
        fill_cost(ints(xs@), g@, h as int, xs@.len() as int) <= s,
    ensures
        r as int == fill_cost(ints(xs@), g@, h as int, xs@.len() as int),
{
    let ghost x = ints(xs@);
    let mut acc: u16 = 0;
    let mut i: usize = 0;
    while i < xs.len()
        invariant
            i <= xs.len(),
            xs@.len() == g@.len(),
            x == ints(xs@),
            h <= 0x10000,
            fill_cost(x, g@, h as int, xs@.len() as int) <= s,
            acc as int == fill_cost(x, g@, h as int, i as int),
        decreases xs.len() - i,
    {
        proof {
            lemma_cost_mono(x, g@, h as int, i as int + 1, xs@.len() as int);
        }
        if g[i] && (xs[i] as u32) <= h {
            acc = acc + (h - xs[i] as u32) as u16;
        }
        i = i + 1;
    }
    acc
}

/// Shares `s` units of space among the growable lengths, raising them level.
fn even_fill_exec(xs: &Vec<u16>, g: &Vec<bool>, s: u16, cap: u16) -> (r: Vec<u16>)
    requires
        xs@.len() == g@.len(),
        prefix_sum(ints(xs@), xs@.len() as int) + s <= cap,
    ensures
        r@.len() == xs@.len(),
        forall|i: int| 0 <= i < xs@.len() ==> r@[i] as int == even_fill(ints(xs@), g@, s as int, cap as int)[i],
{
    let ghost x = ints(xs@);
    let ghost n = xs@.len() as int;
    proof {
        lemma_cost_zero(x, g@, n);
    }
    let mut h: u32 = 0;
    while h < cap as u32 && fill_fits(xs, g, h + 1, s)
        invariant
            xs@.len() == g@.len(),
            x == ints(xs@),
            n == xs@.len(),
            h <= cap,
            fill_cost(x, g@, h as int, n) <= s,
            fill_level(x, g@, s as int, 0, cap as int) == fill_level(x, g@, s as int, h as int, cap as int),
        decreases cap - h,
    {
        h = h + 1;
    }
    let ghost ef = even_fill(x, g@, s as int, cap as int);
    proof {
        assert(fill_level(x, g@, s as int, h as int, cap as int) == h);
        assert forall|m: int| 0 <= m < n implies x[m] >= 0 by {}
        lemma_even_fill_sum(x, g@, s as int, cap as int);
        assert forall|m: int| 0 <= m < n implies ef[m] >= 0 by {}
    }
    let extra = s - fill_cost_exec(xs, g, h, s);
    let mut out: Vec<u16> = Vec::new();
    let mut count: usize = 0;
    let mut i: usize = 0;
    while i < xs.len()
        invariant
            i <= xs.len(),
            xs@.len() == g@.len(),
            x == ints(xs@),
            n == xs@.len(),
            h as int == fill_level(x, g@, s as int, 0, cap as int),
            extra as int == s - fill_cost(x, g@, h as int, n),
            ef == even_fill(x, g@, s as int, cap as int),
            prefix_sum(ef, n) <= cap,
            forall|m: int| 0 <= m < n ==> ef[m] >= 0,
            count as int == level_count(x, g@, h as int, i as int),
            count <= i,
            out@.len() == i,
            forall|m: int| 0 <= m < i ==> out@[m] as int == ef[m],
        decreases xs.len() - i,
    {
        proof {
            lemma_prefix_mono(ef, i as int, i as int + 1);
            lemma_prefix_mono(ef, i as int + 1, n);
        }
        if g[i] && (xs[i] as u32) <= h {
            let bump: u32 = if count < extra as usize { 1 } else { 0 };
            out.push((h + bump) as u16);
            count = count + 1;
        } else {
            out.push(xs[i]);
        }
        i = i + 1;
    }
    out
}

proof fn lemma_served_granted(cs: Seq<Constraint>, total: int, k: int, j: int)
    requires
        0 <= k <= 3,
        0 <= j <= cs.len(),
        total >= 0,
    ensures
        served_sum(granted_seq(cs, total), class_seq(cs), cs.len() as int, k, j) == min_int(
            total * common_den(cs),
            served_sum(desired_seq(cs, total), class_seq(cs), cs.len() as int, k, j),
        ),
    decreases k, j,
{
    let n = cs.len() as int;
    let des = desired_seq(cs, total);
    let cls = class_seq(cs);
    let gs = granted_seq(cs, total);
    let cap = total * common_den(cs);
    lemma_common_den(cs);
    assert(cap >= 0) by (nonlinear_arith)
        requires cap == total * common_den(cs), total >= 0;
    if j > 0 {
        lemma_served_granted(cs, total, k, j - 1);
        lemma_served_step(des, cls, n, k, j - 1);
        lemma_served_step(gs, cls, n, k, j - 1);
        if cls[j - 1] == k {
            assert forall|q: int| 0 <= q < n implies des[q] >= 0 by {
                lemma_desired_nonneg(cs, total, q);
            }
            lemma_served_nonneg(des, cls, n, k, j - 1);
            lemma_granted_step(cap, served_sum(des, cls, n, k, j - 1), des[j - 1]);
            assert(gs[j - 1] == granted(cs, total, j - 1));
        }
    } else if k > 0 {
        lemma_served_granted(cs, total, k - 1, n);
        lemma_served_pass(des, cls, n, k - 1, n);
        lemma_served_pass(gs, cls, n, k - 1, n);
    } else {
        lemma_served_none(des, cls, n);
        lemma_served_none(gs, cls, n);
    }
}

/// The granted sizes never add up to more than the extent.
proof fn lemma_granted_total(cs: Seq<Constraint>, total: int)
    requires
        total >= 0,
    ensures
        prefix_sum(granted_seq(cs, total), cs.len() as int) <= total * common_den(cs),
{
    lemma_served_granted(cs, total, 3, 0);
    lemma_served_all(granted_seq(cs, total), class_seq(cs), cs.len() as int);
}

proof fn lemma_exact_lengths(cs: Seq<Constraint>, total: int)
    requires
        total >= 0,
    ensures
        forall|m: int| 0 <= m < cs.len() ==> exact_lengths(cs, total)[m] >= 0,
        prefix_sum(exact_lengths(cs, total), cs.len() as int) == exact_end(cs, total, cs.len() as int),
        0 <= exact_end(cs, total, cs.len() as int) <= total,
{
    lemma_granted_total(cs, total);
    assert forall|m: int| 0 <= m < cs.len() implies exact_lengths(cs, total)[m] >= 0 by {
        lemma_exact_end_bounds(cs, total, m, m + 1);
    }
    lemma_exact_prefix(cs, total, cs.len() as int);
    lemma_exact_start(cs, total);
    lemma_exact_end_bounds(cs, total, cs.len() as int, cs.len() as int);
}

proof fn lemma_prefix_update(s: Seq<int>, i: int, v: int)
    requires
        0 <= i < s.len(),
    ensures
        prefix_sum(s.update(i, v), i + 1) == prefix_sum(s, i) + v,
        forall|j: int| 0 <= j <= i ==> prefix_sum(s.update(i, v), j) == prefix_sum(s, j),
{
    assert forall|j: int| 0 <= j <= i implies prefix_sum(s.update(i, v), j) == prefix_sum(s, j) by {
        lemma_prefix_update_below(s, i, v, j);
    }
}

proof fn lemma_prefix_update_below(s: Seq<int>, i: int, v: int, j: int)
    requires
        0 <= j <= i < s.len(),
    ensures
        prefix_sum(s.update(i, v), j) == prefix_sum(s, j),
    decreases j,
{
    if j > 0 {
        lemma_prefix_update_below(s, i, v, j - 1);
    }
}

/// No split reaches past its extent, whatever the constraints and the
/// policy, and no segment has a negative length.
pub proof fn lemma_split_within(cs: Seq<Constraint>, total: int, policy: SegmentSize)
    requires
        total >= 0,
    ensures
        prefix_sum(split_lengths(cs, total, policy), cs.len() as int) <= total,
        forall|m: int| 0 <= m < cs.len() ==> split_lengths(cs, total, policy)[m] >= 0,
{
    let xs = exact_lengths(cs, total);
    let n = cs.len() as int;
    lemma_exact_lengths(cs, total);
    match policy {
        SegmentSize::Exact => {},
        SegmentSize::LastTakesRemainder => {
            if n > 0 {
                lemma_prefix_update(xs, n - 1, xs[n - 1] + slack(cs, total));
            }
        },
        SegmentSize::EvenDistribution => {
            lemma_even_fill_sum(xs, grow_mask(cs), slack(cs, total), total);
        },
    }
}

/// Under `Exact`, the segments take exactly what the constraints ask for,
/// capped at the extent and rounded: the slack stays unused after them.
pub proof fn lemma_exact_uses_demand(cs: Seq<Constraint>, total: int)
    requires
        total >= 0,
    ensures
        prefix_sum(split_lengths(cs, total, SegmentSize::Exact), cs.len() as int) == round_half_even(
            min_int(total * common_den(cs), prefix_sum(desired_seq(cs, total), cs.len() as int)),
            common_den(cs) as int,
        ),
{
    lemma_exact_lengths(cs, total);
    lemma_served_granted(cs, total, 3, 0);
    lemma_served_all(granted_seq(cs, total), class_seq(cs), cs.len() as int);
    lemma_served_all(desired_seq(cs, total), class_seq(cs), cs.len() as int);
}

/// Under `LastTakesRemainder`, every segment but the last is as under
/// `Exact`, the last one receives all of the slack, and the segments fill
/// the extent.
pub proof fn lemma_last_takes_slack(cs: Seq<Constraint>, total: int)
    requires
        total >= 0,
        cs.len() > 0,
    ensures
        forall|i: int|
            0 <= i < cs.len() - 1 ==> split_lengths(cs, total, SegmentSize::LastTakesRemainder)[i] == split_lengths(
                cs,
                total,
                SegmentSize::Exact,
            )[i],
        split_lengths(cs, total, SegmentSize::LastTakesRemainder)[cs.len() - 1] == split_lengths(
            cs,
            total,
            SegmentSize::Exact,
        )[cs.len() - 1] + (total - prefix_sum(split_lengths(cs, total, SegmentSize::Exact), cs.len() as int)),
        prefix_sum(split_lengths(cs, total, SegmentSize::LastTakesRemainder), cs.len() as int) == total,
{
    let xs = exact_lengths(cs, total);
    let n = cs.len() as int;
    lemma_exact_lengths(cs, total);
    lemma_prefix_update(xs, n - 1, xs[n - 1] + slack(cs, total));
}

proof fn lemma_served_one_class(vals: Seq<int>, cls: Seq<int>, n: int, c: int, j: int)
    requires
        0 <= n <= cls.len(),
        n <= vals.len(),
        0 <= j,
        forall|m: int| 0 <= m < n ==> cls[m] == c,
    ensures
        served_sum(vals, cls, n, c, j) == prefix_sum(vals, if n < j { n } else { j }),
    decreases n,
{
    if n > 0 {
        lemma_served_one_class(vals, cls, n - 1, c, j);
    }
}

proof fn lemma_prefix_constant(vals: Seq<int>, k: int, i: int)
    requires
        0 <= i <= vals.len(),
        forall|m: int| 0 <= m < vals.len() ==> vals[m] == k,
    ensures
        prefix_sum(vals, i) == i * k,
    decreases i,
{
    if i > 0 {
        lemma_prefix_constant(vals, k, i - 1);
        assert(i * k == (i - 1) * k + k) by (nonlinear_arith);
    } else {
        assert(i * k == 0) by (nonlinear_arith)
            requires i == 0;
    }
}

proof fn lemma_level_reaches(xs: Seq<int>, g: Seq<bool>, s: int, h: int, cap: int, m: int)
    requires
        h <= m <= cap,
        forall|q: int| h < q <= m ==> fill_cost(xs, g, q, xs.len() as int) <= s,
    ensures
        fill_level(xs, g, s, h, cap) >= m,
    decreases cap - h,
{
    if h < m {
        lemma_level_reaches(xs, g, s, h + 1, cap, m);
    } else {
        lemma_level_above(xs, g, s, h, cap);
    }
}

proof fn lemma_level_above(xs: Seq<int>, g: Seq<bool>, s: int, h: int, cap: int)
    ensures
        fill_level(xs, g, s, h, cap) >= h,
    decreases cap - h,
{
    if h < cap && fill_cost(xs, g, h + 1, xs.len() as int) <= s {
        lemma_level_above(xs, g, s, h + 1, cap);
    }
}

/// A rounded position is within half a unit of the exact one.
proof fn lemma_round_close(n: int, d: int)
    requires
        n >= 0,
        d > 0,
    ensures
        2 * (d * round_half_even(n, d) - n) <= d,
        2 * (n - d * round_half_even(n, d)) <= d,
{
    vstd::arithmetic::div_mod::lemma_fundamental_div_mod(n, d);
    let q = n / d;
    let r = n % d;
    assert(d * (q + 1) == d * q + d) by (nonlinear_arith);
}

/// Lengths that all lie in `[a, a + 1]` stay within one unit of each other
/// after even filling.
proof fn lemma_fill_level_pair(xs: Seq<int>, g: Seq<bool>, s: int, cap: int, a: int)
    requires
        0 <= a <= cap,
        g.len() == xs.len(),
        forall|m: int| 0 <= m < xs.len() ==> g[m],
        forall|m: int| 0 <= m < xs.len() ==> a <= #[trigger] xs[m] <= a + 1,
        s >= 0,
    ensures
        forall|i: int, j: int|
            0 <= i < xs.len() && 0 <= j < xs.len() ==> even_fill(xs, g, s, cap)[i] - even_fill(xs, g, s, cap)[j] <= 1,
{
    assert forall|q: int| 0 < q <= a implies fill_cost(xs, g, q, xs.len() as int) <= s by {
        lemma_cost_at_most(xs, g, q, a, xs.len() as int);
    }
    lemma_level_reaches(xs, g, s, 0, cap, a);
    let h = fill_level(xs, g, s, 0, cap);
    let ef = even_fill(xs, g, s, cap);
    if h >= a + 1 {
        assert forall|i: int| 0 <= i < xs.len() implies h <= #[trigger] ef[i] <= h + 1 by {}
    } else {
        assert forall|i: int| 0 <= i < xs.len() implies a <= #[trigger] ef[i] <= a + 1 by {}
    }
}

proof fn lemma_cost_at_most(xs: Seq<int>, g: Seq<bool>, h: int, a: int, n: int)
    requires
        0 <= n <= xs.len(),
        h <= a,
        forall|m: int| 0 <= m < xs.len() ==> a <= #[trigger] xs[m],
    ensures
        fill_cost(xs, g, h, n) == 0,
    decreases n,
{
    if n > 0 {
        lemma_cost_at_most(xs, g, h, a, n - 1);
    }
}

/// Under `EvenDistribution`, segments that all carry the same constraint,
/// and fit in the extent together, end up within one unit of each other.
pub proof fn lemma_even_within_one(cs: Seq<Constraint>, total: int)
    requires
        total >= 0,
        cs.len() > 0,
        forall|i: int| 0 <= i < cs.len() ==> #[trigger] cs[i] == cs[0],
        cs.len() * desired(cs[0], total, common_den(cs) as int) <= total * common_den(cs),
    ensures
        forall|i: int, j: int|
            0 <= i < cs.len() && 0 <= j < cs.len() ==> split_lengths(cs, total, SegmentSize::EvenDistribution)[i]
                - split_lengths(cs, total, SegmentSize::EvenDistribution)[j] <= 1,
{
    let n = cs.len() as int;
    let c = cs[0];
    let d = common_den(cs) as int;
    lemma_common_den(cs);
    let k = desired(c, total, d);
    let des = desired_seq(cs, total);
    let cls = class_seq(cs);
    let gs = granted_seq(cs, total);
    assert(k >= 0) by {
        lemma_desired_nonneg(cs, total, 0);
    }
    assert forall|m: int| 0 <= m < n implies des[m] == k by {}
    assert forall|m: int| 0 <= m < n implies cls[m] == class_of(c) by {}
    assert forall|m: int| 0 <= m < n implies gs[m] == k by {
        lemma_served_one_class(des, cls, n, class_of(c), m);
        lemma_prefix_constant(des, k, m);
        assert((m + 1) * k <= n * k) by (nonlinear_arith)
            requires m + 1 <= n, k >= 0;
        assert(m * k + k == (m + 1) * k) by (nonlinear_arith);
        assert(gs[m] == granted(cs, total, m));
    }
    let xs = exact_lengths(cs, total);
    let a = k / d;
    vstd::arithmetic::div_mod::lemma_fundamental_div_mod(k, d);
    assert forall|m: int| 0 <= m < n implies a <= #[trigger] xs[m] <= a + 1 by {
        lemma_prefix_constant(gs, k, m);
        lemma_prefix_constant(gs, k, m + 1);
        assert(m * k >= 0 && (m + 1) * k >= 0) by (nonlinear_arith)
            requires m >= 0, k >= 0;
        let lo = round_half_even(m * k, d);
        let hi = round_half_even((m + 1) * k, d);
        lemma_round_close(m * k, d);
        lemma_round_close((m + 1) * k, d);
        assert((m + 1) * k == m * k + k) by (nonlinear_arith);
        assert(xs[m] == hi - lo);
        if k % d == 0 {
            assert(m * k == (m * a) * d && (m + 1) * k == ((m + 1) * a) * d) by (nonlinear_arith)
                requires k == d * a + 0;
            lemma_round_bounds(m * k, d, m * a);
            lemma_round_bounds((m + 1) * k, d, (m + 1) * a);
            assert((m + 1) * a - m * a == a) by (nonlinear_arith);
        } else {
            assert(d * (hi - lo) >= k - d && d * (hi - lo) <= k + d) by (nonlinear_arith)
                requires 2 * (d * hi - (m * k + k)) <= d, 2 * ((m * k + k) - d * hi) <= d, 2 * (d * lo - m * k) <= d,
                    2 * (m * k - d * lo) <= d;
            assert(a <= hi - lo <= a + 1) by (nonlinear_arith)
                requires d * (hi - lo) >= k - d, d * (hi - lo) <= k + d, k == d * a + k % d, 0 < k % d < d;
        }
    }
    let g = grow_mask(cs);
    assert forall|m: int| 0 <= m < n implies g[m] by {
        if has_min(cs) {
            let w = choose|w: int| 0 <= w < cs.len() && cs[w] is Min;
            assert(cs[w] == c);
        }
    }
    lemma_exact_lengths(cs, total);
    lemma_prefix_mono(xs, 1, n);
    assert(a <= total) by {
        assert(prefix_sum(xs, 0) == 0);
        assert(prefix_sum(xs, 1) == xs[0]);
    }
    assert(a >= 0) by {
        vstd::arithmetic::div_mod::lemma_div_pos_is_pos(k, d);
    }
    lemma_fill_level_pair(xs, g, slack(cs, total), total, a);
}

fn grow_mask_exec(cs: &Vec<Constraint>) -> (r: Vec<bool>)
    ensures
        r@ == grow_mask(cs@),
{
    let mut any = false;
    let mut i: usize = 0;
    while i < cs.len()
        invariant
            i <= cs.len(),
            any == exists|m: int| 0 <= m < i && cs@[m] is Min,
        decreases cs.len() - i,
    {
        if matches!(cs[i], Constraint::Min(_)) {
            any = true;
        }
        i = i + 1;
    }
    let mut out: Vec<bool> = Vec::new();
    let mut j: usize = 0;
    while j < cs.len()
        invariant
            j <= cs.len(),
            any == has_min(cs@),
            out@.len() == j,
            forall|m: int| 0 <= m < j ==> out@[m] == grow_mask(cs@)[m],
        decreases cs.len() - j,
    {
        out.push(!any || matches!(cs[j], Constraint::Min(_)));
        j = j + 1;
    }
    assert(out@ =~= grow_mask(cs@));
    out
}

/// Splits an extent of `total` units into one segment per constraint, each
/// given as `(offset, length)`, the segments in order and touching.
pub fn split(total: u16, cs: &Vec<Constraint>, policy: SegmentSize) -> (r: Vec<(u16, u16)>)
    requires
        fits_exact(cs@),
    ensures
        r@.len() == cs@.len(),
        forall|i: int|
            0 <= i < cs@.len() ==> r@[i].1 as int == split_lengths(cs@, total as int, policy)[i]
                && r@[i].0 as int == prefix_sum(split_lengths(cs@, total as int, policy), i),
        forall|i: int| 0 <= i < cs@.len() ==> r@[i].0 + r@[i].1 <= total,
{
    let ghost n = cs@.len() as int;
    let xs = exact_lengths_exec(cs, total);
    proof {
        lemma_exact_lengths(cs@, total as int);
        assert(ints(xs@) =~= exact_lengths(cs@, total as int));
    }
    let mut used: u16 = 0;
    let mut i: usize = 0;
    while i < xs.len()
        invariant
            i <= xs.len(),
            xs@.len() == n,
            ints(xs@) == exact_lengths(cs@, total as int),
            prefix_sum(ints(xs@), n) <= total,
            forall|m: int| 0 <= m < n ==> ints(xs@)[m] >= 0,
            used as int == prefix_sum(ints(xs@), i as int),
        decreases xs.len() - i,
    {
        proof {
            lemma_prefix_mono(ints(xs@), i as int + 1, n);
        }
        used = used + xs[i];
        i = i + 1;
    }
    let spare = total - used;
    let lens: Vec<u16> = match policy {
        SegmentSize::Exact => xs,
        SegmentSize::LastTakesRemainder => {
            if xs.len() == 0 {
                xs
            } else {
                let mut v = xs;
                let last = v.len() - 1;
                proof {
                    lemma_prefix_update(ints(v@), last as int, v@[last as int] + spare);
                    lemma_prefix_mono(ints(v@), last as int, n);
                }
                let grown = v[last] + spare;
                v.set(last, grown);
                v
            }
        },
        SegmentSize::EvenDistribution => {
            let g = grow_mask_exec(cs);
            even_fill_exec(&xs, &g, spare, total)
        },
    };
    let ghost ls = split_lengths(cs@, total as int, policy);
    proof {
        assert(ints(lens@) =~= ls);
        lemma_split_within(cs@, total as int, policy);
    }
    let mut out: Vec<(u16, u16)> = Vec::new();
    let mut offset: u16 = 0;
    let mut j: usize = 0;
    while j < lens.len()
        invariant
            j <= lens.len(),
            lens@.len() == n,
            ints(lens@) == ls,
            ls == split_lengths(cs@, total as int, policy),
            prefix_sum(ls, n) <= total,
            forall|m: int| 0 <= m < n ==> ls[m] >= 0,
            offset as int == prefix_sum(ls, j as int),
            out@.len() == j,
            forall|m: int| 0 <= m < j ==> out@[m].1 as int == ls[m] && out@[m].0 as int == prefix_sum(ls, m),
            forall|m: int| 0 <= m < j ==> out@[m].0 + out@[m].1 <= total,
        decreases lens.len() - j,
    {
        proof {
            lemma_prefix_mono(ls, j as int + 1, n);
        }
        out.push((offset, lens[j]));
        offset = offset + lens[j];
        j = j + 1;
    }
    out
}

/// Rounds `n / d` to the nearest integer, ties to even.
pub fn round_div(n: u128, d: u128) -> (r: u128)
    requires
        d > 0,
    ensures
        r == round_half_even(n as int, d as int),
{
    let q = n / d;
    let r = n % d;
    let twice: u128 = if r <= (u128::MAX / 2) { 2 * r } else { u128::MAX };
    proof {
        assert(r < d);
        if r > u128::MAX / 2 {
            assert(2 * (r as int) > d) by (nonlinear_arith)
                requires r > 0xffff_ffff_ffff_ffff_ffff_ffff_ffff_ffffu128 / 2, r < d, d <= 0xffff_ffff_ffff_ffff_ffff_ffff_ffff_ffffu128;
        }
        vstd::arithmetic::div_mod::lemma_fundamental_div_mod(n as int, d as int);
        assert(q <= n);
        if d >= 2 {
            assert(2 * (q as int) <= n) by (nonlinear_arith)
                requires n as int == (d as int) * (q as int) + (r as int), d >= 2, r >= 0, q >= 0;
        } else {
            assert(r == 0);
        }
    }
    if r <= u128::MAX / 2 && twice < d {
        q
    } else if r > u128::MAX / 2 || twice > d {
        q + 1
    } else if q % 2 == 0 {
        q
    } else {
        q + 1
    }
}

} // verus!
