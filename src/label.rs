use vstd::prelude::*;
use vstd::arithmetic::power2::{pow2, lemma_pow2_unfold, lemma2_to64, lemma_pow2_adds, lemma_pow2_pos};
use crate::geometry::{Point, Triangle};

verus! {

/// The path from the root of the triangle tree to a node, as bits behind a
/// leading marker bit.
#[derive(Debug, Clone, Copy, PartialEq, Eq, Structural)]
pub struct Label(pub u32);

/// One partitioning step on the way from the root to a triangle.
#[derive(Debug, Clone, Copy, PartialEq, Eq, Structural)]
pub enum Step {
    TopRight,
    BottomLeft,
    Left,
    Right,
}

/// Number of binary digits of `n` (0 for 0).
pub open spec fn bit_len(n: nat) -> nat
    decreases n,
{
    if n == 0 {
        0
    } else {
        1 + bit_len(n / 2)
    }
}

/// Depth of the node at level-order index `i`; the root has depth 1.
pub open spec fn depth_of(i: nat) -> nat {
    bit_len(i + 1)
}

/// The label of the node at level-order index `i`.
pub open spec fn label_of(i: nat) -> nat {
    i + 1
}

/// The level-order index of the node with label `l >= 1`.
pub open spec fn index_of(l: nat) -> nat {
    (l - 1) as nat
}

/// The steps that label `l` encodes, read from the bit below the marker down
/// to the lowest bit.
pub open spec fn steps_of(l: nat) -> Seq<Step>
    decreases l,
{
    if l <= 1 {
        seq![]
    } else if l <= 3 {
        seq![if l % 2 == 0 { Step::BottomLeft } else { Step::TopRight }]
    } else {
        steps_of(l / 2).push(if l % 2 == 0 { Step::Left } else { Step::Right })
    }
}

pub open spec fn origin() -> Point {
    Point { x: 0, y: 0 }
}

pub open spec fn midpoint(p: Point, q: Point) -> Point {
    Point { x: ((p.x + q.x) / 2) as u32, y: ((p.y + q.y) / 2) as u32 }
}

/// The triangle that one step makes of the triangle `t` on a grid of side `s`.
pub open spec fn apply_step(t: Triangle<Point>, st: Step, s: u32) -> Triangle<Point> {
    let m = (s - 1) as u32;
    match st {
        Step::BottomLeft => Triangle {
            a: Point { x: m, y: m },
            b: Point { x: 0, y: 0 },
            c: Point { x: 0, y: m },
        },
        Step::TopRight => Triangle {
            a: Point { x: 0, y: 0 },
            b: Point { x: m, y: m },
            c: Point { x: m, y: 0 },
        },
        Step::Left => Triangle { a: t.c, b: t.a, c: midpoint(t.a, t.b) },
        Step::Right => Triangle { a: t.b, b: t.c, c: midpoint(t.a, t.b) },
    }
}

/// The triangle reached by applying `steps` in order, from a triangle whose
/// corners all sit at the origin.
pub open spec fn walk(steps: Seq<Step>, s: u32) -> Triangle<Point>
    decreases steps.len(),
{
    if steps.len() == 0 {
        Triangle { a: origin(), b: origin(), c: origin() }
    } else {
        apply_step(walk(steps.drop_last(), s), steps.last(), s)
    }
}

/// The lattice corners of the triangle with label `l` on a grid of side `s`.
pub open spec fn coords_of(l: nat, s: u32) -> Triangle<Point> {
    walk(steps_of(l), s)
}

pub open spec fn in_grid(p: Point, s: u32) -> bool {
    p.x < s && p.y < s
}

/// Floor of the base-2 logarithm (0 for 0 and 1).
pub open spec fn log2(n: nat) -> nat
    decreases n,
{
    if n <= 1 {
        0
    } else {
        1 + log2(n / 2)
    }
}

pub open spec fn is_pow2(n: nat) -> bool
    decreases n,
{
    if n == 1 {
        true
    } else if n < 2 || n % 2 == 1 {
        false
    } else {
        is_pow2(n / 2)
    }
}

/// Number of nodes kept for a grid of side `s`: `2^(2k+1)` with `k = log2(s - 1)`.
pub open spec fn num_triangles_of(s: nat) -> nat {
    pow2(2 * log2((s - 1) as nat) + 1)
}

proof fn lemma_bit_len_bounds(n: nat)
    requires
        n >= 1,
    ensures
        bit_len(n) >= 1,
        pow2((bit_len(n) - 1) as nat) <= n < pow2(bit_len(n)),
    decreases n,
{
    lemma_pow2_unfold(bit_len(n));
    if n >= 2 {
        lemma_bit_len_bounds(n / 2);
        lemma_pow2_unfold((bit_len(n) - 1) as nat);
    } else {
        assert(bit_len(0) == 0);
        lemma2_to64();
    }
}

proof fn lemma_pow2_strict_mono(a: nat, b: nat)
    requires
        a < b,
    ensures
        pow2(a) < pow2(b),
{
    vstd::arithmetic::power2::lemma_pow2_strictly_increases(a, b);
}

/// `2^(d-1) <= n < 2^d` has one solution, the bit length of `n`.
proof fn lemma_bit_len_unique(n: nat, d: nat)
    requires
        d >= 1,
        pow2((d - 1) as nat) <= n < pow2(d),
    ensures
        d == bit_len(n),
{
    lemma_pow2_pos((d - 1) as nat);
    lemma_bit_len_bounds(n);
    let b = bit_len(n);
    if d < b {
        if d < (b - 1) as nat {
            lemma_pow2_strict_mono(d, (b - 1) as nat);
        }
    } else if b < d {
        if b < (d - 1) as nat {
            lemma_pow2_strict_mono(b, (d - 1) as nat);
        }
    }
}

/// The depth of the node at level-order index `i`: the smallest `d >= 1`
/// with `2^d - 1 >= i + 1`.
pub fn idx_depth(idx: u32) -> (d: u32)
    ensures
        d == depth_of(idx as nat),
        1 <= d <= 33,
        pow2((d - 1) as nat) <= idx + 1,
        idx + 1 < pow2(d as nat),
{
    let mut d: u32 = 1;
    let mut p: u64 = 2;
    proof {
        lemma2_to64();
    }
    while p - 1 < idx as u64 + 1
        invariant
            1 <= d <= 33,
            2 <= p,
            p == pow2(d as nat),
            pow2((d - 1) as nat) <= idx + 1,
        decreases 33 - d,
    {
        proof {
            lemma_pow2_unfold((d + 1) as nat);
            lemma2_to64();
            vstd::arithmetic::power2::lemma2_to64_rest();
            if d >= 33 {
                assert(false);
            }
        }
        d = d + 1;
        p = p * 2;
    }
    proof {
        lemma_bit_len_unique((idx + 1) as nat, d as nat);
    }
    d
}

/// The label of the node at level-order index `idx`: the bit `1 << (d - 1)`
/// for its depth `d`, plus its offset among the nodes of that depth.
pub fn idx_to_label(idx: u32) -> (r: Label)
    requires
        idx < u32::MAX,
    ensures
        r.0 == label_of(idx as nat),
{
    let d = idx_depth(idx);
    proof {
        if d == 33 {
            lemma2_to64();
            assert(false);
        }
        vstd::bits::lemma_u32_pow2_no_overflow((d - 1) as nat);
        vstd::bits::lemma_u32_shl_is_mul(1, (d - 1) as u32);
    }
    let msb: u32 = 1u32 << (d - 1);
    let offset: u32 = msb - 1;
    Label(msb + (idx - offset))
}

/// The level-order index of the node with label `l`: the label without its
/// marker bit, plus the number of nodes above its depth.
pub fn label_to_idx(l: Label) -> (r: u32)
    requires
        l.0 >= 1,
    ensures
        r == index_of(l.0 as nat),
{
    let Label(val) = l;
    proof {
        vstd::std_specs::bits::axiom_u32_leading_zeros(val);
    }
    let d: u32 = 32 - val.leading_zeros();
    let sh: u32 = d - 1;
    proof {
        vstd::bits::lemma_u32_pow2_no_overflow(sh as nat);
        vstd::bits::lemma_u32_shl_is_mul(1, sh);
        assert((val >> sh) & 1u32 != 0u32);
        assert((val >> sh) & 1u32 != 0u32 ==> val ^ (1u32 << sh) == val - (1u32 << sh)) by (bit_vector)
            requires
                sh < 32,
        ;
        assert(val >= (1u32 << sh)) by (bit_vector)
            requires
                sh < 32,
                (val >> sh) & 1u32 != 0u32,
        ;
    }
    let mask: u32 = 1u32 << sh;
    let offset: u32 = mask - 1;
    let masked: u32 = val ^ mask;
    masked + offset
}

/// The indices of the left and right children of the node at index `i`.
/// Whether those children exist in a given hierarchy is for the caller to
/// check.
pub fn child_indexes(i: u32) -> (r: (u32, u32))
    requires
        i < 0x7fff_ffff,
    ensures
        r.0 == index_of(2 * label_of(i as nat)),
        r.1 == index_of(2 * label_of(i as nat) + 1),
        r.0 == 2 * i + 1,
        r.1 == 2 * i + 2,
{
    let Label(p) = idx_to_label(i);
    proof {
        lemma2_to64();
        vstd::bits::lemma_u32_shl_is_mul(p, 1);
    }
    let base: u32 = p << 1u32;
    (label_to_idx(Label(base)), label_to_idx(Label(base + 1)))
}

/// The steps of `rev` in reverse order.
pub open spec fn reversed(rev: Seq<Step>) -> Seq<Step> {
    Seq::new(rev.len(), |k: int| rev[rev.len() - 1 - k])
}

/// The partitioning steps that a label encodes, from the base triangle down.
/// The root label decodes to no step.
pub fn steps(label: Label) -> (r: Vec<Step>)
    requires
        label.0 >= 1,
    ensures
        r@ == steps_of(label.0 as nat),
{
    let Label(mut id) = label;
    if id == 1 {
        return Vec::new();
    }
    let mut rev: Vec<Step> = Vec::new();
    while id > 3
        invariant
            id >= 2,
            steps_of(label.0 as nat) == steps_of(id as nat) + reversed(rev@),
        decreases id,
    {
        let lsb = id & 1;
        proof {
            assert(id & 1 == id % 2) by (bit_vector);
            assert(id >> 1 == id / 2) by (bit_vector);
        }
        id = id >> 1;
        let st = if lsb == 0 { Step::Left } else { Step::Right };
        let ghost old_rev = rev@;
        rev.push(st);
        proof {
            assert(reversed(rev@) =~= seq![st] + reversed(old_rev));
            assert(steps_of(id as nat) + reversed(rev@) =~= steps_of(id as nat).push(st) + reversed(
                old_rev,
            ));
        }
    }
    let base = if id & 1 == 0 { Step::BottomLeft } else { Step::TopRight };
    proof {
        assert(id & 1 == id % 2) by (bit_vector);
    }
    let ghost old_rev = rev@;
    rev.push(base);
    proof {
        assert(reversed(rev@) =~= seq![base] + reversed(old_rev));
        assert(steps_of(label.0 as nat) =~= reversed(rev@));
    }
    let mut out: Vec<Step> = Vec::new();
    let n = rev.len();
    while out.len() < n
        invariant
            n == rev@.len(),
            out@.len() <= n,
            out@ =~= reversed(rev@).take(out@.len() as int),
        decreases n - out@.len(),
    {
        out.push(rev[n - 1 - out.len()]);
    }
    proof {
        assert(out@ =~= reversed(rev@));
    }
    out
}

proof fn lemma_walk_in_grid(steps: Seq<Step>, s: u32)
    requires
        s >= 1,
    ensures
        in_grid(walk(steps, s).a, s),
        in_grid(walk(steps, s).b, s),
        in_grid(walk(steps, s).c, s),
    decreases steps.len(),
{
    if steps.len() > 0 {
        lemma_walk_in_grid(steps.drop_last(), s);
    }
}

/// Every corner of every labelled triangle lies on the grid `[0, s - 1]^2`.
pub proof fn lemma_coords_in_grid(l: nat, s: u32)
    requires
        s >= 1,
    ensures
        in_grid(coords_of(l, s).a, s),
        in_grid(coords_of(l, s).b, s),
        in_grid(coords_of(l, s).c, s),
{
    lemma_walk_in_grid(steps_of(l), s);
}

fn midpoint_exec(p: Point, q: Point) -> (r: Point)
    requires
        p.x + q.x <= u32::MAX,
        p.y + q.y <= u32::MAX,
    ensures
        r == midpoint(p, q),
{
    Point { x: (p.x + q.x) / 2, y: (p.y + q.y) / 2 }
}

/// The lattice corners of the triangle with the given label, found by
/// replaying its steps from the base triangles.
pub fn coords(label: Label, grid_size: u32) -> (r: Triangle<Point>)
    requires
        label.0 >= 1,
        1 <= grid_size <= 0x8000_0000,
    ensures
        r == coords_of(label.0 as nat, grid_size),
{
    let m = grid_size - 1;
    let mut a = Point { x: 0, y: 0 };
    let mut b = Point { x: 0, y: 0 };
    let mut c = Point { x: 0, y: 0 };
    let steps = steps(label);
    let mut k: usize = 0;
    while k < steps.len()
        invariant
            k <= steps@.len(),
            m == grid_size - 1,
            1 <= grid_size <= 0x8000_0000,
            steps@ == steps_of(label.0 as nat),
            (Triangle { a, b, c }) == walk(steps@.take(k as int), grid_size),
        decreases steps@.len() - k,
    {
        proof {
            lemma_walk_in_grid(steps@.take(k as int), grid_size);
            assert(steps@.take(k + 1).drop_last() =~= steps@.take(k as int));
        }
        match steps[k] {
            Step::BottomLeft => {
                a = Point { x: m, y: m };
                b = Point { x: 0, y: 0 };
                c = Point { x: 0, y: m };
            },
            Step::TopRight => {
                a = Point { x: 0, y: 0 };
                b = Point { x: m, y: m };
                c = Point { x: m, y: 0 };
            },
            Step::Left => {
                let mid = midpoint_exec(a, b);
                let (ap, bp, cp) = (c, a, mid);
                a = ap;
                b = bp;
                c = cp;
            },
            Step::Right => {
                let mid = midpoint_exec(a, b);
                let (ap, bp, cp) = (b, c, mid);
                a = ap;
                b = bp;
                c = cp;
            },
        }
        k = k + 1;
    }
    proof {
        assert(steps@.take(k as int) =~= steps@);
    }
    Triangle::new(a, b, c)
}

proof fn lemma_log2_below(n: nat, e: nat)
    requires
        1 <= n < pow2(e),
    ensures
        log2(n) < e,
    decreases n,
{
    if e == 0 {
        lemma2_to64();
    } else if n >= 2 {
        lemma_pow2_unfold(e);
        lemma_log2_below(n / 2, (e - 1) as nat);
    }
}

proof fn lemma_pow2_log2(n: nat)
    requires
        is_pow2(n),
    ensures
        pow2(log2(n)) == n,
    decreases n,
{
    if n == 1 {
        lemma2_to64();
    } else {
        lemma_pow2_log2(n / 2);
        lemma_pow2_unfold(log2(n));
    }
}

/// Whether `n` is a power of two.
pub fn is_power_of_two(n: u32) -> (r: bool)
    ensures
        r == is_pow2(n as nat),
{
    let mut m = n;
    while m >= 2 && m % 2 == 0
        invariant
            is_pow2(m as nat) == is_pow2(n as nat),
        decreases m,
    {
        m = m / 2;
    }
    m == 1
}

/// Number of nodes in the triangle hierarchy of a grid of side `grid_size`:
/// `2^(2k + 1)` with `k = log2(grid_size - 1)`, so `2 (grid_size - 1)^2`
/// whenever `grid_size - 1` is a power of two.
pub fn num_triangles(grid_size: u32) -> (r: u32)
    requires
        2 <= grid_size <= 0x1_0000,
    ensures
        r == num_triangles_of(grid_size as nat),
        is_pow2((grid_size - 1) as nat) ==> r == 2 * (grid_size - 1) * (grid_size - 1),
{
    let mut n: u32 = grid_size - 1;
    let mut k: u32 = 0;
    proof {
        lemma2_to64();
        lemma_log2_below((grid_size - 1) as nat, 16);
    }
    while n > 1
        invariant
            1 <= n,
            k + log2(n as nat) == log2((grid_size - 1) as nat),
            log2((grid_size - 1) as nat) < 16,
        decreases n,
    {
        n = n / 2;
        k = k + 1;
    }
    proof {
        lemma2_to64();
        lemma_log2_below((grid_size - 1) as nat, 16);
        vstd::bits::lemma_u32_pow2_no_overflow((2 * k + 1) as nat);
        vstd::bits::lemma_u32_shl_is_mul(1, (2 * k + 1) as u32);
        lemma_pow2_adds(k as nat, k as nat);
        lemma_pow2_adds((2 * k) as nat, 1);
        if is_pow2((grid_size - 1) as nat) {
            lemma_pow2_log2((grid_size - 1) as nat);
            let q = pow2(k as nat) as int;
            assert(q * q * 2 == 2 * q * q) by (nonlinear_arith);
        }
    }
    let d = 2 * k + 1;
    1u32 << d
}

/// The index of the label of node `i` is `i`.
pub proof fn lemma_index_of_label_of(i: nat)
    ensures
        index_of(label_of(i)) == i,
{
}

/// The label of the index of label `l` is `l`.
pub proof fn lemma_label_of_index_of(l: nat)
    requires
        l >= 1,
    ensures
        label_of(index_of(l)) == l,
{
}

proof fn lemma_steps_len(l: nat)
    requires
        l >= 1,
    ensures
        steps_of(l).len() + 1 == bit_len(l),
    decreases l,
{
    if l >= 4 {
        lemma_steps_len(l / 2);
    } else {
        assert(bit_len(l / 2) == bit_len(l / 2 / 2) + 1 || l / 2 == 0);
    }
}

/// The label of node `i` has `depth_of(i)` binary digits, the marker bit and
/// one bit for each of its `depth_of(i) - 1` steps.
pub proof fn lemma_label_depth(i: nat)
    ensures
        bit_len(label_of(i)) == depth_of(i),
        steps_of(label_of(i)).len() + 1 == depth_of(i),
{
    lemma_steps_len(label_of(i));
}

/// The legs of `t` from its right angle: `u = a - c`, `w = b - c`. After `n`
/// steps on a grid of side `2^k + 1`, `w` is `u` turned a quarter, and
/// `|u|^2 = 2^(2k + 1 - n)`.
pub open spec fn right_isosceles(t: Triangle<Point>, norm: nat) -> bool {
    let u0 = t.a.x - t.c.x;
    let u1 = t.a.y - t.c.y;
    &&& t.b.x - t.c.x == u1
    &&& t.b.y - t.c.y == -u0
    &&& u0 * u0 + u1 * u1 == norm
}

proof fn lemma_even_norm_even_sum(u0: int, u1: int)
    requires
        (u0 * u0 + u1 * u1) % 2 == 0,
    ensures
        (u0 + u1) % 2 == 0,
{
    let q0 = u0 / 2;
    let r0 = u0 % 2;
    let q1 = u1 / 2;
    let r1 = u1 % 2;
    assert(u0 == 2 * q0 + r0 && u1 == 2 * q1 + r1);
    let x = 2 * q0 * q0 + 2 * q0 * r0 + 2 * q1 * q1 + 2 * q1 * r1;
    assert(u0 * u0 + u1 * u1 == 2 * x + r0 * r0 + r1 * r1) by (nonlinear_arith)
        requires
            u0 == 2 * q0 + r0,
            u1 == 2 * q1 + r1,
            x == 2 * q0 * q0 + 2 * q0 * r0 + 2 * q1 * q1 + 2 * q1 * r1,
    ;
    assert(r0 * r0 == r0 && r1 * r1 == r1) by (nonlinear_arith)
        requires
            0 <= r0 < 2,
            0 <= r1 < 2,
    ;
    assert(r0 == r1);
}

proof fn lemma_split_shape(t: Triangle<Point>, st: Step, s: u32, e: nat)
    requires
        st == Step::Left || st == Step::Right,
        e >= 1,
        right_isosceles(t, pow2(e)),
    ensures
        right_isosceles(apply_step(t, st, s), pow2((e - 1) as nat)),
{
    let u0 = t.a.x - t.c.x;
    let u1 = t.a.y - t.c.y;
    lemma_pow2_unfold(e);
    assert((u0 * u0 + u1 * u1) % 2 == 0);
    lemma_even_norm_even_sum(u0, u1);
    let h = (u0 + u1) / 2;
    let g = (u0 - u1) / 2;
    assert(2 * h == u0 + u1);
    assert(2 * g == u0 - u1);
    assert(t.a.x + t.b.x == 2 * (t.c.x + h));
    assert(t.a.y + t.b.y == 2 * (t.c.y - g));
    let m = midpoint(t.a, t.b);
    assert(m.x == t.c.x + h);
    assert(m.y == t.c.y - g);
    assert(h * h + g * g == (u0 * u0 + u1 * u1) / 2) by (nonlinear_arith)
        requires
            2 * h == u0 + u1,
            2 * g == u0 - u1,
    ;
    assert(g * g == (-g) * (-g) && h * h == (-h) * (-h)) by (nonlinear_arith);
    let n = apply_step(t, st, s);
    if st == Step::Left {
        assert(n.a.x - n.c.x == -h && n.a.y - n.c.y == g);
        assert(n.b.x - n.c.x == g && n.b.y - n.c.y == h);
    } else {
        assert(n.a.x - n.c.x == -g && n.a.y - n.c.y == -h);
        assert(n.b.x - n.c.x == -h && n.b.y - n.c.y == g);
    }
}

proof fn lemma_base_shape(st: Step, s: u32, k: nat)
    requires
        st == Step::TopRight || st == Step::BottomLeft,
        s >= 1,
        s - 1 == pow2(k),
    ensures
        right_isosceles(apply_step(Triangle { a: origin(), b: origin(), c: origin() }, st, s), pow2(2 * k)),
{
    lemma_pow2_adds(k, k);
    let m = (s - 1) as int;
    assert((-m) * (-m) == m * m) by (nonlinear_arith);
    assert(m * m == pow2(k) * pow2(k));
}

/// `steps_of(l)` starts with a base step and continues with splits.
proof fn lemma_steps_shape(l: nat)
    requires
        l >= 2,
    ensures
        steps_of(l).len() >= 1,
        steps_of(l)[0] == Step::TopRight || steps_of(l)[0] == Step::BottomLeft,
        forall|i: int| 1 <= i < steps_of(l).len() ==> (#[trigger] steps_of(l)[i] == Step::Left
            || steps_of(l)[i] == Step::Right),
    decreases l,
{
    if l >= 4 {
        lemma_steps_shape(l / 2);
    }
}

proof fn lemma_walk_shape(steps: Seq<Step>, s: u32, k: nat)
    requires
        s >= 1,
        s - 1 == pow2(k),
        1 <= steps.len() <= 2 * k + 1,
        steps[0] == Step::TopRight || steps[0] == Step::BottomLeft,
        forall|i: int| 1 <= i < steps.len() ==> (#[trigger] steps[i] == Step::Left || steps[i] == Step::Right),
    ensures
        right_isosceles(walk(steps, s), pow2((2 * k + 1 - steps.len()) as nat)),
    decreases steps.len(),
{
    if steps.len() == 1 {
        lemma_base_shape(steps[0], s, k);
    } else {
        let front = steps.drop_last();
        assert(front[0] == steps[0]);
        assert forall|i: int| 1 <= i < front.len() implies (#[trigger] front[i] == Step::Left
            || front[i] == Step::Right) by {
            assert(front[i] == steps[i]);
        }
        lemma_walk_shape(front, s, k);
        assert(steps.last() == steps[steps.len() - 1]);
        lemma_split_shape(walk(front, s), steps.last(), s, (2 * k + 1 - front.len()) as nat);
    }
}

/// Every node below the root of the hierarchy of a grid of side `2^k + 1` is
/// a right isosceles triangle whose legs have squared length
/// `2^(2k + 2 - depth)`.
pub proof fn lemma_node_shape(i: nat, s: u32)
    requires
        s >= 3,
        is_pow2((s - 1) as nat),
        1 <= i < num_triangles_of(s as nat),
    ensures
        2 <= depth_of(i) <= 2 * log2((s - 1) as nat) + 2,
        right_isosceles(
            coords_of(label_of(i), s),
            pow2((2 * log2((s - 1) as nat) + 2 - depth_of(i)) as nat),
        ),
{
    let k = log2((s - 1) as nat);
    lemma_pow2_log2((s - 1) as nat);
    let l = label_of(i);
    lemma_steps_shape(l);
    lemma_steps_len(l);
    lemma_bit_len_bounds(l);
    if bit_len(l) - 1 > 2 * k + 1 {
        lemma_pow2_strict_mono(2 * k + 1, (bit_len(l) - 1) as nat);
    }
    lemma_walk_shape(steps_of(l), s, k);
    assert(2 * k + 1 - steps_of(l).len() == 2 * k + 2 - depth_of(i));
}

} // verus!
