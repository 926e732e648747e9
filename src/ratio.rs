use vstd::prelude::*;

verus! {

/// A non-negative rational number `num / den`; well formed when `den > 0`.
#[derive(Debug, Clone, Copy, PartialEq, Eq, Structural)]
pub struct Ratio {
    pub num: u128,
    pub den: u64,
}

impl Ratio {
    pub open spec fn wf(&self) -> bool {
        self.den > 0
    }

    /// `self <= o` as rational numbers.
    pub open spec fn le_spec(&self, o: &Ratio) -> bool {
        self.num * o.den <= o.num * self.den
    }

    pub fn new(num: u128, den: u64) -> (r: Ratio)
        requires
            den > 0,
        ensures
            r == (Ratio { num, den }),
            r.wf(),
    {
        Ratio { num, den }
    }

    /// The whole number `n`.
    pub fn whole(n: u64) -> (r: Ratio)
        ensures
            r == (Ratio { num: n as u128, den: 1 }),
            r.wf(),
    {
        Ratio { num: n as u128, den: 1 }
    }

    /// Compares `self <= o` exactly, without overflow: whole parts first,
    /// then the remainders cross-multiplied.
    pub fn le(&self, o: &Ratio) -> (r: bool)
        requires
            self.wf(),
            o.wf(),
        ensures
            r == self.le_spec(o),
    {
        let d1 = self.den as u128;
        let d2 = o.den as u128;
        let q1 = self.num / d1;
        let r1 = self.num % d1;
        let q2 = o.num / d2;
        let r2 = o.num % d2;
        proof {
            vstd::arithmetic::div_mod::lemma_fundamental_div_mod(self.num as int, d1 as int);
            vstd::arithmetic::div_mod::lemma_fundamental_div_mod(o.num as int, d2 as int);
            assert(d1 * q1 == q1 * d1 && d2 * q2 == q2 * d2) by (nonlinear_arith);
            lemma_cross_compare(
                self.num as int,
                d1 as int,
                q1 as int,
                r1 as int,
                o.num as int,
                d2 as int,
                q2 as int,
                r2 as int,
            );
            assert(r1 * d2 < 0x1_0000_0000_0000_0000 * 0x1_0000_0000_0000_0000) by (nonlinear_arith)
                requires
                    r1 < 0x1_0000_0000_0000_0000,
                    d2 < 0x1_0000_0000_0000_0000,
            ;
            assert(r2 * d1 < 0x1_0000_0000_0000_0000 * 0x1_0000_0000_0000_0000) by (nonlinear_arith)
                requires
                    r2 < 0x1_0000_0000_0000_0000,
                    d1 < 0x1_0000_0000_0000_0000,
            ;
        }
        if q1 != q2 {
            q1 < q2
        } else {
            r1 * d2 <= r2 * d1
        }
    }
}

proof fn lemma_cross_compare(
    n1: int,
    d1: int,
    q1: int,
    r1: int,
    n2: int,
    d2: int,
    q2: int,
    r2: int,
)
    requires
        d1 > 0,
        d2 > 0,
        n1 == q1 * d1 + r1,
        n2 == q2 * d2 + r2,
        0 <= r1 < d1,
        0 <= r2 < d2,
        q1 >= 0,
        q2 >= 0,
    ensures
        q1 < q2 ==> n1 * d2 <= n2 * d1,
        q1 > q2 ==> !(n1 * d2 <= n2 * d1),
        q1 == q2 ==> (n1 * d2 <= n2 * d1 <==> r1 * d2 <= r2 * d1),
{
    assert(n1 * d2 == q1 * d1 * d2 + r1 * d2) by (nonlinear_arith)
        requires
            n1 == q1 * d1 + r1,
    ;
    assert(n2 * d1 == q2 * d1 * d2 + r2 * d1) by (nonlinear_arith)
        requires
            n2 == q2 * d2 + r2,
    ;
    assert(r1 * d2 < d1 * d2) by (nonlinear_arith)
        requires
            0 <= r1 < d1,
            d2 > 0,
    ;
    assert(r2 * d1 < d1 * d2) by (nonlinear_arith)
        requires
            0 <= r2 < d2,
            d1 > 0,
    ;
    assert(r1 * d2 >= 0 && r2 * d1 >= 0) by (nonlinear_arith)
        requires
            0 <= r1,
            0 <= r2,
            d1 > 0,
            d2 > 0,
    ;
    if q1 < q2 {
        assert(q1 * d1 * d2 + d1 * d2 <= q2 * d1 * d2) by (nonlinear_arith)
            requires
                q1 < q2,
                d1 > 0,
                d2 > 0,
        ;
    }
    if q1 > q2 {
        assert(q2 * d1 * d2 + d1 * d2 <= q1 * d1 * d2) by (nonlinear_arith)
            requires
                q1 > q2,
                d1 > 0,
                d2 > 0,
        ;
    }
}

/// `<=` on well-formed ratios is transitive.
pub proof fn lemma_le_transitive(a: Ratio, b: Ratio, c: Ratio)
    requires
        a.wf(),
        b.wf(),
        c.wf(),
        a.le_spec(&b),
        b.le_spec(&c),
    ensures
        a.le_spec(&c),
{
    let (an, ad, bn, bd, cn, cd) = (
        a.num as int,
        a.den as int,
        b.num as int,
        b.den as int,
        c.num as int,
        c.den as int,
    );
    assert(an * cd <= cn * ad) by (nonlinear_arith)
        requires
            an * bd <= bn * ad,
            bn * cd <= cn * bd,
            ad > 0,
            bd > 0,
            cd > 0,
            an >= 0,
            bn >= 0,
            cn >= 0,
    {
        assert(an * bd * cd <= bn * ad * cd);
        assert(bn * cd * ad <= cn * bd * ad);
        assert(an * cd * bd <= cn * ad * bd);
    }
}

} // verus!
