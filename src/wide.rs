use vstd::prelude::*;

verus! {

/// The weight of one limb: `2^64`.
pub open spec fn limb_base() -> nat {
    0x1_0000_0000_0000_0000
}

/// The weight of limb `k`: `2^(64 k)`.
pub open spec fn weight(k: nat) -> nat
    decreases k,
{
    if k == 0 {
        1
    } else {
        weight((k - 1) as nat) * limb_base()
    }
}

/// The number that a sequence of 64-bit limbs stands for, least significant
/// limb first.
pub open spec fn value_of(s: Seq<u64>) -> nat
    decreases s.len(),
{
    if s.len() == 0 {
        0
    } else {
        value_of(s.drop_last()) + s.last() as nat * weight((s.len() - 1) as nat)
    }
}

/// Limb `i` of `s`, zero past its end.
pub open spec fn limb(s: Seq<u64>, i: int) -> nat {
    if 0 <= i < s.len() {
        s[i] as nat
    } else {
        0
    }
}

/// The value of the limbs of `s` below `i`.
pub open spec fn low_value(s: Seq<u64>, i: nat) -> nat {
    if i <= s.len() {
        value_of(s.take(i as int))
    } else {
        value_of(s)
    }
}

proof fn lemma_weight_positive(k: nat)
    ensures
        weight(k) > 0,
    decreases k,
{
    if k > 0 {
        lemma_weight_positive((k - 1) as nat);
        let w = weight((k - 1) as nat);
        assert(w * limb_base() > 0) by (nonlinear_arith)
            requires
                w > 0,
        ;
    }
}

proof fn lemma_low_value_step(s: Seq<u64>, i: nat)
    ensures
        low_value(s, i + 1) == low_value(s, i) + limb(s, i as int) * weight(i),
{
    if i < s.len() {
        assert(s.take((i + 1) as int).drop_last() =~= s.take(i as int));
    } else if i == s.len() {
        assert(s.take(i as int) =~= s);
    }
}

proof fn lemma_low_value_all(s: Seq<u64>)
    ensures
        low_value(s, s.len()) == value_of(s),
{
    assert(s.take(s.len() as int) =~= s);
}

proof fn lemma_mul_step(v: int, c: int, w: int, ai: int, x: int, lo: int, hi: int, av: int)
    requires
        v + c * w == av * x,
        lo + hi * 0x1_0000_0000_0000_0000 == ai * x + c,
    ensures
        (v + lo * w) + hi * (w * 0x1_0000_0000_0000_0000) == (av + ai * w) * x,
{
    assert((v + lo * w) + hi * (w * 0x1_0000_0000_0000_0000) == (av + ai * w) * x)
        by (nonlinear_arith)
        requires
            v + c * w == av * x,
            lo + hi * 0x1_0000_0000_0000_0000 == ai * x + c,
    ;
}

proof fn lemma_limb_product(a: int, x: int)
    requires
        0 <= a < 0x1_0000_0000_0000_0000,
        0 <= x < 0x1_0000_0000_0000_0000,
    ensures
        a * x <= 0xFFFF_FFFF_FFFF_FFFE_0000_0000_0000_0001,
{
    assert(a * x <= 0xFFFF_FFFF_FFFF_FFFF * 0xFFFF_FFFF_FFFF_FFFF) by (nonlinear_arith)
        requires
            0 <= a < 0x1_0000_0000_0000_0000,
            0 <= x < 0x1_0000_0000_0000_0000,
    ;
}

/// The limbs of `x`.
pub fn wide_from(x: u64) -> (r: Vec<u64>)
    ensures
        value_of(r@) == x,
{
    let mut r: Vec<u64> = Vec::new();
    r.push(x);
    assert(r@.drop_last() =~= Seq::<u64>::empty());
    assert(value_of(Seq::<u64>::empty()) == 0);
    assert(weight(0) == 1);
    assert(r@.last() == x);
    assert(value_of(r@) == value_of(r@.drop_last()) + r@.last() as nat * weight(0));
    r
}

/// The product of `a` and `x`.
pub fn wide_mul(a: &Vec<u64>, x: u64) -> (r: Vec<u64>)
    ensures
        value_of(r@) == value_of(a@) * x,
{
    let mut r: Vec<u64> = Vec::new();
    let mut carry: u64 = 0;
    let mut i: usize = 0;
    assert(a@.take(0) =~= Seq::<u64>::empty());
    assert(value_of(r@) == 0);
    while i < a.len()
        invariant
            i <= a@.len(),
            r@.len() == i,
            value_of(r@) + carry * weight(i as nat) == value_of(a@.take(i as int)) * x,
        decreases a@.len() - i,
    {
        proof {
            lemma_limb_product(a@[i as int] as int, x as int);
        }
        let t: u128 = (a[i] as u128) * (x as u128) + (carry as u128);
        let lo = (t % 0x1_0000_0000_0000_0000u128) as u64;
        let hi = (t / 0x1_0000_0000_0000_0000u128) as u64;
        let ghost before = r@;
        r.push(lo);
        proof {
            assert(r@.drop_last() =~= before);
            assert(a@.take(i + 1).drop_last() =~= a@.take(i as int));
            lemma_mul_step(
                value_of(before) as int,
                carry as int,
                weight(i as nat) as int,
                a@[i as int] as int,
                x as int,
                lo as int,
                hi as int,
                value_of(a@.take(i as int)) as int,
            );
        }
        carry = hi;
        i = i + 1;
    }
    let ghost before = r@;
    r.push(carry);
    assert(r@.drop_last() =~= before);
    assert(a@.take(a@.len() as int) =~= a@);
    r
}

fn limb_at(a: &Vec<u64>, i: usize) -> (r: u64)
    ensures
        r as nat == limb(a@, i as int),
{
    if i < a.len() {
        a[i]
    } else {
        0
    }
}

/// The sum of `a` and `b`.
pub fn wide_add(a: &Vec<u64>, b: &Vec<u64>) -> (r: Vec<u64>)
    ensures
        value_of(r@) == value_of(a@) + value_of(b@),
{
    let n = if a.len() < b.len() {
        b.len()
    } else {
        a.len()
    };
    let mut r: Vec<u64> = Vec::new();
    let mut carry: u64 = 0;
    let mut i: usize = 0;
    while i < n
        invariant
            i <= n,
            n >= a@.len(),
            n >= b@.len(),
            r@.len() == i,
            carry <= 1,
            value_of(r@) + carry * weight(i as nat) == low_value(a@, i as nat) + low_value(
                b@,
                i as nat,
            ),
        decreases n - i,
    {
        let x = limb_at(a, i);
        let y = limb_at(b, i);
        let t: u128 = (x as u128) + (y as u128) + (carry as u128);
        let lo = (t % 0x1_0000_0000_0000_0000u128) as u64;
        let hi = (t / 0x1_0000_0000_0000_0000u128) as u64;
        let ghost before = r@;
        r.push(lo);
        proof {
            assert(r@.drop_last() =~= before);
            lemma_low_value_step(a@, i as nat);
            lemma_low_value_step(b@, i as nat);
            let w = weight(i as nat) as int;
            assert(weight((i + 1) as nat) == w * 0x1_0000_0000_0000_0000);
            assert(value_of(r@) == value_of(before) + lo * w);
            assert(lo * w + hi * (w * 0x1_0000_0000_0000_0000) == x * w + y * w + carry * w)
                by (nonlinear_arith)
                requires
                    lo + hi * 0x1_0000_0000_0000_0000 == x + y + carry,
            ;
        }
        carry = hi;
        i = i + 1;
    }
    let ghost before = r@;
    r.push(carry);
    proof {
        assert(r@.drop_last() =~= before);
        lemma_low_value_all(a@);
        lemma_low_value_all(b@);
        assert(low_value(a@, n as nat) == value_of(a@));
        assert(low_value(b@, n as nat) == value_of(b@));
    }
    r
}

/// Whether `a` is less than `b`.
pub fn wide_less(a: &Vec<u64>, b: &Vec<u64>) -> (r: bool)
    ensures
        r == (value_of(a@) < value_of(b@)),
{
    let n = if a.len() < b.len() {
        b.len()
    } else {
        a.len()
    };
    let mut borrow: u64 = 0;
    let ghost mut acc: int = 0;
    let mut i: usize = 0;
    while i < n
        invariant
            i <= n,
            n >= a@.len(),
            n >= b@.len(),
            borrow <= 1,
            0 <= acc < weight(i as nat),
            acc - borrow * weight(i as nat) == low_value(a@, i as nat) - low_value(b@, i as nat),
        decreases n - i,
    {
        let x = limb_at(a, i);
        let y = limb_at(b, i);
        let d: u128;
        let next: u64;
        if (x as u128) >= (y as u128) + (borrow as u128) {
            d = (x as u128) - (y as u128) - (borrow as u128);
            next = 0;
        } else {
            d = (x as u128) + 0x1_0000_0000_0000_0000u128 - (y as u128) - (borrow as u128);
            next = 1;
        }
        proof {
            lemma_low_value_step(a@, i as nat);
            lemma_low_value_step(b@, i as nat);
            let w = weight(i as nat) as int;
            assert(weight((i + 1) as nat) == w * 0x1_0000_0000_0000_0000);
            assert(acc + d * w < w * 0x1_0000_0000_0000_0000) by (nonlinear_arith)
                requires
                    0 <= acc < w,
                    0 <= d < 0x1_0000_0000_0000_0000,
            ;
            assert(d * w - next * (w * 0x1_0000_0000_0000_0000) == x * w - y * w - borrow * w)
                by (nonlinear_arith)
                requires
                    d - next * 0x1_0000_0000_0000_0000 == x - y - borrow,
            ;
            assert(0 <= d * w) by (nonlinear_arith)
                requires
                    0 <= d,
                    0 <= w,
            ;
            acc = acc + d * w;
        }
        borrow = next;
        i = i + 1;
    }
    proof {
        lemma_low_value_all(a@);
        lemma_low_value_all(b@);
        assert(low_value(a@, n as nat) == value_of(a@));
        assert(low_value(b@, n as nat) == value_of(b@));
    }
    borrow == 1
}

} // verus!
