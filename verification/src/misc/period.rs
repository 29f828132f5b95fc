use crate::misc::rand::{lemma_advance_add, pcg_advance, pcg_output, pcg_step, rotr32, MUL};
use vstd::prelude::*;

verus! {

/// 2 to the power `k`.
pub open spec fn two_to(k: nat) -> int
    decreases k,
{
    if k == 0 {
        1
    } else {
        2 * two_to((k - 1) as nat)
    }
}

proof fn lemma_two_to_pos(k: nat)
    ensures
        two_to(k) >= 1,
    decreases k,
{
    if k > 0 {
        lemma_two_to_pos((k - 1) as nat);
    }
}

proof fn lemma_two_to_adds(a: nat, b: nat)
    ensures
        two_to(a + b) == two_to(a) * two_to(b),
    decreases a,
{
    if a > 0 {
        lemma_two_to_adds((a - 1) as nat, b);
        assert(two_to(a + b) == 2 * two_to((a - 1 + b) as nat));
        assert(two_to(a) * two_to(b) == 2 * (two_to((a - 1) as nat) * two_to(b))) by (nonlinear_arith)
            requires
                two_to(a) == 2 * two_to((a - 1) as nat),
        ;
    }
}

proof fn lemma_two_to_64()
    ensures
        two_to(64) == 0x1_0000_0000_0000_0000,
{
    reveal_with_fuel(two_to, 65);
}

/// The multiplier of `2^k` steps of the generator: `MUL` squared `k` times.
spec fn multiplier(k: nat) -> int
    decreases k,
{
    if k == 0 {
        MUL as int
    } else {
        multiplier((k - 1) as nat) * multiplier((k - 1) as nat)
    }
}

/// The addend of `2^k` steps of the generator with increment `inc`.
spec fn addend(inc: u64, k: nat) -> int
    decreases k,
{
    if k == 0 {
        inc as int
    } else {
        (multiplier((k - 1) as nat) + 1) * addend(inc, (k - 1) as nat)
    }
}

/// The multiplier of `2^k` steps is 1 modulo `2^(k + 2)`.
proof fn lemma_multiplier(k: nat) -> (q: int)
    ensures
        multiplier(k) == 1 + two_to(k + 2) * q,
    decreases k,
{
    if k == 0 {
        reveal_with_fuel(two_to, 3);
        assert(MUL as int == 1 + 4 * 1591034055961698251);
        1591034055961698251
    } else {
        let q0 = lemma_multiplier((k - 1) as nat);
        let a = multiplier((k - 1) as nat);
        let p = two_to(k + 1);
        let h = two_to(k);
        assert(p == 2 * h);
        assert(two_to(k + 2) == 2 * p);
        assert(a * a == 1 + (2 * p) * (q0 + h * q0 * q0)) by (nonlinear_arith)
            requires
                a == 1 + p * q0,
                p == 2 * h,
        ;
        q0 + h * q0 * q0
    }
}

/// The addend of `2^k` steps is `2^k` times an odd number, `2 * e + 1`.
proof fn lemma_addend(inc: u64, k: nat) -> (e: int)
    requires
        inc % 2 == 1,
    ensures
        addend(inc, k) == two_to(k) * (2 * e + 1),
    decreases k,
{
    if k == 0 {
        (inc as int - 1) / 2
    } else {
        let e0 = lemma_addend(inc, (k - 1) as nat);
        let q = lemma_multiplier((k - 1) as nat);
        let a = multiplier((k - 1) as nat);
        let c = addend(inc, (k - 1) as nat);
        let g = two_to((k - 1) as nat);
        assert(two_to(k + 1) == 2 * two_to(k));
        assert(two_to(k) == 2 * g);
        assert((a + 1) * c == two_to(k) * (2 * (2 * g * q * e0 + g * q + e0) + 1)) by (nonlinear_arith)
            requires
                a == 1 + two_to(k + 1) * q,
                two_to(k + 1) == 2 * two_to(k),
                two_to(k) == 2 * g,
                c == g * (2 * e0 + 1),
        ;
        2 * g * q * e0 + g * q + e0
    }
}

proof fn lemma_mul_mod_inner(a: int, x: int, c: int, m: int)
    requires
        m > 0,
    ensures
        (a * (x % m) + c) % m == (a * x + c) % m,
{
    vstd::arithmetic::div_mod::lemma_fundamental_div_mod(x, m);
    let d = x / m;
    assert(a * x + c == m * (a * d) + (a * (x % m) + c)) by (nonlinear_arith)
        requires
            x == m * d + x % m,
    ;
    vstd::arithmetic::div_mod::lemma_mod_multiples_vanish(a * d, a * (x % m) + c, m);
}

/// `2^k` steps of the generator are one affine map modulo `2^64`.
proof fn lemma_affine(x: u64, inc: u64, k: nat)
    ensures
        pcg_advance(x, inc, two_to(k) as nat) as int == (multiplier(k) * x + addend(inc, k))
            % 0x1_0000_0000_0000_0000,
    decreases k,
{
    let m: int = 0x1_0000_0000_0000_0000;
    lemma_two_to_pos(k);
    if k == 0 {
        reveal_with_fuel(pcg_advance, 2);
        assert(two_to(0) == 1);
        assert(pcg_advance(x, inc, 1) == pcg_step(x, inc));
        assert(x as int * MUL as int == MUL as int * x) by (nonlinear_arith);
    } else {
        let p = two_to((k - 1) as nat);
        lemma_two_to_pos((k - 1) as nat);
        assert(two_to(k) as nat == (p + p) as nat);
        lemma_advance_add(x, inc, p as nat, p as nat);
        let z = pcg_advance(x, inc, p as nat);
        lemma_affine(x, inc, (k - 1) as nat);
        lemma_affine(z, inc, (k - 1) as nat);
        let a = multiplier((k - 1) as nat);
        let c = addend(inc, (k - 1) as nat);
        lemma_mul_mod_inner(a, a * x + c, c, m);
        assert(a * (a * x + c) + c == (a * a) * x + (a + 1) * c) by (nonlinear_arith);
    }
}

/// `2^k` steps move any state by `2^k` modulo `2^(k + 1)`.
proof fn lemma_half_turn(z: u64, inc: u64, k: nat) -> (v: int)
    requires
        inc % 2 == 1,
        k < 64,
    ensures
        pcg_advance(z, inc, two_to(k) as nat) - z - two_to(k) == two_to(k + 1) * v,
{
    let m: int = 0x1_0000_0000_0000_0000;
    lemma_affine(z, inc, k);
    let q = lemma_multiplier(k);
    let e = lemma_addend(inc, k);
    let a = multiplier(k);
    let c = addend(inc, k);
    let y = a * z + c;
    vstd::arithmetic::div_mod::lemma_fundamental_div_mod(y, m);
    let w = y / m;
    lemma_two_to_adds(k + 1, (63 - k) as nat);
    lemma_two_to_64();
    let r = two_to((63 - k) as nat);
    let p1 = two_to(k + 1);
    assert(m == p1 * r);
    assert(two_to(k + 2) == 2 * p1);
    assert(p1 == 2 * two_to(k));
    let t = two_to(k);
    let q2 = two_to(k + 2);
    assert((a - 1) * z == p1 * (2 * q * z)) by (nonlinear_arith)
        requires
            a == 1 + q2 * q,
            q2 == 2 * p1,
    ;
    assert(c - t == p1 * e) by (nonlinear_arith)
        requires
            c == t * (2 * e + 1),
            p1 == 2 * t,
    ;
    assert(m * w == p1 * (r * w)) by (nonlinear_arith)
        requires
            m == p1 * r,
    ;
    assert(y - z == (a - 1) * z + c) by (nonlinear_arith)
        requires
            y == a * z + c,
    ;
    assert(p1 * (2 * q * z) + p1 * e - p1 * (r * w) == p1 * (2 * q * z + e - r * w)) by (nonlinear_arith);
    assert(y % m - z - t == p1 * (2 * q * z + e - r * w));
    2 * q * z + e - r * w
}

/// From any state, every state that agrees with it modulo `2^d` is reached, modulo `2^k`, within
/// `2^k` steps taken `2^d` at a time.
proof fn lemma_cover(x: u64, y: u64, inc: u64, d: nat, k: nat) -> (j: nat)
    requires
        inc % 2 == 1,
        d <= k <= 64,
        (x - y) % two_to(d) == 0,
    ensures
        two_to(d) * j < two_to(k),
        (pcg_advance(x, inc, (two_to(d) * j) as nat) - y) % two_to(k) == 0,
    decreases k - d,
{
    lemma_two_to_pos(d);
    lemma_two_to_pos(k);
    if k == d {
        assert(two_to(d) * 0 == 0);
        assert(pcg_advance(x, inc, 0) == x);
        0
    } else {
        let j0 = lemma_cover(x, y, inc, d, (k - 1) as nat);
        let h = two_to((k - 1) as nat);
        lemma_two_to_pos((k - 1) as nat);
        assert(two_to(k) == 2 * h);
        let n0 = two_to(d) * j0;
        let z = pcg_advance(x, inc, n0 as nat);
        vstd::arithmetic::div_mod::lemma_fundamental_div_mod(z - y, h);
        let t = (z - y) / h;
        assert(z - y == h * t);
        if t % 2 == 0 {
            assert(z - y == two_to(k) * (t / 2)) by (nonlinear_arith)
                requires
                    z - y == h * t,
                    t % 2 == 0,
                    two_to(k) == 2 * h,
            ;
            vstd::arithmetic::div_mod::lemma_mod_multiples_basic(t / 2, two_to(k));
            assert((t / 2) * two_to(k) == two_to(k) * (t / 2)) by (nonlinear_arith);
            assert(n0 < h);
            j0
        } else {
            let v = lemma_half_turn(z, inc, (k - 1) as nat);
            assert((k - 1) as nat + 1 == k);
            lemma_advance_add(x, inc, n0 as nat, h as nat);
            let after = pcg_advance(x, inc, (n0 + h) as nat);
            assert(after == pcg_advance(z, inc, h as nat));
            vstd::arithmetic::div_mod::lemma_fundamental_div_mod(t, 2);
            let u = t / 2 + 1;
            assert(t + 1 == 2 * u);
            assert(h * t + h == two_to(k) * u) by (nonlinear_arith)
                requires
                    t + 1 == 2 * u,
                    two_to(k) == 2 * h,
            ;
            assert(after - y == two_to(k) * v + two_to(k) * u);
            assert(two_to(k) * v + two_to(k) * u == two_to(k) * (v + u)) by (nonlinear_arith);
            vstd::arithmetic::div_mod::lemma_mod_multiples_basic(v + u, two_to(k));
            assert((v + u) * two_to(k) == two_to(k) * (v + u)) by (nonlinear_arith);
            lemma_two_to_adds(d, (k - 1 - d) as nat);
            let s = two_to((k - 1 - d) as nat);
            assert(h == two_to(d) * s);
            assert(two_to(d) * (j0 + s) == n0 + h) by (nonlinear_arith)
                requires
                    n0 == two_to(d) * j0,
                    h == two_to(d) * s,
            ;
            assert(n0 < h);
            lemma_two_to_pos((k - 1 - d) as nat);
            (j0 + s) as nat
        }
    }
}

/// Taking steps `2^d` at a time from any state with an odd increment, every state that agrees with
/// it modulo `2^d` comes up within `2^64` steps. With `d == 0` this is the generator's full period:
/// every `u64` comes up.
pub proof fn lemma_reaches(x: u64, y: u64, inc: u64, d: nat) -> (j: nat)
    requires
        inc % 2 == 1,
        d <= 64,
        (x - y) % two_to(d) == 0,
    ensures
        two_to(d) * j < 0x1_0000_0000_0000_0000,
        pcg_advance(x, inc, (two_to(d) * j) as nat) == y,
{
    let j = lemma_cover(x, y, inc, d, 64);
    lemma_two_to_64();
    let n = (two_to(d) * j) as nat;
    let z = pcg_advance(x, inc, n);
    vstd::arithmetic::div_mod::lemma_fundamental_div_mod(z - y, two_to(64));
    assert(z == y) by (nonlinear_arith)
        requires
            z - y == 0x1_0000_0000_0000_0000 * ((z - y) / 0x1_0000_0000_0000_0000),
            0 <= z < 0x1_0000_0000_0000_0000,
            0 <= y < 0x1_0000_0000_0000_0000,
    ;
    j
}

/// Taking steps `2^d` at a time (`d <= 2`) from any state with an odd increment, within `2^64`
/// steps the generator comes to a state whose output has its top bit set, if `high`, or clear.
pub proof fn lemma_reach_output(state: u64, inc: u64, d: nat, high: bool) -> (j: nat)
    requires
        inc % 2 == 1,
        d <= 2,
    ensures
        two_to(d) * j < 0x1_0000_0000_0000_0000,
        high ==> pcg_output(pcg_advance(state, inc, (two_to(d) * j) as nat)) >= 0x8000_0000,
        !high ==> pcg_output(pcg_advance(state, inc, (two_to(d) * j) as nat)) < 0x8000_0000,
{
    let r = state % 4;
    let y: u64 = if high {
        (0x2_0000_0000_0000u64 + r) as u64
    } else {
        r
    };
    if high {
        assert(pcg_output(y) >= 0x8000_0000u32) by (bit_vector)
            requires
                y == 0x2_0000_0000_0000u64 + r,
                r < 4,
        ;
    } else {
        assert(pcg_output(y) < 0x8000_0000u32) by (bit_vector)
            requires
                y == r,
                r < 4,
        ;
    }
    lemma_two_to_adds(d, (2 - d) as nat);
    reveal_with_fuel(two_to, 3);
    let s = two_to((2 - d) as nat);
    assert(4 == two_to(d) * s);
    let hb: int = if high {
        0x8000_0000_0000
    } else {
        0
    };
    assert(state - y == 4 * (state / 4 - hb));
    assert(state - y == two_to(d) * (s * (state / 4 - hb))) by (nonlinear_arith)
        requires
            state - y == 4 * (state / 4 - hb),
            4 == two_to(d) * s,
    ;
    lemma_two_to_pos(d);
    vstd::arithmetic::div_mod::lemma_mod_multiples_basic(s * (state / 4 - hb), two_to(d));
    assert((s * (state / 4 - hb)) * two_to(d) == two_to(d) * (s * (state / 4 - hb))) by (nonlinear_arith);
    lemma_reaches(state, y, inc, d)
}

} // verus!
