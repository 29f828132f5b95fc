use std::collections::hash_map::RandomState;
use std::time::{Duration, SystemTime};
use crate::misc::period::{lemma_reach_output, two_to};
use vstd::prelude::*;

verus! {

/// Multiplier of the linear congruential step.
pub const MUL: u64 = 6_364_136_223_846_793_005;

/// Rotation of a 32-bit word `n` places to the right.
pub open spec fn rotr32(x: u32, n: u32) -> u32 {
    let k = n % 32;
    if k == 0 {
        x
    } else {
        (x >> k) | (x << ((32 - k) as u32))
    }
}

/// One step of the generator's state: `state * MUL + inc` modulo 2^64.
pub open spec fn pcg_step(state: u64, inc: u64) -> u64 {
    ((state as int * MUL as int + inc as int) % 0x1_0000_0000_0000_0000) as u64
}

/// The 32-bit word output for a state: an xorshift of its high bits, rotated by its top five bits.
pub open spec fn pcg_output(state: u64) -> u32 {
    rotr32(((state >> 18u64) ^ (state >> 27u64)) as u32, (state >> 59u64) as u32)
}

/// The bits of `x` rotated right by `n` places, as `u32::rotate_right` does.
fn rotate_right_u32(x: u32, n: u32) -> (r: u32)
    ensures
        r == rotr32(x, n),
{
    let k = n % 32;
    if k == 0 {
        x
    } else {
        (x >> k) | (x << (32 - k))
    }
}

/// The increment for a stream: `2 * stream_id + 1` modulo 2^64, which is always odd.
pub open spec fn stream_increment(stream_id: u64) -> u64 {
    ((2 * stream_id as int + 1) % 0x1_0000_0000_0000_0000) as u64
}

/// The state a generator seeded with `seed` on the stream `stream_id` starts in: the sum of the seed
/// and the increment, advanced one step.
pub open spec fn seeded_state(seed: u64, stream_id: u64) -> u64 {
    let inc = stream_increment(stream_id);
    pcg_step(((seed as int + inc as int) % 0x1_0000_0000_0000_0000) as u64, inc)
}

/// The state after `k` steps from `state`.
pub open spec fn pcg_advance(state: u64, inc: u64, k: nat) -> u64
    decreases k,
{
    if k == 0 {
        state
    } else {
        pcg_advance(pcg_step(state, inc), inc, (k - 1) as nat)
    }
}

/// The 64-bit word drawn from `state`: the outputs of two consecutive states, high word first.
pub open spec fn pcg_output_u64(state: u64, inc: u64) -> u64 {
    (pcg_output(state) as int * 0x1_0000_0000 + pcg_output(pcg_step(state, inc)) as int) as u64
}

/// The 128-bit word drawn from `state`: two consecutive 64-bit words, high word first.
pub open spec fn pcg_output_u128(state: u64, inc: u64) -> u128 {
    (pcg_output_u64(state, inc) as int * 0x1_0000_0000_0000_0000 + pcg_output_u64(
        pcg_advance(state, inc, 2),
        inc,
    ) as int) as u128
}

/// `std::time::SystemTime`, the wall clock.
#[verifier::external_type_specification]
#[verifier::external_body]
pub struct ExSystemTime(SystemTime);

/// `SystemTime::now`: the wall clock's reading. Nothing is claimed of it.
#[verifier::external_body]
fn system_now() -> SystemTime {
    SystemTime::now()
}

/// `SystemTime::duration_since(UNIX_EPOCH)`: the time since 1970, `None` for a reading before it.
/// Nothing is claimed of it.
#[verifier::external_body]
fn since_unix_epoch(t: &SystemTime) -> Option<Duration> {
    match t.duration_since(std::time::UNIX_EPOCH) {
        Ok(d) => Some(d),
        Err(_) => None,
    }
}

/// `Duration::as_nanos`: the whole nanoseconds of `d`. Nothing is claimed of the number.
#[verifier::external_body]
fn duration_nanos(d: &Duration) -> u128 {
    d.as_nanos()
}

/// `RandomState::new`: fresh keys for std's keyed hasher. Nothing is claimed of them.
#[verifier::external_body]
fn fresh_hash_keys() -> RandomState {
    RandomState::new()
}

/// `BuildHasher::hash_one`: the keyed hash of `x`. Nothing is claimed of it.
#[verifier::external_body]
fn keyed_hash(keys: &RandomState, x: u64) -> u64 {
    std::hash::BuildHasher::hash_one(keys, x)
}

/// A permuted congruential generator with 64 bits of state and a 32-bit output.
pub struct Pcg32 {
    state: u64,
    inc: u64,
}

impl Pcg32 {
    #[verifier::type_invariant]
    spec fn inc_is_odd(self) -> bool {
        self.inc % 2 == 1
    }

    /// The current 64-bit state.
    pub closed spec fn state_of(&self) -> u64 {
        self.state
    }

    /// The increment, which selects the stream.
    pub closed spec fn inc_of(&self) -> u64 {
        self.inc
    }

    /// The seed a clock reading gives: its nanoseconds since 1970 modulo 2^64; `None` for a reading
    /// before 1970.
    pub fn seed_from_nanos(nanos: Option<u128>) -> (r: Option<u64>)
        ensures
            r == match nanos {
                Some(n) => Some((n % 0x1_0000_0000_0000_0000) as u64),
                None => None,
            },
    {
        match nanos {
            Some(n) => {
                let seed = (#[verifier::truncate] (n as u64));
                assert(seed == (n % 0x1_0000_0000_0000_0000) as u64) by (bit_vector)
                    requires
                        seed == (n as u64),
                ;
                Some(seed)
            },
            None => None,
        }
    }

    /// A generator seeded with a clock reading of `nanos` nanoseconds since 1970 (`seed_from_nanos`)
    /// on the stream `stream_id`; `None` for a reading before 1970.
    pub fn from_clock(nanos: Option<u128>, stream_id: u64) -> (r: Option<Self>)
        ensures
            r is Some <==> nanos is Some,
            r matches Some(g) ==> {
                &&& g.state_of() == seeded_state(
                    (nanos.unwrap() % 0x1_0000_0000_0000_0000) as u64,
                    stream_id,
                )
                &&& g.inc_of() == stream_increment(stream_id)
            },
    {
        match Self::seed_from_nanos(nanos) {
            Some(seed) => Some(Self::with_seed(seed, stream_id)),
            None => None,
        }
    }

    /// A generator seeded with the wall clock's nanoseconds since 1970 (`from_clock`), on a stream
    /// picked by std's randomly keyed hasher; `None` for a clock set before 1970.
    pub fn new() -> (r: Option<Self>)
        ensures
            r matches Some(g) ==> exists|seed: u64, stream_id: u64|
                g.state_of() == seeded_state(seed, stream_id) && g.inc_of() == stream_increment(
                    stream_id,
                ),
    {
        let now = system_now();
        let nanos = match since_unix_epoch(&now) {
            Some(d) => Some(duration_nanos(&d)),
            None => None,
        };
        let keys = fresh_hash_keys();
        let stream_id = keyed_hash(&keys, 0);
        Self::from_clock(nanos, stream_id)
    }

    /// A generator on the stream `stream_id` (its top bit plays no part), seeded with `seed` and
    /// advanced one step.
    pub fn with_seed(seed: u64, stream_id: u64) -> (r: Self)
        ensures
            r.inc_of() == stream_increment(stream_id),
            r.state_of() == seeded_state(seed, stream_id),
    {
        let inc = (stream_id << 1u64) | 1u64;
        assert(inc == stream_increment(stream_id) && inc % 2 == 1) by (bit_vector)
            requires
                inc == (stream_id << 1u64) | 1u64,
        ;
        let state = seed.wrapping_add(inc);
        let mut pcg = Self { state, inc };
        pcg.next();
        pcg
    }

    fn next(&mut self) -> (r: u32)
        ensures
            final(self).state_of() == pcg_step(old(self).state_of(), old(self).inc_of()),
            final(self).inc_of() == old(self).inc_of(),
            r == pcg_output(old(self).state_of()),
    {
        proof {
            use_type_invariant(&*self);
        }
        let old_state = self.state;
        let m = self.state.wrapping_mul(MUL);
        let s = m.wrapping_add(self.inc);
        proof {
            lemma_step(old_state, self.inc, m, s);
        }
        self.state = s;
        let xorshifted = (#[verifier::truncate] (((old_state >> 18u64) ^ (old_state >> 27u64)) as u32));
        let rot = (#[verifier::truncate] ((old_state >> 59u64) as u32));
        rotate_right_u32(xorshifted, rot)
    }

    /// The next 32-bit output.
    pub fn next_u32(&mut self) -> (r: u32)
        ensures
            final(self).state_of() == pcg_step(old(self).state_of(), old(self).inc_of()),
            final(self).inc_of() == old(self).inc_of(),
            r == pcg_output(old(self).state_of()),
    {
        self.next()
    }

    /// The next 64-bit output: two 32-bit outputs, the first in the high half.
    pub fn next_u64(&mut self) -> (r: u64)
        ensures
            final(self).state_of() == pcg_advance(old(self).state_of(), old(self).inc_of(), 2),
            final(self).inc_of() == old(self).inc_of(),
            r == pcg_output_u64(old(self).state_of(), old(self).inc_of()),
    {
        let u = self.next_u32() as u64;
        let d = self.next_u32() as u64;
        assert((u << 32u64) | d == u * 0x1_0000_0000 + d) by (bit_vector)
            requires
                u <= 0xffff_ffff,
                d <= 0xffff_ffff,
        ;
        proof {
            reveal_with_fuel(pcg_advance, 3);
        }
        (u << 32u64) | d
    }

    /// The next 128-bit output: two 64-bit outputs, the first in the high half.
    pub fn next_u128(&mut self) -> (r: u128)
        ensures
            final(self).state_of() == pcg_advance(old(self).state_of(), old(self).inc_of(), 4),
            final(self).inc_of() == old(self).inc_of(),
            r == pcg_output_u128(old(self).state_of(), old(self).inc_of()),
    {
        let u = self.next_u64() as u128;
        let d = self.next_u64() as u128;
        assert((u << 64u128) | d == u * 0x1_0000_0000_0000_0000 + d) by (bit_vector)
            requires
                u <= 0xffff_ffff_ffff_ffff,
                d <= 0xffff_ffff_ffff_ffff,
        ;
        proof {
            lemma_advance_add(old(self).state_of(), old(self).inc_of(), 2, 2);
        }
        (u << 64u128) | d
    }
}

/// Bit `i` of a word rotated right by `n` places is bit `i + n` (counted modulo 32) of the word:
/// the rotation moves every bit and loses none.
pub proof fn lemma_rotr32_bits(x: u32, n: u32, i: u32)
    requires
        i < 32,
    ensures
        (rotr32(x, n) >> i) & 1 == (x >> ((i + n % 32) % 32)) & 1,
{
    let r = rotr32(x, n);
    let k = n % 32;
    if k == 0 {
        assert((r >> i) & 1 == (x >> ((i + k) % 32)) & 1) by (bit_vector)
            requires
                r == x,
                k == 0,
                i < 32,
        ;
    } else {
        assert((r >> i) & 1 == (x >> ((i + k) % 32)) & 1) by (bit_vector)
            requires
                r == (x >> k) | (x << ((32 - k) as u32)),
                0 < k < 32,
                i < 32,
        ;
    }
}

/// Bit `i` of the word output for a state is bit `18 + j` of the state xor bit `27 + j`, where `j`
/// is `i` plus the state's top five bits, modulo 32: the xorshift of the high bits, rotated right
/// by the top five bits.
pub proof fn lemma_output_bits(state: u64, i: u32)
    requires
        i < 32,
    ensures
        ({
            let j = ((i + (state >> 59u64) as u32) % 32) as u64;
            (pcg_output(state) >> i) & 1 == ((((state >> (18 + j)) ^ (state >> (27 + j))) & 1) as u32)
        }),
{
    let x = ((state >> 18u64) ^ (state >> 27u64)) as u32;
    let n = (state >> 59u64) as u32;
    lemma_rotr32_bits(x, n, i);
    assert(n < 32) by (bit_vector)
        requires
            n == (state >> 59u64) as u32,
    ;
    let j32: u32 = ((i + n % 32) % 32) as u32;
    assert((i + n) % 32 == (i + n % 32) % 32) by (bit_vector)
        requires
            i < 32,
            n < 32,
    ;
    let j = j32 as u64;
    assert((x >> j32) & 1 == ((((state >> (18 + j)) ^ (state >> (27 + j))) & 1) as u32)) by (bit_vector)
        requires
            x == ((state >> 18u64) ^ (state >> 27u64)) as u32,
            j32 < 32,
            j == j32 as u64,
    ;
}

/// The inverse of `MUL` modulo 2^64.
pub open spec fn mul_inverse() -> int {
    13877824140714322085
}

/// One step can be undone: subtracting the increment and multiplying by the inverse of the
/// multiplier modulo 2^64 gives back the state the step started from.
pub proof fn lemma_step_undone(state: u64, inc: u64)
    ensures
        ((pcg_step(state, inc) as int - inc as int) * mul_inverse()) % 0x1_0000_0000_0000_0000
            == state,
{
    let m: int = 0x1_0000_0000_0000_0000;
    let x: int = state as int * MUL as int + inc as int;
    vstd::arithmetic::div_mod::lemma_fundamental_div_mod(x, m);
    let q = x / m;
    let t = x % m;
    assert(pcg_step(state, inc) as int == t);
    let c: int = 4787856489426250814;
    assert(MUL as int * mul_inverse() == 1 + m * c);
    assert((t - inc as int) * mul_inverse() == m * (state as int * c - q * mul_inverse())
        + state as int) by (nonlinear_arith)
        requires
            x == m * q + t,
            x == state as int * MUL as int + inc as int,
            MUL as int * mul_inverse() == 1 + m * c,
    ;
    vstd::arithmetic::div_mod::lemma_mod_multiples_vanish(
        state as int * c - q * mul_inverse(),
        state as int,
        m,
    );
    vstd::arithmetic::div_mod::lemma_small_mod(state as nat, m as nat);
}

/// Two different states never step to the same state.
pub proof fn lemma_step_injective(a: u64, b: u64, inc: u64)
    requires
        pcg_step(a, inc) == pcg_step(b, inc),
    ensures
        a == b,
{
    lemma_step_undone(a, inc);
    lemma_step_undone(b, inc);
}

/// The start state depends on every bit of the seed: on one stream, different seeds give
/// different start states.
pub proof fn lemma_seeds_distinguished(a: u64, b: u64, stream_id: u64)
    requires
        a != b,
    ensures
        seeded_state(a, stream_id) != seeded_state(b, stream_id),
{
    let inc = stream_increment(stream_id);
    let m: int = 0x1_0000_0000_0000_0000;
    let sa = ((a as int + inc as int) % m) as u64;
    let sb = ((b as int + inc as int) % m) as u64;
    if seeded_state(a, stream_id) == seeded_state(b, stream_id) {
        lemma_step_injective(sa, sb, inc);
        vstd::arithmetic::div_mod::lemma_fundamental_div_mod(a as int + inc as int, m);
        vstd::arithmetic::div_mod::lemma_fundamental_div_mod(b as int + inc as int, m);
        assert((a as int + inc as int) / m == 0 || (a as int + inc as int) / m == 1);
        assert((b as int + inc as int) / m == 0 || (b as int + inc as int) / m == 1);
        assert(false);
    }
}

/// Where a range starts and ends, whatever the type: an included start is its value and an
/// excluded one the next, an included end is one past its value and an excluded end its value.
pub proof fn lemma_range_ends<T: PcgRandomInt>(v: T)
    ensures
        range_low(RangeBound::Included(v)) == v.to_int(),
        range_low(RangeBound::Excluded(v)) == v.to_int() + 1,
        range_high(RangeBound::Included(v)) == v.to_int() + 1,
        range_high(RangeBound::Excluded(v)) == v.to_int(),
{
}

/// The increment of every stream is odd, as a full-period generator needs.
pub proof fn lemma_increment_odd(stream_id: u64)
    ensures
        stream_increment(stream_id) % 2 == 1,
{
    let inc = stream_increment(stream_id);
    assert(inc % 2 == 1) by (bit_vector)
        requires
            inc == ((2 * stream_id as int + 1) % 0x1_0000_0000_0000_0000) as u64,
    ;
}

/// The top bit of a stream id plays no part: the two ids that differ only there select the same
/// stream, and with the same seed start in the same state.
pub proof fn lemma_stream_top_bit_ignored(seed: u64, stream_id: u64)
    ensures
        stream_increment(stream_id ^ 0x8000_0000_0000_0000) == stream_increment(stream_id),
        seeded_state(seed, stream_id ^ 0x8000_0000_0000_0000) == seeded_state(seed, stream_id),
{
    let other = stream_id ^ 0x8000_0000_0000_0000u64;
    assert(((2 * other as int + 1) % 0x1_0000_0000_0000_0000) as u64 == ((2 * stream_id as int + 1)
        % 0x1_0000_0000_0000_0000) as u64) by (bit_vector)
        requires
            other == stream_id ^ 0x8000_0000_0000_0000u64,
    ;
}

/// Advancing `j` steps and then `k` steps is advancing `j + k` steps.
pub proof fn lemma_advance_add(state: u64, inc: u64, j: nat, k: nat)
    ensures
        pcg_advance(pcg_advance(state, inc, j), inc, k) == pcg_advance(state, inc, j + k),
    decreases j,
{
    if j > 0 {
        lemma_advance_add(pcg_step(state, inc), inc, (j - 1) as nat, k);
    }
}

proof fn lemma_step(state: u64, inc: u64, m: u64, s: u64)
    requires
        m == vstd::wrapping::u64_specs::wrapping_mul(state, MUL),
        s == vstd::wrapping::u64_specs::wrapping_add(m, inc),
    ensures
        s == pcg_step(state, inc),
{
    let p: int = 0x1_0000_0000_0000_0000;
    let prod = state as int * MUL as int;
    assert(prod >= 0) by (nonlinear_arith)
        requires
            prod == state as int * MUL as int,
    ;
    assert(m as int == prod % p);
    vstd::arithmetic::div_mod::lemma_add_mod_noop(prod, inc as int, p);
    vstd::arithmetic::div_mod::lemma_small_mod(inc as nat, p as nat);
    vstd::arithmetic::div_mod::lemma_small_mod(m as nat, p as nat);
    assert(s as int == (m as int + inc as int) % p);
}


/// One end of a range, as `std::ops::Bound` has it.
pub enum RangeBound<T> {
    Included(T),
    Excluded(T),
    Unbounded,
}

/// Rust's remainder `a % b` for `b > 0`: it takes the sign of `a`.
pub open spec fn trunc_rem(a: int, b: int) -> int {
    if a >= 0 {
        a % b
    } else {
        -((-a) % b)
    }
}

/// `x` wrapped into `lo..=hi`, as fixed-width arithmetic does.
pub open spec fn wrap_into(x: int, lo: int, hi: int) -> int {
    (x - lo) % (hi - lo + 1) + lo
}

/// The `k`-th value of type `T` drawn from a generator in `state` with increment `inc`.
pub open spec fn nth_draw<T: PcgRandomInt>(state: u64, inc: u64, k: nat) -> T {
    T::drawn(pcg_advance(state, inc, k * T::draw_steps()), inc)
}

/// The smallest value a range holds.
pub open spec fn range_low<T: PcgRandomInt>(b: RangeBound<T>) -> int {
    match b {
        RangeBound::Included(s) => s.to_int(),
        RangeBound::Excluded(s) => s.to_int() + 1,
        RangeBound::Unbounded => 0,
    }
}

/// One past the largest value a range holds.
pub open spec fn range_high<T: PcgRandomInt>(b: RangeBound<T>) -> int {
    match b {
        RangeBound::Included(e) => e.to_int() + 1,
        RangeBound::Excluded(e) => e.to_int(),
        RangeBound::Unbounded => 0,
    }
}

/// Whether `start..end` is a range that `gen_range` can sample: both ends bounded, neither end
/// overflowing `T` when made half-open, not empty, and its width fitting in `T`.
pub open spec fn samplable_range<T: PcgRandomInt>(start: RangeBound<T>, end: RangeBound<T>) -> bool {
    &&& !(start is Unbounded)
    &&& !(end is Unbounded)
    &&& range_low(start) <= T::max_int()
    &&& range_high(end) <= T::max_int()
    &&& range_low(start) < range_high(end)
    &&& range_high(end) - range_low(start) <= T::max_int()
}

/// The rejection threshold for a range of `width` values: draws below it are thrown away, so that
/// each remainder is equally likely.
pub open spec fn rejection_threshold<T: PcgRandomInt>(width: int) -> int {
    trunc_rem(wrap_into(-width, T::min_int(), T::max_int()), width)
}

/// Integers that a `Pcg32` can draw, with the arithmetic `gen_range` needs.
pub trait PcgRandomInt: Sized + Copy {
    /// The mathematical value.
    spec fn to_int(self) -> int;

    /// The least value of the type.
    spec fn min_int() -> int;

    /// The greatest value of the type.
    spec fn max_int() -> int;

    /// The value drawn from a generator in `state` with increment `inc`.
    spec fn drawn(state: u64, inc: u64) -> Self;

    /// How many steps one draw advances the generator.
    spec fn draw_steps() -> nat;

    /// Every value lies between the least and the greatest, and the type is either unsigned or
    /// two's complement.
    proof fn lemma_range(x: Self)
        ensures
            Self::min_int() <= x.to_int() <= Self::max_int(),
            Self::max_int() >= 1,
            Self::min_int() == 0 || Self::min_int() == -(Self::max_int() + 1),
    ;

    /// From any state of a generator with an odd increment, one of the next `2^64` draws lies in
    /// the upper half of the type's range.
    proof fn lemma_upper_half_draw(state: u64, inc: u64) -> (j: nat)
        requires
            inc % 2 == 1,
        ensures
            j < 0x1_0000_0000_0000_0000,
            Self::drawn(pcg_advance(state, inc, j * Self::draw_steps()), inc).to_int()
                >= Self::min_int() + (Self::max_int() - Self::min_int() + 1) / 2,
    ;

    /// Draws one value.
    fn get_random(rng: &mut Pcg32) -> (r: Self)
        ensures
            r == Self::drawn(old(rng).state_of(), old(rng).inc_of()),
            final(rng).state_of() == pcg_advance(
                old(rng).state_of(),
                old(rng).inc_of(),
                Self::draw_steps(),
            ),
            final(rng).inc_of() == old(rng).inc_of(),
    ;

    /// `0 - self`, wrapped.
    fn wrapping_neg(self) -> (r: Self)
        ensures
            r.to_int() == wrap_into(-self.to_int(), Self::min_int(), Self::max_int()),
    ;

    /// `self + 1`.
    fn plus_one(self) -> (r: Self)
        requires
            self.to_int() < Self::max_int(),
        ensures
            r.to_int() == self.to_int() + 1,
    ;

    /// `self - other`.
    fn minus(self, other: Self) -> (r: Self)
        requires
            Self::min_int() <= self.to_int() - other.to_int() <= Self::max_int(),
        ensures
            r.to_int() == self.to_int() - other.to_int(),
    ;

    /// `self + other`.
    fn plus(self, other: Self) -> (r: Self)
        requires
            Self::min_int() <= self.to_int() + other.to_int() <= Self::max_int(),
        ensures
            r.to_int() == self.to_int() + other.to_int(),
    ;

    /// `self % other`.
    fn rem_by(self, other: Self) -> (r: Self)
        requires
            other.to_int() > 0,
        ensures
            r.to_int() == trunc_rem(self.to_int(), other.to_int()),
    ;

    /// `self >= other`.
    fn at_least(self, other: Self) -> (r: bool)
        ensures
            r == (self.to_int() >= other.to_int()),
    ;
}

impl PcgRandomInt for u32 {
    open spec fn to_int(self) -> int {
        self as int
    }

    open spec fn min_int() -> int {
        0
    }

    open spec fn max_int() -> int {
        u32::MAX as int
    }

    open spec fn drawn(state: u64, inc: u64) -> u32 {
        pcg_output(state)
    }

    open spec fn draw_steps() -> nat {
        1
    }

    proof fn lemma_range(x: u32) {
    }

    proof fn lemma_upper_half_draw(state: u64, inc: u64) -> (j: nat) {
        let j = lemma_reach_output(state, inc, 0, true);
        reveal_with_fuel(two_to, 1);
        assert(j * 1 == two_to(0) * j);
        j
    }

    fn get_random(rng: &mut Pcg32) -> (r: u32) {
        proof {
            reveal_with_fuel(pcg_advance, 2);
        }
        rng.next_u32()
    }

    fn wrapping_neg(self) -> (r: u32) {
        proof {
            lemma_wrap_neg(self as int, 0, u32::MAX as int);
        }
        0u32.wrapping_sub(self)
    }

    fn plus_one(self) -> (r: u32) {
        self + 1
    }

    fn minus(self, other: u32) -> (r: u32) {
        self - other
    }

    fn plus(self, other: u32) -> (r: u32) {
        self + other
    }

    fn rem_by(self, other: u32) -> (r: u32) {
        self % other
    }

    fn at_least(self, other: u32) -> (r: bool) {
        self >= other
    }
}

impl PcgRandomInt for u64 {
    open spec fn to_int(self) -> int {
        self as int
    }

    open spec fn min_int() -> int {
        0
    }

    open spec fn max_int() -> int {
        u64::MAX as int
    }

    open spec fn drawn(state: u64, inc: u64) -> u64 {
        pcg_output_u64(state, inc)
    }

    open spec fn draw_steps() -> nat {
        2
    }

    proof fn lemma_range(x: u64) {
    }

    proof fn lemma_upper_half_draw(state: u64, inc: u64) -> (j: nat) {
        let j = lemma_reach_output(state, inc, 1, true);
        assert(two_to(0) == 1 && two_to(1) == 2 * two_to(0));
        assert(j * 2 == two_to(1) * j) by (nonlinear_arith)
            requires
                two_to(1) == 2,
        ;
        let y = pcg_advance(state, inc, j * 2);
        let o1 = pcg_output(y);
        let o2 = pcg_output(pcg_step(y, inc));
        assert(0 <= o1 * 0x1_0000_0000int + o2 < 0x1_0000_0000_0000_0000) by (nonlinear_arith)
            requires
                0 <= o1 < 0x1_0000_0000,
                0 <= o2 < 0x1_0000_0000,
        ;
        assert(o1 * 0x1_0000_0000int + o2 >= 0x8000_0000_0000_0000) by (nonlinear_arith)
            requires
                o1 >= 0x8000_0000,
                o2 >= 0,
        ;
        j
    }

    fn get_random(rng: &mut Pcg32) -> (r: u64) {
        rng.next_u64()
    }

    fn wrapping_neg(self) -> (r: u64) {
        proof {
            lemma_wrap_neg(self as int, 0, u64::MAX as int);
        }
        0u64.wrapping_sub(self)
    }

    fn plus_one(self) -> (r: u64) {
        self + 1
    }

    fn minus(self, other: u64) -> (r: u64) {
        self - other
    }

    fn plus(self, other: u64) -> (r: u64) {
        self + other
    }

    fn rem_by(self, other: u64) -> (r: u64) {
        self % other
    }

    fn at_least(self, other: u64) -> (r: bool) {
        self >= other
    }
}

impl PcgRandomInt for u128 {
    open spec fn to_int(self) -> int {
        self as int
    }

    open spec fn min_int() -> int {
        0
    }

    open spec fn max_int() -> int {
        u128::MAX as int
    }

    open spec fn drawn(state: u64, inc: u64) -> u128 {
        pcg_output_u128(state, inc)
    }

    open spec fn draw_steps() -> nat {
        4
    }

    proof fn lemma_range(x: u128) {
    }

    #[verifier::rlimit(50)]
    proof fn lemma_upper_half_draw(state: u64, inc: u64) -> (j: nat) {
        let j = lemma_reach_output(state, inc, 2, true);
        assert(two_to(0) == 1 && two_to(1) == 2 * two_to(0) && two_to(2) == 2 * two_to(1));
        assert(j * 4 == two_to(2) * j) by (nonlinear_arith)
            requires
                two_to(2) == 4,
        ;
        let y = pcg_advance(state, inc, j * 4);
        let o1 = pcg_output(y);
        let o2 = pcg_output(pcg_step(y, inc));
        assert(0 <= o1 * 0x1_0000_0000int + o2 < 0x1_0000_0000_0000_0000) by (nonlinear_arith)
            requires
                0 <= o1 < 0x1_0000_0000,
                0 <= o2 < 0x1_0000_0000,
        ;
        let w1 = pcg_output_u64(y, inc);
        let w2 = pcg_output_u64(pcg_advance(y, inc, 2), inc);
        assert(w1 >= 0x8000_0000_0000_0000) by (nonlinear_arith)
            requires
                w1 == o1 * 0x1_0000_0000int + o2,
                o1 >= 0x8000_0000,
                o2 >= 0,
        ;
        assert(0x8000_0000_0000_0000_0000_0000_0000_0000 <= w1 * 0x1_0000_0000_0000_0000int + w2
            < 0x1_0000_0000_0000_0000_0000_0000_0000_0000) by (nonlinear_arith)
            requires
                0x8000_0000_0000_0000 <= w1 < 0x1_0000_0000_0000_0000,
                0 <= w2 < 0x1_0000_0000_0000_0000,
        ;
        j
    }

    fn get_random(rng: &mut Pcg32) -> (r: u128) {
        rng.next_u128()
    }

    fn wrapping_neg(self) -> (r: u128) {
        proof {
            lemma_wrap_neg(self as int, 0, u128::MAX as int);
        }
        0u128.wrapping_sub(self)
    }

    fn plus_one(self) -> (r: u128) {
        self + 1
    }

    fn minus(self, other: u128) -> (r: u128) {
        self - other
    }

    fn plus(self, other: u128) -> (r: u128) {
        self + other
    }

    fn rem_by(self, other: u128) -> (r: u128) {
        self % other
    }

    fn at_least(self, other: u128) -> (r: bool) {
        self >= other
    }
}

impl PcgRandomInt for usize {
    open spec fn to_int(self) -> int {
        self as int
    }

    open spec fn min_int() -> int {
        0
    }

    open spec fn max_int() -> int {
        usize::MAX as int
    }

    open spec fn drawn(state: u64, inc: u64) -> usize {
        pcg_output_u64(state, inc) as usize
    }

    open spec fn draw_steps() -> nat {
        2
    }

    proof fn lemma_range(x: usize) {
    }

    #[verifier::rlimit(50)]
    proof fn lemma_upper_half_draw(state: u64, inc: u64) -> (j: nat) {
        if usize::BITS == 64 {
            let j = lemma_reach_output(state, inc, 1, true);
            assert(two_to(0) == 1 && two_to(1) == 2 * two_to(0));
            assert(j * 2 == two_to(1) * j) by (nonlinear_arith)
            requires
                two_to(1) == 2,
        ;
            let y = pcg_advance(state, inc, j * 2);
            let o1 = pcg_output(y);
            let o2 = pcg_output(pcg_step(y, inc));
            assert(0 <= o1 * 0x1_0000_0000int + o2 < 0x1_0000_0000_0000_0000) by (nonlinear_arith)
                requires
                    0 <= o1 < 0x1_0000_0000,
                    0 <= o2 < 0x1_0000_0000,
            ;
        assert(o1 * 0x1_0000_0000int + o2 >= 0x8000_0000_0000_0000) by (nonlinear_arith)
                requires
                    o1 >= 0x8000_0000,
                    o2 >= 0,
            ;
            j
        } else {
            let j = lemma_reach_output(pcg_step(state, inc), inc, 1, true);
            assert(two_to(0) == 1 && two_to(1) == 2 * two_to(0));
            assert(j * 2 == two_to(1) * j) by (nonlinear_arith)
            requires
                two_to(1) == 2,
        ;
            reveal_with_fuel(pcg_advance, 2);
            lemma_advance_add(state, inc, 1, j * 2);
            lemma_advance_add(state, inc, j * 2, 1);
            let y = pcg_advance(state, inc, j * 2);
            assert(pcg_advance(pcg_step(state, inc), inc, j * 2) == pcg_step(y, inc));
            let hi = pcg_output(y);
            let lo = pcg_output(pcg_step(y, inc));
            let x = pcg_output_u64(y, inc);
            assert(0 <= hi * 0x1_0000_0000int + lo < 0x1_0000_0000_0000_0000) by (nonlinear_arith)
                requires
                    0 <= hi < 0x1_0000_0000,
                    0 <= lo < 0x1_0000_0000,
            ;
            assert(x == (hi as u64) * 0x1_0000_0000u64 + (lo as u64));
            assert(usize::BITS == 32);
            assert((x as usize) == (lo as usize)) by (bit_vector)
                requires
                    usize::BITS == 32,
                    x == (hi as u64) * 0x1_0000_0000u64 + (lo as u64),
            ;
            j
        }
    }

    fn get_random(rng: &mut Pcg32) -> (r: usize) {
        (#[verifier::truncate] (rng.next_u64() as usize))
    }

    fn wrapping_neg(self) -> (r: usize) {
        proof {
            lemma_wrap_neg(self as int, 0, usize::MAX as int);
        }
        0usize.wrapping_sub(self)
    }

    fn plus_one(self) -> (r: usize) {
        self + 1
    }

    fn minus(self, other: usize) -> (r: usize) {
        self - other
    }

    fn plus(self, other: usize) -> (r: usize) {
        self + other
    }

    fn rem_by(self, other: usize) -> (r: usize) {
        self % other
    }

    fn at_least(self, other: usize) -> (r: bool) {
        self >= other
    }
}

impl PcgRandomInt for i32 {
    open spec fn to_int(self) -> int {
        self as int
    }

    open spec fn min_int() -> int {
        i32::MIN as int
    }

    open spec fn max_int() -> int {
        i32::MAX as int
    }

    open spec fn drawn(state: u64, inc: u64) -> i32 {
        pcg_output(state) as i32
    }

    open spec fn draw_steps() -> nat {
        1
    }

    proof fn lemma_range(x: i32) {
    }

    proof fn lemma_upper_half_draw(state: u64, inc: u64) -> (j: nat) {
        let j = lemma_reach_output(state, inc, 0, false);
        reveal_with_fuel(two_to, 1);
        assert(j * 1 == two_to(0) * j);
        j
    }

    fn get_random(rng: &mut Pcg32) -> (r: i32) {
        proof {
            reveal_with_fuel(pcg_advance, 2);
        }
        (#[verifier::truncate] (rng.next_u32() as i32))
    }

    fn wrapping_neg(self) -> (r: i32) {
        proof {
            lemma_wrap_neg(self as int, i32::MIN as int, i32::MAX as int);
        }
        0i32.wrapping_sub(self)
    }

    fn plus_one(self) -> (r: i32) {
        self + 1
    }

    fn minus(self, other: i32) -> (r: i32) {
        self - other
    }

    fn plus(self, other: i32) -> (r: i32) {
        self + other
    }

    fn rem_by(self, other: i32) -> (r: i32) {
        self % other
    }

    fn at_least(self, other: i32) -> (r: bool) {
        self >= other
    }
}

impl PcgRandomInt for i64 {
    open spec fn to_int(self) -> int {
        self as int
    }

    open spec fn min_int() -> int {
        i64::MIN as int
    }

    open spec fn max_int() -> int {
        i64::MAX as int
    }

    open spec fn drawn(state: u64, inc: u64) -> i64 {
        pcg_output_u64(state, inc) as i64
    }

    open spec fn draw_steps() -> nat {
        2
    }

    proof fn lemma_range(x: i64) {
    }

    proof fn lemma_upper_half_draw(state: u64, inc: u64) -> (j: nat) {
        let j = lemma_reach_output(state, inc, 1, false);
        assert(two_to(0) == 1 && two_to(1) == 2 * two_to(0));
        assert(j * 2 == two_to(1) * j) by (nonlinear_arith)
            requires
                two_to(1) == 2,
        ;
        let y = pcg_advance(state, inc, j * 2);
        let o1 = pcg_output(y);
        let o2 = pcg_output(pcg_step(y, inc));
        assert(0 <= o1 * 0x1_0000_0000int + o2 < 0x1_0000_0000_0000_0000) by (nonlinear_arith)
            requires
                0 <= o1 < 0x1_0000_0000,
                0 <= o2 < 0x1_0000_0000,
        ;
        assert(o1 * 0x1_0000_0000int + o2 < 0x8000_0000_0000_0000) by (nonlinear_arith)
            requires
                0 <= o1 < 0x8000_0000,
                0 <= o2 < 0x1_0000_0000,
        ;
        j
    }

    fn get_random(rng: &mut Pcg32) -> (r: i64) {
        (#[verifier::truncate] (rng.next_u64() as i64))
    }

    fn wrapping_neg(self) -> (r: i64) {
        proof {
            lemma_wrap_neg(self as int, i64::MIN as int, i64::MAX as int);
        }
        0i64.wrapping_sub(self)
    }

    fn plus_one(self) -> (r: i64) {
        self + 1
    }

    fn minus(self, other: i64) -> (r: i64) {
        self - other
    }

    fn plus(self, other: i64) -> (r: i64) {
        self + other
    }

    fn rem_by(self, other: i64) -> (r: i64) {
        self % other
    }

    fn at_least(self, other: i64) -> (r: bool) {
        self >= other
    }
}

impl PcgRandomInt for i128 {
    open spec fn to_int(self) -> int {
        self as int
    }

    open spec fn min_int() -> int {
        i128::MIN as int
    }

    open spec fn max_int() -> int {
        i128::MAX as int
    }

    open spec fn drawn(state: u64, inc: u64) -> i128 {
        pcg_output_u128(state, inc) as i128
    }

    open spec fn draw_steps() -> nat {
        4
    }

    proof fn lemma_range(x: i128) {
    }

    proof fn lemma_upper_half_draw(state: u64, inc: u64) -> (j: nat) {
        let j = lemma_reach_output(state, inc, 2, false);
        assert(two_to(0) == 1 && two_to(1) == 2 * two_to(0) && two_to(2) == 2 * two_to(1));
        assert(j * 4 == two_to(2) * j) by (nonlinear_arith)
            requires
                two_to(2) == 4,
        ;
        let y = pcg_advance(state, inc, j * 4);
        let o1 = pcg_output(y);
        let o2 = pcg_output(pcg_step(y, inc));
        assert(0 <= o1 * 0x1_0000_0000int + o2 < 0x1_0000_0000_0000_0000) by (nonlinear_arith)
            requires
                0 <= o1 < 0x1_0000_0000,
                0 <= o2 < 0x1_0000_0000,
        ;
        let w1 = pcg_output_u64(y, inc);
        let w2 = pcg_output_u64(pcg_advance(y, inc, 2), inc);
        assert(w1 < 0x8000_0000_0000_0000) by (nonlinear_arith)
            requires
                w1 == o1 * 0x1_0000_0000int + o2,
                0 <= o1 < 0x8000_0000,
                0 <= o2 < 0x1_0000_0000,
        ;
        assert(0 <= w1 * 0x1_0000_0000_0000_0000int + w2 < 0x8000_0000_0000_0000_0000_0000_0000_0000)
            by (nonlinear_arith)
            requires
                0 <= w1 < 0x8000_0000_0000_0000,
                0 <= w2 < 0x1_0000_0000_0000_0000,
        ;
        j
    }

    fn get_random(rng: &mut Pcg32) -> (r: i128) {
        (#[verifier::truncate] (rng.next_u128() as i128))
    }

    fn wrapping_neg(self) -> (r: i128) {
        proof {
            lemma_wrap_neg(self as int, i128::MIN as int, i128::MAX as int);
        }
        0i128.wrapping_sub(self)
    }

    fn plus_one(self) -> (r: i128) {
        self + 1
    }

    fn minus(self, other: i128) -> (r: i128) {
        self - other
    }

    fn plus(self, other: i128) -> (r: i128) {
        self + other
    }

    fn rem_by(self, other: i128) -> (r: i128) {
        self % other
    }

    fn at_least(self, other: i128) -> (r: bool) {
        self >= other
    }
}

/// Negation wrapped into the range of an unsigned or a two's complement type.
pub proof fn lemma_wrap_neg(x: int, lo: int, hi: int)
    requires
        hi >= 1,
        lo == 0 || lo == -(hi + 1),
        lo <= x <= hi,
    ensures
        lo == 0 ==> wrap_into(-x, lo, hi) == if x == 0 {
            0
        } else {
            hi + 1 - x
        },
        lo < 0 ==> wrap_into(-x, lo, hi) == if x == lo {
            lo
        } else {
            -x
        },
{
    let m = hi - lo + 1;
    if lo == 0 {
        if x == 0 {
            vstd::arithmetic::div_mod::lemma_small_mod(0, m as nat);
        } else {
            vstd::arithmetic::div_mod::lemma_mod_add_multiples_vanish(-x, m);
            vstd::arithmetic::div_mod::lemma_small_mod((m - x) as nat, m as nat);
        }
    } else {
        if x == lo {
            assert(-x - lo == m);
            vstd::arithmetic::div_mod::lemma_mod_self_0(m);
        } else {
            vstd::arithmetic::div_mod::lemma_small_mod((-x - lo) as nat, m as nat);
        }
    }
}

/// The rejection threshold of a range is at least 0 and below its width.
pub proof fn lemma_threshold_bounds<T: PcgRandomInt>(width: int)
    requires
        0 < width <= T::max_int(),
        T::max_int() >= 1,
        T::min_int() == 0 || T::min_int() == -(T::max_int() + 1),
    ensures
        0 <= rejection_threshold::<T>(width) < width,
        rejection_threshold::<T>(width) <= T::min_int() + (T::max_int() - T::min_int() + 1) / 2,
{
    let lo = T::min_int();
    let hi = T::max_int();
    let m = hi - lo + 1;
    if lo == 0 {
        vstd::arithmetic::div_mod::lemma_fundamental_div_mod(-width, m);
        vstd::arithmetic::div_mod::lemma_mod_add_multiples_vanish(-width, m);
        vstd::arithmetic::div_mod::lemma_small_mod((m - width) as nat, m as nat);
        assert(wrap_into(-width, T::min_int(), T::max_int()) == m - width);
        vstd::arithmetic::div_mod::lemma_mod_bound(m - width, width);
        vstd::arithmetic::div_mod::lemma_fundamental_div_mod(m - width, width);
        vstd::arithmetic::div_mod::lemma_div_pos_is_pos(m - width, width);
        assert(width * ((m - width) / width) >= 0) by (nonlinear_arith)
            requires
                width > 0,
                (m - width) / width >= 0,
        ;
    } else {
        vstd::arithmetic::div_mod::lemma_small_mod((hi + 1 - width) as nat, m as nat);
        assert(wrap_into(-width, T::min_int(), T::max_int()) == -width);
        vstd::arithmetic::div_mod::lemma_mod_self_0(width);
    }
}

impl Pcg32 {
    /// A value in `start..end` (with the ends as given), drawn by rejection sampling: draws below
    /// the threshold are discarded and the first one at or above it is reduced modulo the width.
    /// Such a draw comes within `2^64` draws, as the generator has full period.
    pub fn gen_range<T: PcgRandomInt>(&mut self, start: RangeBound<T>, end: RangeBound<T>) -> (r: T)
        requires
            samplable_range(start, end),
        ensures
            range_low(start) <= r.to_int() < range_high(end),
            final(self).inc_of() == old(self).inc_of(),
            ({
                let l = range_low(start);
                let width = range_high(end) - l;
                let t = rejection_threshold::<T>(width);
                let s = old(self).state_of();
                let inc = old(self).inc_of();
                exists|k: nat|
                    k < 0x1_0000_0000_0000_0000 && final(self).state_of() == pcg_advance(
                        s,
                        inc,
                        (k + 1) * T::draw_steps(),
                    ) && (forall|j: nat| j < k ==> (#[trigger] nth_draw::<T>(s, inc, j)).to_int() < t)
                        && nth_draw::<T>(s, inc, k).to_int() >= t && r.to_int() == l + trunc_rem(
                        nth_draw::<T>(s, inc, k).to_int(),
                        width,
                    )
            }),
    {
        proof {
            use_type_invariant(&*self);
        }
        let l = match start {
            RangeBound::Included(s) => s,
            RangeBound::Excluded(s) => s.plus_one(),
            RangeBound::Unbounded => {
                vstd::pervasive::unreached()
            },
        };
        let h = match end {
            RangeBound::Included(e) => e.plus_one(),
            RangeBound::Excluded(e) => e,
            RangeBound::Unbounded => {
                vstd::pervasive::unreached()
            },
        };
        proof {
            T::lemma_range(l);
            T::lemma_range(h);
        }
        let bound = h.minus(l);
        let threshold = bound.wrapping_neg().rem_by(bound);
        let ghost s0 = self.state_of();
        let ghost inc = self.inc_of();
        let ghost width = bound.to_int();
        let ghost mut k: nat = 0;
        let ghost accepted = T::lemma_upper_half_draw(s0, inc);
        proof {
            lemma_threshold_bounds::<T>(width);
            assert(k * T::draw_steps() == 0);
            assert(nth_draw::<T>(s0, inc, accepted).to_int() >= threshold.to_int());
        }
        loop
            invariant
                l.to_int() == range_low(start),
                bound.to_int() == width,
                width == range_high(end) - range_low(start),
                0 < width <= T::max_int(),
                threshold.to_int() == rejection_threshold::<T>(width),
                0 <= threshold.to_int(),
                T::min_int() <= l.to_int() <= T::max_int() - width + 1,
                s0 == old(self).state_of(),
                inc == old(self).inc_of(),
                self.inc_of() == inc,
                self.state_of() == pcg_advance(s0, inc, k * T::draw_steps()),
                accepted < 0x1_0000_0000_0000_0000,
                nth_draw::<T>(s0, inc, accepted).to_int() >= threshold.to_int(),
                k <= accepted,
                forall|j: nat| j < k ==> (#[trigger] nth_draw::<T>(s0, inc, j)).to_int() < threshold.to_int(),
            decreases accepted - k,
        {
            let x = T::get_random(self);
            proof {
                lemma_advance_add(s0, inc, k * T::draw_steps(), T::draw_steps());
                assert(k * T::draw_steps() + T::draw_steps() == (k + 1) * T::draw_steps()) by (nonlinear_arith);
                assert(x == nth_draw::<T>(s0, inc, k));
            }
            if x.at_least(threshold) {
                let red = x.rem_by(bound);
                proof {
                    vstd::arithmetic::div_mod::lemma_mod_bound(x.to_int(), width);
                }
                return l.plus(red);
            }
            proof {
                assert(k != accepted);
                k = k + 1;
            }
        }
    }
}

} // verus!
