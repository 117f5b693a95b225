//! The random engine of `tiny3d::utility::random`: the 32-bit Mersenne Twister
//! `std::mt19937` and libstdc++'s `uniform_int_distribution` over it, which
//! uses Lemire's nearly-divisionless downscaling because the engine's range is
//! exactly `2^32 - 1`.
//!
//! The process-wide engine lives with the caller; here it is an
//! `Option<Mt19937>` slot that is seeded on first use.

use vstd::prelude::*;

verus! {

/// Degree of recurrence: the number of state words.
pub const MT_N: usize = 624;

/// Middle word offset of the recurrence.
pub const MT_M: usize = 397;

/// One step of the seeding recurrence: word `i` from word `i - 1`.
pub open spec fn init_next(prev: u32, i: u32) -> u32 {
    1812433253u32.wrapping_mul(prev ^ (prev >> 30u32)).wrapping_add(i)
}

/// The twist: the word `x[k + 624]` from `x[k]`, `x[k + 1]` and `x[k + 397]`.
pub open spec fn mt_twist(x0: u32, x1: u32, xm: u32) -> u32 {
    let y = (x0 & 0x80000000u32) | (x1 & 0x7fffffffu32);
    let next = xm ^ (y >> 1u32);
    if y & 1u32 != 0 {
        next ^ 0x9908b0dfu32
    } else {
        next
    }
}

/// Word `k` of the Mersenne Twister sequence for `seed`: the first 624 words
/// come from the seeding recurrence, every later one from the twist.
#[verifier::opaque]
pub open spec fn mt_word(seed: u32, k: nat) -> u32
    decreases k,
{
    if k == 0 {
        seed
    } else if k < 624 {
        init_next(mt_word(seed, (k - 1) as nat), k as u32)
    } else {
        mt_twist(
            mt_word(seed, (k - 624) as nat),
            mt_word(seed, (k - 623) as nat),
            mt_word(seed, (k - 227) as nat),
        )
    }
}

/// The tempering transform applied to a word before it is output.
pub open spec fn temper(y: u32) -> u32 {
    let y1 = y ^ (y >> 11u32);
    let y2 = y1 ^ ((y1 << 7u32) & 0x9d2c5680u32);
    let y3 = y2 ^ ((y2 << 15u32) & 0xefc60000u32);
    y3 ^ (y3 >> 18u32)
}

/// Output number `n` (counting from 0) of an engine seeded with `seed`.
pub open spec fn mt_output(seed: u32, n: nat) -> u32 {
    temper(mt_word(seed, n + 624))
}

/// `std::mt19937`.
#[derive(Clone, Copy)]
pub struct Mt19937 {
    state: [u32; 624],
    index: usize,
    seed: Ghost<u32>,
    rounds: Ghost<nat>,
}

impl Mt19937 {
    /// The state words are the current window of the sequence and `index`
    /// is the next word to output.
    pub closed spec fn wf(self) -> bool {
        &&& self.index <= 624
        &&& self.rounds@ == 0 ==> self.index == 624
        &&& forall|i: int|
            0 <= i < 624 ==> #[trigger] self.state[i] == mt_word(
                self.seed@,
                (624 * self.rounds@ + i) as nat,
            )
    }

    /// The seed the engine was created with.
    pub closed spec fn seed_value(self) -> u32 {
        self.seed@
    }

    /// How many outputs the engine has produced.
    pub closed spec fn drawn(self) -> nat {
        (624 * self.rounds@ + self.index - 624) as nat
    }

    /// Output number `k` from now.
    pub open spec fn upcoming(self, k: nat) -> u32 {
        mt_output(self.seed_value(), self.drawn() + k)
    }

    /// An engine seeded with `seed`, before its first output.
    pub fn new(seed: u32) -> (e: Self)
        ensures
            e.wf(),
            e.seed_value() == seed,
            e.drawn() == 0,
    {
        let mut state = [0u32; 624];
        state[0] = seed;
        proof {
            lemma_init_word(seed, 0);
        }
        let mut i: usize = 1;
        while i < 624
            invariant
                1 <= i <= 624,
                forall|j: int| 0 <= j < i ==> #[trigger] state[j] == mt_word(seed, j as nat),
            decreases 624 - i,
        {
            let prev = state[i - 1];
            state[i] = (1812433253u32.wrapping_mul(prev ^ (prev >> 30))).wrapping_add(i as u32);
            proof {
                lemma_init_word(seed, i as nat);
                assert(state[i as int] == mt_word(seed, i as nat));
            }
            i += 1;
        }
        Mt19937 { state, index: 624, seed: Ghost(seed), rounds: Ghost(0) }
    }

    /// Refills the state with the next 624 words.
    #[verifier::rlimit(50)]
    fn generate(&mut self)
        requires
            old(self).wf(),
        ensures
            final(self).wf(),
            final(self).seed@ == old(self).seed@,
            final(self).rounds@ == old(self).rounds@ + 1,
            final(self).index == 0,
    {
        let ghost g = self.rounds@;
        let ghost seed = self.seed@;
        let mut i: usize = 0;
        while i < 624
            invariant
                0 <= i <= 624,
                self.seed@ == seed,
                self.rounds@ == g,
                self.index <= 624,
                forall|j: int|
                    0 <= j < i ==> #[trigger] self.state[j] == mt_word(
                        seed,
                        (624 * (g + 1) + j) as nat,
                    ),
                forall|j: int|
                    i <= j < 624 ==> #[trigger] self.state[j] == mt_word(seed, (624 * g + j) as nat),
            decreases 624 - i,
        {
            let y = (self.state[i] & 0x80000000u32) | (self.state[(i + 1) % 624] & 0x7fffffffu32);
            let mut next = self.state[(i + MT_M) % 624] ^ (y >> 1);
            if y & 1 != 0 {
                next ^= 0x9908b0dfu32;
            }
            proof {
                let k = (624 * (g + 1) + i) as nat;
                lemma_twist_word(seed, k);
                assert(self.state[i as int] == mt_word(seed, (k - 624) as nat));
                if i < 623 {
                    assert(self.state[((i + 1) % 624) as int] == mt_word(seed, (k - 623) as nat));
                } else {
                    assert(self.state[((i + 1) % 624) as int] == mt_word(seed, (k - 623) as nat));
                }
                if i + 397 < 624 {
                    assert(self.state[((i + MT_M) % 624) as int] == mt_word(
                        seed,
                        (k - 227) as nat,
                    ));
                } else {
                    assert(self.state[((i + MT_M) % 624) as int] == mt_word(
                        seed,
                        (k - 227) as nat,
                    ));
                }
                assert(next == mt_word(seed, k));
            }
            self.state[i] = next;
            i += 1;
        }
        self.index = 0;
        self.rounds = Ghost(g + 1);
    }

    /// The next 32-bit output.
    pub fn next_u32(&mut self) -> (r: u32)
        requires
            old(self).wf(),
        ensures
            final(self).wf(),
            final(self).seed_value() == old(self).seed_value(),
            final(self).drawn() == old(self).drawn() + 1,
            r == old(self).upcoming(0),
    {
        if self.index >= 624 {
            self.generate();
        }
        let mut y = self.state[self.index];
        self.index += 1;
        y ^= y >> 11;
        y ^= (y << 7) & 0x9d2c5680u32;
        y ^= (y << 15) & 0xefc60000u32;
        y ^= y >> 18;
        y
    }
}

/// Unfolds the twist for one word.
proof fn lemma_twist_word(seed: u32, k: nat)
    requires
        k >= 624,
    ensures
        mt_word(seed, k) == mt_twist(
            mt_word(seed, (k - 624) as nat),
            mt_word(seed, (k - 623) as nat),
            mt_word(seed, (k - 227) as nat),
        ),
{
    reveal(mt_word);
}

/// Unfolds the seeding recurrence for one word.
proof fn lemma_init_word(seed: u32, k: nat)
    requires
        k < 624,
    ensures
        k == 0 ==> mt_word(seed, k) == seed,
        k > 0 ==> mt_word(seed, k) == init_next(mt_word(seed, (k - 1) as nat), k as u32),
{
    reveal(mt_word);
}

/// Seeds the engine in `slot` from `entropy` if it has none yet (the C++
/// engine is seeded by `std::random_device` on first use).
pub fn init_engine(slot: &mut Option<Mt19937>, entropy: u32)
    requires
        *old(slot) matches Some(e) ==> e.wf(),
    ensures
        *final(slot) is Some,
        final(slot).unwrap().wf(),
        *old(slot) is Some ==> *final(slot) == *old(slot),
        *old(slot) is None ==> final(slot).unwrap().seed_value() == entropy,
        *old(slot) is None ==> final(slot).unwrap().drawn() == 0,
{
    if slot.is_none() {
        *slot = Some(Mt19937::new(entropy));
    }
}

/// A copy of the engine state, seeding the engine first as a first draw
/// would. Used to rewind speculative draws.
pub fn snapshot_engine(slot: &mut Option<Mt19937>, entropy: u32) -> (s: Mt19937)
    requires
        *old(slot) matches Some(e) ==> e.wf(),
    ensures
        *final(slot) == Some(s),
        s.wf(),
        *old(slot) is Some ==> *final(slot) == *old(slot),
        *old(slot) is None ==> s.seed_value() == entropy && s.drawn() == 0,
{
    init_engine(slot, entropy);
    match slot {
        Some(e) => *e,
        None => Mt19937::new(entropy),
    }
}

/// Puts a snapshotted engine state back.
pub fn restore_engine(slot: &mut Option<Mt19937>, s: Mt19937)
    ensures
        *final(slot) == Some(s),
{
    *slot = Some(s);
}

/// `tiny3d.utility.random.seed(seed)`: a fresh engine seeded with the value
/// reinterpreted as unsigned.
pub fn seed(slot: &mut Option<Mt19937>, seed_value: i32)
    ensures
        *final(slot) is Some,
        final(slot).unwrap().wf(),
        final(slot).unwrap().seed_value() == seed_value as u32,
        final(slot).unwrap().drawn() == 0,
{
    *slot = Some(Mt19937::new(seed_value as u32));
}

/// `x * range mod 2^32`: the low half of the 64-bit product.
pub open spec fn low_product(x: u32, range: u32) -> nat {
    ((x as nat) * (range as nat)) % 0x1_0000_0000
}

/// The rejection threshold `(2^32 - range) mod range`.
pub open spec fn lemire_threshold(range: u32) -> nat {
    if range == 0 {
        0
    } else {
        ((0x1_0000_0000 - range) as nat) % (range as nat)
    }
}

/// A draw `x` is kept when the low half of `x * range` is at least the threshold.
pub open spec fn lemire_accepts(range: u32, x: u32) -> bool {
    low_product(x, range) >= lemire_threshold(range)
}

/// The value a kept draw maps to: the high half of `x * range`.
pub open spec fn lemire_value(range: u32, x: u32) -> nat {
    ((x as nat) * (range as nat)) / 0x1_0000_0000
}

/// Output number `n` of the engine seeded with `seed` is kept for `range`.
pub open spec fn accepted_at(seed: u32, n: nat, range: u32) -> bool {
    lemire_accepts(range, mt_output(seed, n))
}

/// The position of the first kept output at or after `start`.
pub open spec fn next_accepted(seed: u32, start: nat, range: u32) -> nat {
    choose|k: nat|
        start <= k && accepted_at(seed, k, range) && forall|j: nat|
            start <= j < k ==> !#[trigger] accepted_at(seed, j, range)
}

/// A kept output comes at or after position `p`.
pub open spec fn kept_after(seed: u32, p: nat, range: u32) -> bool {
    exists|k: nat| p <= k && #[trigger] accepted_at(seed, k, range)
}

/// Kept outputs keep coming: after every position there is one.
pub open spec fn keeps_coming(seed: u32, range: u32) -> bool {
    forall|p: nat| #[trigger] kept_after(seed, p, range)
}

/// The engine position after `i` draws for `range` from position `start`.
pub open spec fn draws_end(seed: u32, start: nat, range: u32, i: nat) -> nat
    decreases i,
{
    if i == 0 {
        start
    } else {
        next_accepted(seed, draws_end(seed, start, range, (i - 1) as nat), range) + 1
    }
}

/// The value (above the low end) of draw number `i` for `range` from position `start`.
pub open spec fn draw_value(seed: u32, start: nat, range: u32, i: nat) -> nat {
    lemire_value(range, mt_output(seed, next_accepted(seed, draws_end(seed, start, range, i), range)))
}

/// The first kept output at or after `start` is the one the search finds.
proof fn lemma_next_accepted_is(seed: u32, start: nat, range: u32, k: nat)
    requires
        start <= k,
        accepted_at(seed, k, range),
        forall|j: nat| start <= j < k ==> !#[trigger] accepted_at(seed, j, range),
    ensures
        next_accepted(seed, start, range) == k,
{
    let m = next_accepted(seed, start, range);
    assert(start <= m && accepted_at(seed, m, range) && forall|j: nat|
        start <= j < m ==> !#[trigger] accepted_at(seed, j, range));
    if m < k {
        assert(!accepted_at(seed, m, range));
    }
    if k < m {
        assert(!accepted_at(seed, k, range));
    }
}

/// Some kept output at or after `start` gives a first one.
proof fn lemma_next_accepted_exists(seed: u32, start: nat, range: u32, k: nat)
    requires
        start <= k,
        accepted_at(seed, k, range),
    ensures
        start <= next_accepted(seed, start, range) <= k,
        accepted_at(seed, next_accepted(seed, start, range), range),
        forall|j: nat| start <= j < next_accepted(seed, start, range) ==> !#[trigger] accepted_at(seed, j, range),
    decreases k - start,
{
    if exists|j: nat| start <= j < k && #[trigger] accepted_at(seed, j, range) {
        let j = choose|j: nat| start <= j < k && #[trigger] accepted_at(seed, j, range);
        lemma_next_accepted_exists(seed, start, range, j);
    } else {
        lemma_next_accepted_is(seed, start, range, k);
    }
}

/// libstdc++ `uniform_int_distribution<int>(low, high)` over `std::mt19937`.
pub struct UniformIntGenerator {
    low: i64,
    range_plus_one: u32,
}

impl UniformIntGenerator {
    /// The range fits above `low` in an `i64`.
    pub closed spec fn wf(self) -> bool {
        &&& self.low >= 0
        &&& self.low + self.range_plus_one <= i64::MAX + 1
    }

    /// Lower end of the range.
    pub closed spec fn low_spec(self) -> i64 {
        self.low
    }

    /// `high - low + 1` reduced to 32 bits.
    pub closed spec fn range_spec(self) -> u32 {
        self.range_plus_one
    }

    /// A generator for `low..=high`.
    pub fn new(low: i64, high: i64) -> (g: Self)
        requires
            low >= 0,
            low <= high,
            high - low + 1 <= i64::MAX,
        ensures
            g.wf(),
            g.low_spec() == low,
            g.range_spec() == ((high - low + 1) % 0x1_0000_0000) as u32,
    {
        let r = high - low + 1;
        let range_plus_one = r as u32;
        proof {
            assert(r as u32 == (r % 0x1_0000_0000) as u32) by (bit_vector)
                requires
                    r >= 0,
            ;
        }
        UniformIntGenerator { low, range_plus_one }
    }

    /// Draws from `engine` until a draw is kept, and maps it into the range.
    /// libstdc++ loops for ever on an engine that never yields a kept draw,
    /// so the engine must have one ahead.
    pub fn next(&self, engine: &mut Mt19937) -> (r: i64)
        requires
            self.wf(),
            old(engine).wf(),
            exists|k: nat| lemire_accepts(self.range_spec(), #[trigger] old(engine).upcoming(k)),
        ensures
            final(engine).wf(),
            final(engine).seed_value() == old(engine).seed_value(),
            final(engine).drawn() == next_accepted(
                old(engine).seed_value(),
                old(engine).drawn(),
                self.range_spec(),
            ) + 1,
            r == self.low_spec() + lemire_value(
                self.range_spec(),
                mt_output(
                    old(engine).seed_value(),
                    next_accepted(old(engine).seed_value(), old(engine).drawn(), self.range_spec()),
                ),
            ),
            self.range_spec() > 0 ==> self.low_spec() <= r < self.low_spec() + self.range_spec(),
            exists|k: nat|
                {
                    &&& final(engine).drawn() == old(engine).drawn() + k + 1
                    &&& lemire_accepts(self.range_spec(), #[trigger] old(engine).upcoming(k))
                    &&& forall|j: nat|
                        j < k ==> !lemire_accepts(self.range_spec(), #[trigger] old(engine).upcoming(j))
                    &&& r == self.low_spec() + lemire_value(
                        self.range_spec(),
                        old(engine).upcoming(k),
                    )
                },
    {
        let range = self.range_plus_one;
        let ghost e0 = *engine;
        let ghost witness: nat = choose|k: nat| lemire_accepts(range, #[trigger] e0.upcoming(k));
        let x0 = engine.next_u32();
        proof {
            lemma_product_halves(x0, range);
        }
        let mut product = (x0 as u64) * (range as u64);
        let mut low32 = product as u32;
        let ghost mut taken: nat = 0;
        proof {
            lemma_product_halves(x0, range);
        }
        if low32 < range {
            let threshold = (0u32.wrapping_sub(range)) % range;
            proof {
                lemma_threshold(range);
            }
            while low32 < threshold
                invariant
                    engine.wf(),
                    engine.seed_value() == e0.seed_value(),
                    engine.drawn() == e0.drawn() + taken + 1,
                    range == self.range_spec(),
                    range > 0,
                    threshold == lemire_threshold(range),
                    taken <= witness,
                    lemire_accepts(range, e0.upcoming(witness)),
                    product == e0.upcoming(taken) as nat * range as nat,
                    low32 as nat == low_product(e0.upcoming(taken), range),
                    forall|j: nat| j < taken ==> !lemire_accepts(range, #[trigger] e0.upcoming(j)),
                decreases witness - taken,
            {
                proof {
                    assert(!lemire_accepts(range, e0.upcoming(taken)));
                }
                let x = engine.next_u32();
                proof {
                    lemma_product_halves(x, range);
                }
                product = (x as u64) * (range as u64);
                low32 = product as u32;
                proof {
                    lemma_product_halves(x, range);
                    taken = taken + 1;
                    assert(e0.upcoming(taken) == x);
                }
            }
        } else {
            proof {
                lemma_threshold(range);
            }
        }
        let val = (product >> 32) as u32;
        proof {
            lemma_high_half(product);
            lemma_value_below_range(e0.upcoming(taken), range);
            assert(lemire_accepts(range, e0.upcoming(taken)));
            assert forall|j: nat| e0.drawn() <= j < e0.drawn() + taken implies !#[trigger] accepted_at(
                e0.seed_value(),
                j,
                range,
            ) by {
                let jj = (j - e0.drawn()) as nat;
                assert(e0.upcoming(jj) == mt_output(e0.seed_value(), j));
                assert(!lemire_accepts(range, e0.upcoming(jj)));
            }
            lemma_next_accepted_is(e0.seed_value(), e0.drawn(), range, e0.drawn() + taken);
        }
        self.low + val as i64
    }
}

/// The product of two 32-bit values fits in 64 bits, and its low half is the
/// product modulo `2^32`.
proof fn lemma_product_halves(x: u32, range: u32)
    ensures
        (x as nat) * (range as nat) <= u64::MAX,
        ((x as u64) * (range as u64)) as u32 as nat == low_product(x, range),
{
    assert((x as nat) * (range as nat) <= 0xffff_ffff * 0xffff_ffff) by (nonlinear_arith)
        requires
            x <= 0xffff_ffff,
            range <= 0xffff_ffff,
    ;
    let p: u64 = ((x as nat) * (range as nat)) as u64;
    assert(p as u32 == p % 0x1_0000_0000) by (bit_vector);
}

/// A kept draw maps below the range.
proof fn lemma_value_below_range(x: u32, range: u32)
    ensures
        range > 0 ==> lemire_value(range, x) < range,
        range == 0 ==> lemire_value(range, x) == 0,
{
    assert((x as nat) * (range as nat) < 0x1_0000_0000 * (range as nat) || range == 0)
        by (nonlinear_arith)
        requires
            x < 0x1_0000_0000,
    ;
}

/// The high half of a 64-bit product.
proof fn lemma_high_half(p: u64)
    ensures
        (p >> 32u64) as u32 as nat == p as nat / 0x1_0000_0000,
{
    assert((p >> 32u64) == p / 0x1_0000_0000) by (bit_vector);
    assert(p / 0x1_0000_0000 <= 0xffff_ffff) by (bit_vector);
}

/// The threshold is below the range, and is what the code computes.
proof fn lemma_threshold(range: u32)
    ensures
        lemire_threshold(range) <= range,
        range > 0 ==> lemire_threshold(range) < range,
        range > 0 ==> (0u32.wrapping_sub(range) % range) as nat == lemire_threshold(range),
{
}

// ------------------------------------------------------------------ laws

/// Two engines with one seed that have drawn equally often draw the same
/// outputs from then on: restoring a snapshot replays what followed it.
pub proof fn lemma_same_position_same_draws(a: Mt19937, b: Mt19937)
    requires
        a.seed_value() == b.seed_value(),
        a.drawn() == b.drawn(),
    ensures
        forall|k: nat| #[trigger] a.upcoming(k) == b.upcoming(k),
{
}

/// One draw moves the stream on by one output.
pub proof fn lemma_draw_shifts_stream(before: Mt19937, after: Mt19937)
    requires
        after.seed_value() == before.seed_value(),
        after.drawn() == before.drawn() + 1,
    ensures
        forall|k: nat| #[trigger] after.upcoming(k) == before.upcoming(k + 1),
{
    assert forall|k: nat| #[trigger] after.upcoming(k) == before.upcoming(k + 1) by {
        assert(after.drawn() + k == before.drawn() + (k + 1));
    }
}

/// A generator for `low..=high` (a range narrower than `2^32`) maps every
/// kept draw into `low..=high`.
pub proof fn lemma_uniform_within_bounds(low: i64, high: i64, x: u32)
    requires
        0 <= low <= high,
        high - low + 1 < 0x1_0000_0000,
    ensures
        low <= low + lemire_value(((high - low + 1) % 0x1_0000_0000) as u32, x) <= high,
{
    let r = ((high - low + 1) % 0x1_0000_0000) as u32;
    assert(r == high - low + 1);
    lemma_value_below_range(x, r);
}

} // verus!
