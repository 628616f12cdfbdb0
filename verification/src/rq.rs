//! Bit-plane residual quantizer: code layout, rotation schedule and the
//! integer part of the block scan.
use crate::bitops::{test_bit, with_bit};
use vstd::prelude::*;

verus! {

pub const DEFAULT_RQ_BITS: usize = 4;

pub const DEFAULT_RQ_ROTATION_SEED: u64 = 0x9E37_79B9_7F4A_7C15;

pub const DEFAULT_RQ_ROTATION_ROUNDS: u32 = 4;

pub const RQ_ROTATION_BLOCK_SIZE: usize = 64;

pub const RQ_SCAN_BLOCK_SIZE: usize = 32;

/// Smallest multiple of the rotation block that is at least `d` and not zero.
pub open spec fn spec_padded_dimension(d: int) -> int {
    let n = if d < 1 {
        1
    } else {
        d
    };
    (n + 63) / 64 * 64
}

/// Rounds a dimension up to a whole number of rotation blocks; dimension zero
/// still occupies one block.
pub fn padded_dimension(d: usize) -> (padded: usize)
    requires
        spec_padded_dimension(d as int) <= usize::MAX,
    ensures
        padded == spec_padded_dimension(d as int),
        padded % 64 == 0,
        padded >= 64,
        padded >= d,
        padded - d < 64 || d == 0,
{
    let n: usize = if d < 1 {
        1
    } else {
        d
    };
    let whole: usize = n / RQ_ROTATION_BLOCK_SIZE;
    let blocks: usize = if n % RQ_ROTATION_BLOCK_SIZE == 0 {
        whole
    } else {
        whole + 1
    };
    blocks * RQ_ROTATION_BLOCK_SIZE
}

/// The number of stored bits per dimension is between one and eight.
pub fn is_supported_rq_bits(bits: usize) -> (supported: bool)
    ensures
        supported == (1 <= bits <= 8),
{
    1 <= bits && bits <= 8
}

/// The state that follows `state` in the generator's sequence.
pub open spec fn splitmix_advance(state: u64) -> u64 {
    state.wrapping_add(0x9E37_79B9_7F4A_7C15u64)
}

/// The output that belongs to a generator state.
pub open spec fn splitmix_mix(state: u64) -> u64 {
    let a = (state ^ (state >> 30)).wrapping_mul(0xBF58_476D_1CE4_E5B9u64);
    let b = (a ^ (a >> 27)).wrapping_mul(0x94D0_49BB_1331_11EBu64);
    b ^ (b >> 31)
}

/// The state after `steps` draws.
pub open spec fn splitmix_after(state: u64, steps: nat) -> u64
    decreases steps,
{
    if steps == 0 {
        state
    } else {
        splitmix_advance(splitmix_after(state, (steps - 1) as nat))
    }
}

/// The value of draw number `index`, counted from zero.
pub open spec fn splitmix_draw(state: u64, index: nat) -> u64 {
    splitmix_mix(splitmix_after(state, index + 1))
}

/// A small deterministic generator of 64-bit values.
#[derive(Debug, Clone)]
pub struct SplitMix64 {
    state: u64,
}

impl View for SplitMix64 {
    type V = u64;

    closed spec fn view(&self) -> u64 {
        self.state
    }
}

impl SplitMix64 {
    pub fn new(seed: u64) -> (rng: Self)
        ensures
            rng@ == seed,
    {
        Self { state: seed }
    }

    pub fn next_u64(&mut self) -> (value: u64)
        ensures
            final(self)@ == splitmix_advance(old(self)@),
            value == splitmix_mix(final(self)@),
    {
        self.state = self.state.wrapping_add(0x9E37_79B9_7F4A_7C15);
        let mut z: u64 = self.state;
        z = (z ^ (z >> 30)).wrapping_mul(0xBF58_476D_1CE4_E5B9);
        z = (z ^ (z >> 27)).wrapping_mul(0x94D0_49BB_1331_11EB);
        z ^ (z >> 31)
    }

    /// A draw reduced below `upper` by remainder.
    pub fn next_usize(&mut self, upper: usize) -> (value: usize)
        requires
            upper > 0,
        ensures
            final(self)@ == splitmix_advance(old(self)@),
            value == splitmix_mix(final(self)@) as int % upper as int,
            value < upper,
    {
        let drawn: u64 = self.next_u64();
        (drawn % upper as u64) as usize
    }
}

/// The numbers `0..n` in order.
pub open spec fn identity_order(n: nat) -> Seq<usize> {
    Seq::new(n, |i: int| i as usize)
}

/// `order` with the elements at `i` and `j` exchanged.
pub open spec fn exchanged(order: Seq<usize>, i: int, j: int) -> Seq<usize> {
    order.update(i, order[j]).update(j, order[i])
}

/// A Fisher-Yates shuffle of the positions `0..=top`, drawing from `state`.
pub open spec fn shuffled(order: Seq<usize>, state: u64, top: nat) -> Seq<usize>
    decreases top,
{
    if top == 0 {
        order
    } else {
        let next = splitmix_advance(state);
        let j = splitmix_mix(next) as int % (top + 1) as int;
        shuffled(exchanged(order, top as int, j), next, (top - 1) as nat)
    }
}

/// `order` lists each of `0..order.len()` exactly once.
pub open spec fn is_permutation(order: Seq<usize>) -> bool {
    &&& forall|i: int| 0 <= i < order.len() ==> #[trigger] order[i] < order.len()
    &&& forall|i: int, j: int|
        0 <= i < order.len() && 0 <= j < order.len() && i != j ==> #[trigger] order[i]
            != #[trigger] order[j]
}

/// A permutation leaves no place out.
pub proof fn lemma_permutation_reaches(order: Seq<usize>, k: int)
    requires
        is_permutation(order),
        0 <= k < order.len(),
    ensures
        exists|i: int| 0 <= i < order.len() && #[trigger] order[i] == k,
{
    let places = order.map_values(|place: usize| place as int);
    assert(places.no_duplicates()) by {
        assert forall|i: int, j: int|
            0 <= i < places.len() && 0 <= j < places.len() && i != j implies places[i]
            != places[j] by {
            assert(order[i] != order[j]);
        }
    }
    places.unique_seq_to_set();
    let all = vstd::set_lib::set_int_range(0, order.len() as int);
    vstd::set_lib::lemma_int_range(0, order.len() as int);
    assert(places.to_set().subset_of(all)) by {
        assert forall|x: int| places.to_set().contains(x) implies all.contains(x) by {
            let i = choose|i: int| 0 <= i < places.len() && places[i] == x;
            assert(order[i] < order.len());
        }
    }
    vstd::set_lib::lemma_subset_equality(places.to_set(), all);
    assert(places.to_set().contains(k));
    let i = choose|i: int| 0 <= i < places.len() && places[i] == k;
    assert(order[i] == k);
}

/// Shuffling a permutation yields a permutation of the same length.
pub proof fn lemma_shuffle_permutes(order: Seq<usize>, state: u64, top: nat)
    requires
        is_permutation(order),
        top < order.len() || order.len() == 0 && top == 0,
    ensures
        is_permutation(shuffled(order, state, top)),
        shuffled(order, state, top).len() == order.len(),
    decreases top,
{
    if top > 0 {
        let next = splitmix_advance(state);
        let j = splitmix_mix(next) as int % (top + 1) as int;
        let swapped = exchanged(order, top as int, j);
        assert(is_permutation(swapped));
        lemma_shuffle_permutes(swapped, next, (top - 1) as nat);
    }
}

/// Where the generator of a rotation starts.
pub open spec fn rotation_start(d: usize, seed: u64) -> u64 {
    let wide = d as u64;
    seed ^ ((wide << 17) | (wide >> 47))
}

/// Draws made for one round: one per eight padded dimensions for the signs,
/// and one per exchange of the shuffle.
pub open spec fn draws_per_round(padded: nat) -> nat {
    (padded / 8 + (padded - 1)) as nat
}

/// The sign masks of the round that starts at generator state `state`.
pub open spec fn round_signs(padded: nat, state: u64) -> Seq<u8> {
    Seq::new(padded / 8, |k: int| splitmix_draw(state, k as nat) as u8)
}

/// The permutation of the round that starts at generator state `state`.
pub open spec fn round_permutation(padded: nat, state: u64) -> Seq<usize> {
    shuffled(identity_order(padded), splitmix_after(state, padded / 8), (padded - 1) as nat)
}

proof fn lemma_round_permutes(padded: nat, state: u64)
    requires
        64 <= padded <= usize::MAX,
        padded % 64 == 0,
    ensures
        is_permutation(round_permutation(padded, state)),
        round_permutation(padded, state).len() == padded,
        round_signs(padded, state).len() * 8 == padded,
{
    let order = identity_order(padded);
    let drawn = splitmix_after(state, padded / 8);
    assert(is_permutation(order));
    lemma_shuffle_permutes(order, drawn, (padded - 1) as nat);
    lemma_whole_bytes(padded as int);
}

/// Drawing `a` and then `b` times is drawing `a + b` times.
pub proof fn lemma_after_splits(state: u64, a: nat, b: nat)
    ensures
        splitmix_after(splitmix_after(state, a), b) == splitmix_after(state, a + b),
    decreases b,
{
    if b > 0 {
        lemma_after_splits(state, a, (b - 1) as nat);
    }
}

/// The generator state that follows a shuffle.
pub proof fn lemma_after_front(state: u64, steps: nat)
    requires
        steps > 0,
    ensures
        splitmix_after(state, steps) == splitmix_after(
            splitmix_advance(state),
            (steps - 1) as nat,
        ),
{
    lemma_after_splits(state, 1, (steps - 1) as nat);
    assert(splitmix_after(state, 1) == splitmix_advance(splitmix_after(state, 0)));
}

/// A bit pattern with its sign flipped, which negates the number it stands for.
pub open spec fn negated(value: u32) -> u32 {
    value ^ 0x8000_0000u32
}

/// A seeded orthogonal transform of padded vectors: each round flips signs,
/// transforms blocks of 64 components and permutes the components.
#[derive(Debug, Clone)]
pub struct RQRotation {
    d: usize,
    padded_d: usize,
    seed: u64,
    rounds: u32,
    sign_masks: Vec<Vec<u8>>,
    permutations: Vec<Vec<usize>>,
}

impl RQRotation {
    pub closed spec fn spec_dimension(self) -> usize {
        self.d
    }

    pub closed spec fn spec_padded(self) -> usize {
        self.padded_d
    }

    pub closed spec fn spec_seed(self) -> u64 {
        self.seed
    }

    pub closed spec fn spec_rounds(self) -> u32 {
        self.rounds
    }

    /// The sign masks of round `round`.
    pub closed spec fn signs(self, round: int) -> Seq<u8> {
        self.sign_masks@[round]@
    }

    /// Where round `round` moves each component.
    pub closed spec fn permutation(self, round: int) -> Seq<usize> {
        self.permutations@[round]@
    }

    /// The schedule is the one that the seed and the dimension determine.
    pub closed spec fn well_formed(self) -> bool {
        &&& self.padded_d == spec_padded_dimension(self.d as int)
        &&& self.sign_masks@.len() == self.rounds
        &&& self.permutations@.len() == self.rounds
        &&& forall|r: int|
            0 <= r < self.rounds ==> #[trigger] self.signs(r) == round_signs(
                self.padded_d as nat,
                round_state(self.d, self.seed, r as nat),
            )
        &&& forall|r: int|
            0 <= r < self.rounds ==> #[trigger] self.permutation(r) == round_permutation(
                self.padded_d as nat,
                round_state(self.d, self.seed, r as nat),
            )
    }

    /// The schedule depends on the arguments alone.
    pub fn new(d: usize, seed: u64, rounds: u32) -> (rotation: Self)
        requires
            spec_padded_dimension(d as int) <= usize::MAX,
        ensures
            rotation.well_formed(),
            rotation.spec_dimension() == d,
            rotation.spec_padded() == spec_padded_dimension(d as int),
            rotation.spec_seed() == seed,
            rotation.spec_rounds() == rounds,
            forall|r: int|
                0 <= r < rounds ==> #[trigger] rotation.signs(r) == round_signs(
                    spec_padded_dimension(d as int) as nat,
                    round_state(d, seed, r as nat),
                ),
            forall|r: int|
                0 <= r < rounds ==> #[trigger] rotation.permutation(r) == round_permutation(
                    spec_padded_dimension(d as int) as nat,
                    round_state(d, seed, r as nat),
                ),
    {
        let padded_d: usize = padded_dimension(d);
        let wide: u64 = d as u64;
        let mut rng = SplitMix64::new(seed ^ ((wide << 17) | (wide >> 47)));
        let mut sign_masks: Vec<Vec<u8>> = Vec::new();
        let mut permutations: Vec<Vec<usize>> = Vec::new();
        let ghost per_round = draws_per_round(padded_d as nat);
        let mut round: u32 = 0;
        while round < rounds
            invariant
                round <= rounds,
                padded_d == spec_padded_dimension(d as int),
                padded_d >= 64,
                padded_d % 64 == 0,
                per_round == draws_per_round(padded_d as nat),
                sign_masks@.len() == round,
                permutations@.len() == round,
                rng@ == round_state(d, seed, round as nat),
                forall|r: int|
                    0 <= r < round ==> #[trigger] sign_masks@[r]@ == round_signs(
                        padded_d as nat,
                        round_state(d, seed, r as nat),
                    ),
                forall|r: int|
                    0 <= r < round ==> #[trigger] permutations@[r]@ == round_permutation(
                        padded_d as nat,
                        round_state(d, seed, r as nat),
                    ),
            decreases rounds - round,
        {
            let ghost start = rng@;
            let signs = draw_signs(&mut rng, padded_d / 8);
            let permutation = draw_permutation(&mut rng, padded_d);
            proof {
                lemma_after_splits(start, padded_d as nat / 8, (padded_d - 1) as nat);
                assert(per_round * (round + 1) as nat == per_round * (round as nat) + per_round)
                    by (nonlinear_arith);
                lemma_after_splits(
                    rotation_start(d, seed),
                    per_round * (round as nat),
                    per_round,
                );
            }
            sign_masks.push(signs);
            permutations.push(permutation);
            round = round + 1;
        }
        Self { d, padded_d, seed, rounds, sign_masks, permutations }
    }

    pub fn dimension(&self) -> (d: usize)
        ensures
            d == self.spec_dimension(),
    {
        self.d
    }

    pub fn padded_dimension(&self) -> (padded: usize)
        ensures
            padded == self.spec_padded(),
    {
        self.padded_d
    }

    pub fn seed(&self) -> (seed: u64)
        ensures
            seed == self.spec_seed(),
    {
        self.seed
    }

    pub fn rounds(&self) -> (rounds: u32)
        ensures
            rounds == self.spec_rounds(),
    {
        self.rounds
    }
}

/// The generator state at the start of round `round`.
pub open spec fn round_state(d: usize, seed: u64, round: nat) -> u64 {
    splitmix_after(
        rotation_start(d, seed),
        draws_per_round(spec_padded_dimension(d as int) as nat) * round,
    )
}

/// Draws `count` bytes of sign bits.
fn draw_signs(rng: &mut SplitMix64, count: usize) -> (signs: Vec<u8>)
    ensures
        signs@ == Seq::new(count as nat, |k: int| splitmix_draw(old(rng)@, k as nat) as u8),
        final(rng)@ == splitmix_after(old(rng)@, count as nat),
{
    let mut signs: Vec<u8> = Vec::new();
    let mut i: usize = 0;
    while i < count
        invariant
            i <= count,
            rng@ == splitmix_after(old(rng)@, i as nat),
            signs@ == Seq::new(i as nat, |k: int| splitmix_draw(old(rng)@, k as nat) as u8),
        decreases count - i,
    {
        let drawn: u64 = rng.next_u64();
        signs.push(drawn as u8);
        i = i + 1;
    }
    signs
}

/// Draws a permutation of `0..n`.
fn draw_permutation(rng: &mut SplitMix64, n: usize) -> (order: Vec<usize>)
    requires
        n > 0,
    ensures
        order@ == shuffled(identity_order(n as nat), old(rng)@, (n - 1) as nat),
        final(rng)@ == splitmix_after(old(rng)@, (n - 1) as nat),
{
    let mut order: Vec<usize> = Vec::new();
    let mut k: usize = 0;
    while k < n
        invariant
            k <= n,
            order@ == identity_order(k as nat),
        decreases n - k,
    {
        order.push(k);
        k = k + 1;
    }
    let mut i: usize = n - 1;
    while i > 0
        invariant
            i < n,
            order@.len() == n,
            shuffled(order@, rng@, i as nat) == shuffled(
                identity_order(n as nat),
                old(rng)@,
                (n - 1) as nat,
            ),
            splitmix_after(rng@, i as nat) == splitmix_after(old(rng)@, (n - 1) as nat),
        decreases i,
    {
        let ghost before = order@;
        let ghost state = rng@;
        let j: usize = rng.next_usize(i + 1);
        let a: usize = order[i];
        let b: usize = order[j];
        order.set(i, b);
        order.set(j, a);
        proof {
            lemma_after_front(state, i as nat);
            assert(order@ =~= exchanged(before, i as int, j as int));
        }
        i = i - 1;
    }
    order
}

impl RQRotation {
    /// The first half of a round: negates the components whose sign bit is set.
    pub fn flip_signs(&self, round: usize, values: &mut Vec<u32>)
        requires
            self.well_formed(),
            round < self.spec_rounds(),
            old(values)@.len() == self.spec_padded(),
        ensures
            final(values)@ == sign_flipped(self.signs(round as int), old(values)@),
    {
        let signs = &self.sign_masks[round];
        assert(signs@ == self.signs(round as int));
        let mut dim: usize = 0;
        while dim < values.len()
            invariant
                dim <= values@.len(),
                values@.len() == old(values)@.len(),
                values@.len() <= 8 * signs@.len(),
                forall|i: int|
                    0 <= i < dim ==> #[trigger] values@[i] == sign_flipped(
                        signs@,
                        old(values)@,
                    )[i],
                forall|i: int| dim <= i < values@.len() ==> #[trigger] values@[i] == old(values)@[i],
            decreases values@.len() - dim,
        {
            if test_bit(signs[dim / 8], dim % 8) {
                let value: u32 = values[dim];
                values.set(dim, value ^ 0x8000_0000u32);
            }
            dim = dim + 1;
        }
        assert(values@ =~= sign_flipped(signs@, old(values)@));
    }

    /// The last half of a round: moves component `i` to its permuted place.
    pub fn permute(&self, round: usize, values: &mut Vec<u32>, scratch: &mut Vec<u32>)
        requires
            self.well_formed(),
            round < self.spec_rounds(),
            old(values)@.len() == self.spec_padded(),
            old(scratch)@.len() == self.spec_padded(),
        ensures
            final(values)@.len() == old(values)@.len(),
            final(scratch)@ == final(values)@,
            forall|i: int|
                0 <= i < old(values)@.len() ==> final(values)@[self.permutation(round as int)[i] as int]
                    == #[trigger] old(values)@[i],
    {
        let order = &self.permutations[round];
        assert(order@ == self.permutation(round as int));
        proof {
            self.lemma_round_is_permutation(round as int);
        }
        let mut source: usize = 0;
        while source < values.len()
            invariant
                source <= values@.len(),
                values@ == old(values)@,
                scratch@.len() == values@.len(),
                order@.len() == values@.len(),
                is_permutation(order@),
                forall|i: int|
                    0 <= i < source ==> scratch@[order@[i] as int] == #[trigger] values@[i],
            decreases values@.len() - source,
        {
            let destination: usize = order[source];
            scratch.set(destination, values[source]);
            source = source + 1;
        }
        let ghost spread = scratch@;
        let mut i: usize = 0;
        while i < values.len()
            invariant
                i <= values@.len(),
                values@.len() == old(values)@.len(),
                scratch@ == spread,
                scratch@.len() == values@.len(),
                forall|k: int| 0 <= k < i ==> values@[k] == scratch@[k],
            decreases values@.len() - i,
        {
            values.set(i, scratch[i]);
            i = i + 1;
        }
        assert(values@ =~= scratch@);
    }

    /// Every round permutes the components: none is lost and none repeats.
    pub proof fn lemma_round_is_permutation(&self, round: int)
        requires
            self.well_formed(),
            0 <= round < self.spec_rounds(),
        ensures
            is_permutation(self.permutation(round)),
            self.permutation(round).len() == self.spec_padded(),
            self.signs(round).len() * 8 == self.spec_padded(),
    {
        let padded = self.padded_d as nat;
        let state = round_state(self.d, self.seed, round as nat);
        assert(self.permutation(round) == round_permutation(padded, state));
        assert(self.signs(round) == round_signs(padded, state));
        lemma_round_permutes(padded, state);
    }

    /// The padded dimension is a whole number of blocks and not below the
    /// dimension.
    pub proof fn lemma_padded_is_whole(&self)
        requires
            self.well_formed(),
        ensures
            self.spec_padded() == spec_padded_dimension(self.spec_dimension() as int),
            self.spec_padded() % 64 == 0,
            self.spec_padded() >= self.spec_dimension(),
    {
    }

    /// Two rotations built from the same arguments run the same rounds.
    pub proof fn law_rotation_is_deterministic(a: RQRotation, b: RQRotation, round: int)
        requires
            a.well_formed(),
            b.well_formed(),
            a.spec_dimension() == b.spec_dimension(),
            a.spec_seed() == b.spec_seed(),
            a.spec_rounds() == b.spec_rounds(),
            0 <= round < a.spec_rounds(),
        ensures
            a.spec_padded() == b.spec_padded(),
            a.signs(round) == b.signs(round),
            a.permutation(round) == b.permutation(round),
    {
    }

    /// Fewer rounds are the first rounds of more: of two rotations with one
    /// dimension and one seed, the shorter schedule is a prefix of the longer.
    pub proof fn law_fewer_rounds_are_a_prefix(a: RQRotation, b: RQRotation)
        requires
            a.well_formed(),
            b.well_formed(),
            a.spec_dimension() == b.spec_dimension(),
            a.spec_seed() == b.spec_seed(),
            a.spec_rounds() <= b.spec_rounds(),
        ensures
            a.spec_padded() == b.spec_padded(),
            forall|round: int|
                0 <= round < a.spec_rounds() ==> #[trigger] a.signs(round) == b.signs(round),
            forall|round: int|
                0 <= round < a.spec_rounds() ==> #[trigger] a.permutation(round) == b.permutation(
                    round,
                ),
    {
        assert forall|round: int| 0 <= round < a.spec_rounds() implies #[trigger] a.signs(round)
            == b.signs(round) by {
            assert(b.signs(round) == round_signs(
                b.padded_d as nat,
                round_state(b.d, b.seed, round as nat),
            ));
        }
        assert forall|round: int| 0 <= round < a.spec_rounds() implies #[trigger] a.permutation(
            round,
        ) == b.permutation(round) by {
            assert(b.permutation(round) == round_permutation(
                b.padded_d as nat,
                round_state(b.d, b.seed, round as nat),
            ));
        }
    }

    /// The schedule is what the dimension and the seed determine, round by
    /// round.
    pub proof fn law_schedule_follows_from_the_seed(self, round: int)
        requires
            self.well_formed(),
            0 <= round < self.spec_rounds(),
        ensures
            self.signs(round) == round_signs(
                spec_padded_dimension(self.spec_dimension() as int) as nat,
                round_state(self.spec_dimension(), self.spec_seed(), round as nat),
            ),
            self.permutation(round) == round_permutation(
                spec_padded_dimension(self.spec_dimension() as int) as nat,
                round_state(self.spec_dimension(), self.spec_seed(), round as nat),
            ),
    {
        assert(self.signs(round) == round_signs(
            self.padded_d as nat,
            round_state(self.d, self.seed, round as nat),
        ));
        assert(self.permutation(round) == round_permutation(
            self.padded_d as nat,
            round_state(self.d, self.seed, round as nat),
        ));
    }
}

/// `values` with the components negated whose sign bit is set.
pub open spec fn sign_flipped(signs: Seq<u8>, values: Seq<u32>) -> Seq<u32> {
    Seq::new(
        values.len(),
        |i: int|
            if crate::bitops::byte_bit(signs[i / 8], i % 8) {
                negated(values[i])
            } else {
                values[i]
            },
    )
}

/// Flipping twice restores the vector.
pub proof fn law_sign_flip_is_an_involution(signs: Seq<u8>, values: Seq<u32>)
    ensures
        sign_flipped(signs, sign_flipped(signs, values)) == values,
{
    assert forall|i: int| 0 <= i < values.len() implies sign_flipped(
        signs,
        sign_flipped(signs, values),
    )[i] == values[i] by {
        let v = values[i];
        assert((v ^ 0x8000_0000u32) ^ 0x8000_0000u32 == v) by (bit_vector);
    }
    assert(sign_flipped(signs, sign_flipped(signs, values)) =~= values);
}

/// The terms of one code's distance estimate, as bit patterns.
#[derive(Debug, Clone, Copy, PartialEq, Eq, Structural)]
pub struct RQCodeFactors {
    pub f_add: u32,
    pub f_rescale: u32,
    pub f_error: u32,
}

impl RQCodeFactors {
    pub fn zero() -> (factors: Self)
        ensures
            factors == (RQCodeFactors { f_add: 0, f_rescale: 0, f_error: 0 }),
    {
        Self { f_add: 0, f_rescale: 0, f_error: 0 }
    }
}

/// The factors of one vector, for the first plane alone and for the full code.
#[derive(Debug, Clone, Copy, PartialEq, Eq, Structural)]
pub struct RQVectorFactors {
    pub coarse: RQCodeFactors,
    pub full: RQCodeFactors,
}

impl RQVectorFactors {
    pub fn zero() -> (factors: Self)
        ensures
            factors.coarse == (RQCodeFactors { f_add: 0, f_rescale: 0, f_error: 0 }),
            factors.full == (RQCodeFactors { f_add: 0, f_rescale: 0, f_error: 0 }),
    {
        Self { coarse: RQCodeFactors::zero(), full: RQCodeFactors::zero() }
    }
}

/// Layout of codes that store each dimension's level one bit plane at a time.
#[derive(Debug, Clone)]
pub struct RaBitQuantizer {
    d: usize,
    padded_d: usize,
    bits: usize,
    plane_size: usize,
}

/// `code` stores `levels` plane by plane, most significant bit first.
pub open spec fn stores_planes(code: Seq<u8>, levels: Seq<u8>, bits: int, plane_size: int) -> bool {
    forall|plane: int, dim: int|
        0 <= plane < bits && 0 <= dim < levels.len() ==> #[trigger] plane_bit(
            code,
            plane_size,
            plane,
            dim,
        ) == crate::bitops::byte_bit(levels[dim], bits - 1 - plane)
}

/// The bit that plane `plane` of `code` holds for dimension `dim`.
pub open spec fn plane_bit(code: Seq<u8>, plane_size: int, plane: int, dim: int) -> bool {
    crate::bitops::byte_bit(code[plane * plane_size + dim / 8], dim % 8)
}

impl RaBitQuantizer {
    pub closed spec fn spec_dimension(self) -> usize {
        self.d
    }

    pub closed spec fn spec_padded(self) -> usize {
        self.padded_d
    }

    pub closed spec fn spec_bits(self) -> usize {
        self.bits
    }

    pub closed spec fn spec_plane_size(self) -> usize {
        self.plane_size
    }

    pub open spec fn well_formed(self) -> bool {
        &&& self.spec_padded() == spec_padded_dimension(self.spec_dimension() as int)
        &&& 1 <= self.spec_bits() <= 8
        &&& self.spec_plane_size() * 8 == self.spec_padded()
    }

    pub fn new(d: usize, bits: usize) -> (quantizer: Self)
        requires
            1 <= bits <= 8,
            spec_padded_dimension(d as int) <= usize::MAX,
        ensures
            quantizer.well_formed(),
            quantizer.spec_dimension() == d,
            quantizer.spec_bits() == bits,
    {
        let padded_d: usize = padded_dimension(d);
        proof {
            lemma_whole_bytes(padded_d as int);
        }
        Self { d, padded_d, bits, plane_size: padded_d / 8 }
    }

    pub fn dimension(&self) -> (d: usize)
        ensures
            d == self.spec_dimension(),
    {
        self.d
    }

    pub fn padded_dimension(&self) -> (padded: usize)
        ensures
            padded == self.spec_padded(),
    {
        self.padded_d
    }

    pub fn bits(&self) -> (bits: usize)
        ensures
            bits == self.spec_bits(),
    {
        self.bits
    }

    pub fn plane_size(&self) -> (size: usize)
        ensures
            size == self.spec_plane_size(),
    {
        self.plane_size
    }

    /// Bytes of one code: one plane of one bit per dimension for each stored bit.
    pub fn code_size(&self) -> (size: usize)
        requires
            self.well_formed(),
        ensures
            size == self.spec_plane_size() * self.spec_bits(),
    {
        proof {
            assert(self.plane_size * self.bits <= self.plane_size * 8) by (nonlinear_arith)
                requires
                    self.bits <= 8,
            ;
        }
        self.plane_size * self.bits
    }

    /// Factor values stored with each vector.
    pub fn factor_fields(&self) -> (fields: usize)
        ensures
            fields == spec_factor_fields(self.spec_bits() as int),
    {
        if self.bits == 1 {
            2
        } else {
            5
        }
    }
}

proof fn lemma_whole_bytes(padded: int)
    requires
        padded % 64 == 0,
    ensures
        padded / 8 * 8 == padded,
{
}

/// A one-bit code needs only the coarse terms.
pub open spec fn spec_factor_fields(bits: int) -> int {
    if bits == 1 {
        2
    } else {
        5
    }
}

/// Two cells of a row-major grid with equal offsets are the same cell.
proof fn lemma_cell_unique(width: int, row_a: int, col_a: int, row_b: int, col_b: int)
    requires
        0 <= col_a < width,
        0 <= col_b < width,
        row_a * width + col_a == row_b * width + col_b,
    ensures
        row_a == row_b,
        col_a == col_b,
{
    assert(row_a == row_b) by (nonlinear_arith)
        requires
            0 <= col_a < width,
            0 <= col_b < width,
            row_a * width + col_a == row_b * width + col_b,
    ;
}

/// A cell of a row-major grid lies inside it.
proof fn lemma_cell_inside(rows: int, width: int, row: int, col: int)
    requires
        0 <= row < rows,
        0 <= col < width,
    ensures
        0 <= row * width + col < rows * width,
        0 <= row * width <= rows * width - width,
{
    assert(0 <= row * width && row * width + width <= rows * width) by (nonlinear_arith)
        requires
            0 <= row < rows,
            0 <= col < width,
    ;
}

impl RaBitQuantizer {
    /// Writes the bit planes of `levels`, one level per padded dimension.
    pub fn encode_planes(&self, levels: &[u8], code: &mut Vec<u8>)
        requires
            self.well_formed(),
            levels@.len() == self.spec_padded(),
            old(code)@.len() >= self.spec_plane_size() * self.spec_bits(),
        ensures
            final(code)@.len() == old(code)@.len(),
            stores_planes(
                final(code)@,
                levels@,
                self.spec_bits() as int,
                self.spec_plane_size() as int,
            ),
            forall|i: int|
                self.spec_plane_size() * self.spec_bits() <= i < old(code)@.len()
                    ==> final(code)@[i] == old(code)@[i],
    {
        let size: usize = self.code_size();
        let mut i: usize = 0;
        while i < size
            invariant
                i <= size <= code@.len(),
                code@.len() == old(code)@.len(),
                forall|k: int| 0 <= k < i ==> code@[k] == 0,
                forall|k: int| size <= k < code@.len() ==> code@[k] == old(code)@[k],
            decreases size - i,
        {
            code.set(i, 0);
            i = i + 1;
        }
        let ghost ps = self.plane_size as int;
        let ghost bits = self.bits as int;
        assert forall|p: int, k: int| 0 <= p < bits && 0 <= k < levels@.len() implies !(
        #[trigger] plane_bit(code@, ps, p, k)) by {
            lemma_cell_inside(bits, ps, p, k / 8);
            assert(bits * ps == size) by (nonlinear_arith)
                requires
                    size == ps * bits,
            ;
            crate::bitops::lemma_zero_bits(k % 8);
        }
        let mut dim: usize = 0;
        while dim < levels.len()
            invariant
                self.well_formed(),
                ps == self.plane_size,
                bits == self.bits,
                size == ps * bits,
                dim <= levels@.len(),
                levels@.len() == 8 * ps,
                size <= code@.len(),
                code@.len() == old(code)@.len(),
                forall|k: int| size <= k < code@.len() ==> code@[k] == old(code)@[k],
                forall|p: int, k: int|
                    0 <= p < bits && 0 <= k < levels@.len() ==> #[trigger] plane_bit(
                        code@,
                        ps,
                        p,
                        k,
                    ) == (k < dim && crate::bitops::byte_bit(levels@[k], bits - 1 - p)),
            decreases levels@.len() - dim,
        {
            let level: u8 = levels[dim];
            let mut plane: usize = 0;
            while plane < self.bits
                invariant
                    self.well_formed(),
                    ps == self.plane_size,
                    bits == self.bits,
                    size == ps * bits,
                    plane <= bits,
                    dim < levels@.len(),
                    levels@.len() == 8 * ps,
                    level == levels@[dim as int],
                    size <= code@.len(),
                    code@.len() == old(code)@.len(),
                    forall|k: int| size <= k < code@.len() ==> code@[k] == old(code)@[k],
                    forall|p: int, k: int|
                        0 <= p < bits && 0 <= k < levels@.len() ==> #[trigger] plane_bit(
                            code@,
                            ps,
                            p,
                            k,
                        ) == ((k < dim || k == dim && p < plane) && crate::bitops::byte_bit(
                            levels@[k],
                            bits - 1 - p,
                        )),
                decreases bits - plane,
            {
                if test_bit(level, self.bits - 1 - plane) {
                    proof {
                        lemma_cell_inside(bits, ps, plane as int, dim as int / 8);
                        assert(bits * ps == size) by (nonlinear_arith)
                            requires
                                size == ps * bits,
                        ;
                    }
                    let at: usize = plane * self.plane_size + dim / 8;
                    let ghost before = code@;
                    let byte: u8 = code[at];
                    code.set(at, with_bit(byte, dim % 8));
                    assert forall|p: int, k: int|
                        0 <= p < bits && 0 <= k < levels@.len() implies #[trigger] plane_bit(
                        code@,
                        ps,
                        p,
                        k,
                    ) == ((k < dim || k == dim && p < plane + 1) && crate::bitops::byte_bit(
                        levels@[k],
                        bits - 1 - p,
                    )) by {
                        lemma_cell_inside(bits, ps, p, k / 8);
                        assert(plane_bit(before, ps, p, k) == ((k < dim || k == dim && p < plane)
                            && crate::bitops::byte_bit(levels@[k], bits - 1 - p)));
                        if p * ps + k / 8 == at {
                            lemma_cell_unique(ps, p, k / 8, plane as int, dim as int / 8);
                        }
                    }
                }
                plane = plane + 1;
            }
            dim = dim + 1;
        }
    }

    /// Whether the first plane holds a one for `level`.
    pub fn is_upper_level(&self, level: u8) -> (upper: bool)
        requires
            self.well_formed(),
        ensures
            upper == crate::bitops::byte_bit(level, self.spec_bits() - 1),
    {
        test_bit(level, self.bits - 1)
    }

    /// Sums the quantized table entries of a block of 32 codes, lane by lane.
    /// Byte `b` of every code lies at `32 * b`, and its two nibbles look up the
    /// table entries at `32 * b` and `32 * b + 16`.
    pub fn fastscan_coarse_block(&self, lut: &[u8], blocked_codes: &[u8]) -> (sums: Vec<u32>)
        requires
            self.well_formed(),
            self.spec_plane_size() * 510 <= u32::MAX,
            self.spec_plane_size() * 32 <= lut@.len(),
            self.spec_plane_size() * 32 <= blocked_codes@.len(),
        ensures
            sums@.len() == 32,
            forall|lane: int|
                0 <= lane < 32 ==> #[trigger] sums@[lane] == lane_sum(
                    lut@,
                    blocked_codes@,
                    lane,
                    self.spec_plane_size() as nat,
                ),
    {
        let mut sums: Vec<u32> = Vec::new();
        let mut lane: usize = 0;
        while lane < RQ_SCAN_BLOCK_SIZE
            invariant
                lane <= 32,
                sums@.len() == lane,
                self.plane_size * 510 <= u32::MAX,
                self.plane_size * 32 <= lut@.len(),
                self.plane_size * 32 <= blocked_codes@.len(),
                forall|l: int|
                    0 <= l < lane ==> #[trigger] sums@[l] == lane_sum(
                        lut@,
                        blocked_codes@,
                        l,
                        self.plane_size as nat,
                    ),
            decreases 32 - lane,
        {
            let mut sum: u32 = 0;
            let mut byte: usize = 0;
            while byte < self.plane_size
                invariant
                    lane < 32,
                    byte <= self.plane_size,
                    self.plane_size * 510 <= u32::MAX,
                    self.plane_size * 32 <= lut@.len(),
                    self.plane_size * 32 <= blocked_codes@.len(),
                    sum == lane_sum(lut@, blocked_codes@, lane as int, byte as nat),
                    sum <= byte * 510,
                decreases self.plane_size - byte,
            {
                let value: usize = blocked_codes[byte * 32 + lane] as usize;
                let low: u32 = lut[byte * 32 + value % 16] as u32;
                let high: u32 = lut[byte * 32 + 16 + value / 16] as u32;
                sum = sum + low + high;
                byte = byte + 1;
            }
            sums.push(sum);
            lane = lane + 1;
        }
        sums
    }
}

/// The table sum of one lane over its first `bytes` bytes.
pub open spec fn lane_sum(lut: Seq<u8>, blocked_codes: Seq<u8>, lane: int, bytes: nat) -> int
    decreases bytes,
{
    if bytes == 0 {
        0
    } else {
        let b = bytes - 1;
        let value = blocked_codes[b * 32 + lane] as int;
        lane_sum(lut, blocked_codes, lane, b as nat) + lut[b * 32 + value % 16] + lut[b * 32 + 16
            + value / 16]
    }
}

/// Codes that store different levels differ: the planes lose nothing.
pub proof fn law_planes_determine_levels(
    code: Seq<u8>,
    a: Seq<u8>,
    b: Seq<u8>,
    bits: int,
    plane_size: int,
)
    requires
        1 <= bits <= 8,
        a.len() == b.len(),
        stores_planes(code, a, bits, plane_size),
        stores_planes(code, b, bits, plane_size),
        bits == 8 || forall|i: int| 0 <= i < a.len() ==> #[trigger] a[i] < (1u8 << (bits as u8)),
        bits == 8 || forall|i: int| 0 <= i < b.len() ==> #[trigger] b[i] < (1u8 << (bits as u8)),
    ensures
        a == b,
{
    assert forall|dim: int| 0 <= dim < a.len() implies a[dim] == b[dim] by {
        assert forall|i: int| 0 <= i < 8 implies #[trigger] crate::bitops::byte_bit(a[dim], i)
            == crate::bitops::byte_bit(b[dim], i) by {
            if i < bits {
                let plane = bits - 1 - i;
                assert(plane_bit(code, plane_size, plane, dim) == crate::bitops::byte_bit(
                    a[dim],
                    bits - 1 - plane,
                ));
                assert(plane_bit(code, plane_size, plane, dim) == crate::bitops::byte_bit(
                    b[dim],
                    bits - 1 - plane,
                ));
            } else {
                crate::bitops::lemma_high_bits_clear(a[dim], bits, i);
                crate::bitops::lemma_high_bits_clear(b[dim], bits, i);
            }
        }
        crate::bitops::lemma_bits_determine_byte(a[dim], b[dim]);
    }
    assert(a =~= b);
}

/// Equal levels have equal codes: the planes fix every byte of the code.
pub proof fn law_levels_determine_planes(
    a: Seq<u8>,
    b: Seq<u8>,
    levels: Seq<u8>,
    bits: int,
    plane_size: int,
)
    requires
        0 < plane_size,
        levels.len() == 8 * plane_size,
        a.len() == bits * plane_size,
        b.len() == bits * plane_size,
        0 <= bits,
        stores_planes(a, levels, bits, plane_size),
        stores_planes(b, levels, bits, plane_size),
    ensures
        a == b,
{
    assert forall|at: int| 0 <= at < a.len() implies a[at] == b[at] by {
        let plane = at / plane_size;
        let column = at % plane_size;
        assert(at == plane * plane_size + column && 0 <= plane < bits && 0 <= column < plane_size)
            by (nonlinear_arith)
            requires
                0 <= at < bits * plane_size,
                0 < plane_size,
                plane == at / plane_size,
                column == at % plane_size,
        ;
        assert forall|i: int| 0 <= i < 8 implies #[trigger] crate::bitops::byte_bit(a[at], i)
            == crate::bitops::byte_bit(b[at], i) by {
            let dim = column * 8 + i;
            assert(dim / 8 == column && dim % 8 == i);
            assert(plane_bit(a, plane_size, plane, dim) == crate::bitops::byte_bit(
                levels[dim],
                bits - 1 - plane,
            ));
            assert(plane_bit(b, plane_size, plane, dim) == crate::bitops::byte_bit(
                levels[dim],
                bits - 1 - plane,
            ));
        }
        crate::bitops::lemma_bits_determine_byte(a[at], b[at]);
    }
    assert(a =~= b);
}

} // verus!
