//! Rotating a vector: sign flips, block transforms and permutations.
use crate::float_ops::{apply, operate};
use crate::rq::{RQRotation, RQ_ROTATION_BLOCK_SIZE};
use vstd::prelude::*;

verus! {

/// One pass of the transform: components whose places differ by `width` are
/// replaced by their sum and their difference.
pub open spec fn crossed<A: Fn(u32, u32) -> u32, S: Fn(u32, u32) -> u32>(
    add: A,
    subtract: S,
    values: Seq<u32>,
    width: int,
) -> Seq<u32> {
    Seq::new(
        values.len(),
        |i: int|
            if i / width % 2 == 0 {
                crate::float_ops::result_of(add, values[i], values[i + width])
            } else {
                crate::float_ops::result_of(subtract, values[i - width], values[i])
            },
    )
}

/// The transform of a block: passes of doubling width, then each component is
/// made an eighth of what it was.
pub open spec fn transformed<
    A: Fn(u32, u32) -> u32,
    S: Fn(u32, u32) -> u32,
    E: Fn(u32) -> u32,
>(add: A, subtract: S, eighth: E, block: Seq<u32>) -> Seq<u32> {
    let one = crossed(add, subtract, block, 1);
    let two = crossed(add, subtract, one, 2);
    let four = crossed(add, subtract, two, 4);
    let eight = crossed(add, subtract, four, 8);
    let sixteen = crossed(add, subtract, eight, 16);
    let all = crossed(add, subtract, sixteen, 32);
    all.map_values(|value: u32| crate::float_ops::image_of(eighth, value))
}

/// Every block of the vector transformed.
pub open spec fn blocks_transformed<
    A: Fn(u32, u32) -> u32,
    S: Fn(u32, u32) -> u32,
    E: Fn(u32) -> u32,
>(add: A, subtract: S, eighth: E, values: Seq<u32>) -> Seq<u32> {
    Seq::new(
        values.len(),
        |i: int|
            transformed(add, subtract, eighth, values.subrange(i / 64 * 64, i / 64 * 64 + 64))[i
                % 64],
    )
}

/// The vectors before and after each round: signs are flipped, blocks are
/// transformed, and component `i` moves to the place that the permutation
/// gives.
pub open spec fn is_rotation<
    A: Fn(u32, u32) -> u32,
    S: Fn(u32, u32) -> u32,
    E: Fn(u32) -> u32,
>(
    rotation: RQRotation,
    add: A,
    subtract: S,
    eighth: E,
    stages: Seq<Seq<u32>>,
) -> bool {
    &&& forall|r: int| 0 <= r < stages.len() ==> (#[trigger] stages[r]).len()
        == rotation.spec_padded()
    &&& forall|r: int, i: int|
        #![trigger rotation.permutation(r)[i]]
        0 <= r < stages.len() - 1 && 0 <= i < rotation.spec_padded() ==> stages[r
            + 1][rotation.permutation(r)[i] as int] == blocks_transformed(
            add,
            subtract,
            eighth,
            crate::rq::sign_flipped(rotation.signs(r), stages[r]),
        )[i]
}

/// The rotation takes `before` to `after`.
pub open spec fn rotates<
    A: Fn(u32, u32) -> u32,
    S: Fn(u32, u32) -> u32,
    E: Fn(u32) -> u32,
>(
    rotation: RQRotation,
    add: A,
    subtract: S,
    eighth: E,
    before: Seq<u32>,
    after: Seq<u32>,
) -> bool {
    exists|stages: Seq<Seq<u32>>|
        {
            &&& #[trigger] is_rotation(rotation, add, subtract, eighth, stages)
            &&& stages.len() == rotation.spec_rounds() + 1
            &&& stages.first() == before
            &&& stages.last() == after
        }
}

fn cross<A: Fn(u32, u32) -> u32, S: Fn(u32, u32) -> u32>(
    add: &A,
    subtract: &S,
    values: &Vec<u32>,
    width: usize,
) -> (out: Vec<u32>)
    requires
        crate::float_ops::is_operation(*add),
        crate::float_ops::is_operation(*subtract),
        values@.len() == 64,
        width == 1 || width == 2 || width == 4 || width == 8 || width == 16 || width == 32,
    ensures
        out@ == crossed(*add, *subtract, values@, width as int),
{
    let mut out: Vec<u32> = Vec::new();
    let mut i: usize = 0;
    while i < RQ_ROTATION_BLOCK_SIZE
        invariant
            i <= 64,
            crate::float_ops::is_operation(*add),
            crate::float_ops::is_operation(*subtract),
            values@.len() == 64,
            width == 1 || width == 2 || width == 4 || width == 8 || width == 16 || width == 32,
            out@.len() == i,
            forall|k: int|
                0 <= k < i ==> #[trigger] out@[k] == crossed(
                    *add,
                    *subtract,
                    values@,
                    width as int,
                )[k],
        decreases 64 - i,
    {
        if i / width % 2 == 0 {
            assert(i + width < 64);
            out.push(operate(add, values[i], values[i + width]));
        } else {
            assert(i >= width);
            out.push(operate(subtract, values[i - width], values[i]));
        }
        i = i + 1;
    }
    assert(out@ =~= crossed(*add, *subtract, values@, width as int));
    out
}

/// Transforms a block of components.
pub fn hadamard_64<A: Fn(u32, u32) -> u32, S: Fn(u32, u32) -> u32, E: Fn(u32) -> u32>(
    add: &A,
    subtract: &S,
    eighth: &E,
    block: &Vec<u32>,
) -> (out: Vec<u32>)
    requires
        crate::float_ops::is_operation(*add),
        crate::float_ops::is_operation(*subtract),
        crate::float_ops::is_map(*eighth),
        block@.len() == 64,
    ensures
        out@ == transformed(*add, *subtract, *eighth, block@),
        out@.len() == 64,
{
    let one = cross(add, subtract, block, 1);
    let two = cross(add, subtract, &one, 2);
    let four = cross(add, subtract, &two, 4);
    let eight = cross(add, subtract, &four, 8);
    let sixteen = cross(add, subtract, &eight, 16);
    let all = cross(add, subtract, &sixteen, 32);
    let mut out: Vec<u32> = Vec::new();
    let mut i: usize = 0;
    while i < all.len()
        invariant
            i <= all@.len(),
            crate::float_ops::is_map(*eighth),
            out@.len() == i,
            forall|k: int|
                0 <= k < i ==> #[trigger] out@[k] == crate::float_ops::image_of(*eighth, all@[k]),
        decreases all@.len() - i,
    {
        out.push(apply(eighth, all[i]));
        i = i + 1;
    }
    assert(out@ =~= all@.map_values(|value: u32| crate::float_ops::image_of(*eighth, value)));
    out
}

#[verifier::spinoff_prover]
#[verifier::rlimit(40)]
fn transform_blocks<A: Fn(u32, u32) -> u32, S: Fn(u32, u32) -> u32, E: Fn(u32) -> u32>(
    add: &A,
    subtract: &S,
    eighth: &E,
    values: &mut Vec<u32>,
)
    requires
        crate::float_ops::is_operation(*add),
        crate::float_ops::is_operation(*subtract),
        crate::float_ops::is_map(*eighth),
        old(values)@.len() % 64 == 0,
    ensures
        final(values)@ == blocks_transformed(*add, *subtract, *eighth, old(values)@),
{
    let size: usize = values.len();
    let mut out: Vec<u32> = Vec::new();
    let mut start: usize = 0;
    while start < size
        invariant
            start <= size,
            start % 64 == 0,
            size % 64 == 0,
            values@ == old(values)@,
            size == values@.len(),
            crate::float_ops::is_operation(*add),
            crate::float_ops::is_operation(*subtract),
            crate::float_ops::is_map(*eighth),
            out@.len() == start,
            forall|k: int|
                0 <= k < start ==> #[trigger] out@[k] == blocks_transformed(
                    *add,
                    *subtract,
                    *eighth,
                    values@,
                )[k],
        decreases size - start,
    {
        let mut block: Vec<u32> = Vec::new();
        let mut i: usize = start;
        while i < start + RQ_ROTATION_BLOCK_SIZE
            invariant
                start <= i <= start + 64 <= size,
                size == values@.len(),
                block@ == values@.subrange(start as int, i as int),
            decreases start + 64 - i,
        {
            block.push(values[i]);
            assert(block@ =~= values@.subrange(start as int, i + 1));
            i = i + 1;
        }
        let mut turned = hadamard_64(add, subtract, eighth, &block);
        let ghost before = out@;
        let ghost added = turned@;
        out.append(&mut turned);
        proof {
            assert forall|k: int| 0 <= k < start + 64 implies #[trigger] out@[k]
                == blocks_transformed(*add, *subtract, *eighth, values@)[k] by {
                if k < start {
                    assert(out@[k] == before[k]);
                } else {
                    assert(k / 64 * 64 == start && k % 64 == k - start);
                    assert(out@[k] == added[k - start]);
                    assert(values@.subrange(start as int, start + 64) == block@);
                }
            }
        }
        start = start + RQ_ROTATION_BLOCK_SIZE;
    }
    assert(out@ =~= blocks_transformed(*add, *subtract, *eighth, values@));
    std::mem::swap(values, &mut out);
}

impl RQRotation {
    /// Rotates a vector that is already padded.
    pub fn apply_in_place<A: Fn(u32, u32) -> u32, S: Fn(u32, u32) -> u32, E: Fn(u32) -> u32>(
        &self,
        values: &mut Vec<u32>,
        scratch: &mut Vec<u32>,
        add: &A,
        subtract: &S,
        eighth: &E,
    )
        requires
            self.well_formed(),
            old(values)@.len() == self.spec_padded(),
            old(scratch)@.len() == self.spec_padded(),
            crate::float_ops::is_operation(*add),
            crate::float_ops::is_operation(*subtract),
            crate::float_ops::is_map(*eighth),
        ensures
            rotates(*self, *add, *subtract, *eighth, old(values)@, final(values)@),
            final(values)@.len() == self.spec_padded(),
            final(scratch)@.len() == self.spec_padded(),
    {
        let ghost mut stages: Seq<Seq<u32>> = seq![values@];
        let rounds: u32 = self.rounds();
        let mut round: u32 = 0;
        while round < rounds
            invariant
                round <= rounds,
                rounds == self.spec_rounds(),
                self.well_formed(),
                values@.len() == self.spec_padded(),
                scratch@.len() == self.spec_padded(),
                crate::float_ops::is_operation(*add),
                crate::float_ops::is_operation(*subtract),
                crate::float_ops::is_map(*eighth),
                stages.len() == round + 1,
                stages.first() == old(values)@,
                stages.last() == values@,
                is_rotation(*self, *add, *subtract, *eighth, stages),
            decreases rounds - round,
        {
            let ghost before = stages;
            self.flip_signs(round as usize, values);
            let ghost flipped = values@;
            assert(flipped == crate::rq::sign_flipped(self.signs(round as int), before.last()));
            proof {
                self.lemma_padded_is_whole();
            }
            transform_blocks(add, subtract, eighth, values);
            let ghost mixed = values@;
            self.permute(round as usize, values, scratch);
            proof {
                stages = before.push(values@);
                assert forall|r: int, i: int|
                    #![trigger self.permutation(r)[i]]
                    0 <= r < stages.len() - 1 && 0 <= i < self.spec_padded() implies stages[r
                    + 1][self.permutation(r)[i] as int] == blocks_transformed(
                    *add,
                    *subtract,
                    *eighth,
                    crate::rq::sign_flipped(self.signs(r), stages[r]),
                )[i] by {
                    if r < round {
                        assert(stages[r] == before[r]);
                        assert(stages[r + 1] == before[r + 1]);
                    } else {
                        assert(mixed[i] == mixed[i]);
                    }
                }
            }
            round = round + 1;
        }
    }

    /// Pads a vector with zeros and rotates it.
    pub fn rotate<A: Fn(u32, u32) -> u32, S: Fn(u32, u32) -> u32, E: Fn(u32) -> u32>(
        &self,
        input: &[u32],
        add: &A,
        subtract: &S,
        eighth: &E,
    ) -> (output: Vec<u32>)
        requires
            self.well_formed(),
            input@.len() == self.spec_dimension(),
            crate::float_ops::is_operation(*add),
            crate::float_ops::is_operation(*subtract),
            crate::float_ops::is_map(*eighth),
        ensures
            output@.len() == self.spec_padded(),
            rotates(
                *self,
                *add,
                *subtract,
                *eighth,
                padded(input@, self.spec_padded() as nat),
                output@,
            ),
    {
        proof {
            self.lemma_padded_is_whole();
        }
        let size: usize = self.padded_dimension();
        let mut values: Vec<u32> = Vec::new();
        let mut scratch: Vec<u32> = Vec::new();
        let mut i: usize = 0;
        while i < size
            invariant
                i <= size,
                input@.len() <= size,
                values@.len() == i,
                scratch@.len() == i,
                forall|k: int|
                    0 <= k < i ==> #[trigger] values@[k] == padded(input@, size as nat)[k],
            decreases size - i,
        {
            if i < input.len() {
                values.push(input[i]);
            } else {
                values.push(0);
            }
            scratch.push(0);
            i = i + 1;
        }
        assert(values@ =~= padded(input@, size as nat));
        self.apply_in_place(&mut values, &mut scratch, add, subtract, eighth);
        values
    }
}

/// A vector with zeros behind it.
pub open spec fn padded(values: Seq<u32>, size: nat) -> Seq<u32> {
    Seq::new(
        size,
        |i: int|
            if i < values.len() {
                values[i]
            } else {
                0
            },
    )
}

/// Two rotations of one vector give the same.
pub proof fn law_rotating_is_deterministic<
    A: Fn(u32, u32) -> u32,
    S: Fn(u32, u32) -> u32,
    E: Fn(u32) -> u32,
>(
    rotation: RQRotation,
    add: A,
    subtract: S,
    eighth: E,
    before: Seq<u32>,
    first: Seq<u32>,
    second: Seq<u32>,
)
    requires
        rotation.well_formed(),
        rotates(rotation, add, subtract, eighth, before, first),
        rotates(rotation, add, subtract, eighth, before, second),
    ensures
        first == second,
{
    let one = choose|stages: Seq<Seq<u32>>|
        {
            &&& #[trigger] is_rotation(rotation, add, subtract, eighth, stages)
            &&& stages.len() == rotation.spec_rounds() + 1
            &&& stages.first() == before
            &&& stages.last() == first
        };
    let two = choose|stages: Seq<Seq<u32>>|
        {
            &&& #[trigger] is_rotation(rotation, add, subtract, eighth, stages)
            &&& stages.len() == rotation.spec_rounds() + 1
            &&& stages.first() == before
            &&& stages.last() == second
        };
    lemma_stages_agree(rotation, add, subtract, eighth, one, two, rotation.spec_rounds() as int);
}

proof fn lemma_stages_agree<
    A: Fn(u32, u32) -> u32,
    S: Fn(u32, u32) -> u32,
    E: Fn(u32) -> u32,
>(
    rotation: RQRotation,
    add: A,
    subtract: S,
    eighth: E,
    one: Seq<Seq<u32>>,
    two: Seq<Seq<u32>>,
    r: int,
)
    requires
        rotation.well_formed(),
        is_rotation(rotation, add, subtract, eighth, one),
        is_rotation(rotation, add, subtract, eighth, two),
        one.len() == rotation.spec_rounds() + 1,
        two.len() == rotation.spec_rounds() + 1,
        one.first() == two.first(),
        0 <= r <= rotation.spec_rounds(),
    ensures
        one[r] == two[r],
    decreases r,
{
    if r > 0 {
        let q = r - 1;
        lemma_stages_agree(rotation, add, subtract, eighth, one, two, q);
        rotation.lemma_round_is_permutation(q);
        let order = rotation.permutation(q);
        assert forall|k: int| 0 <= k < one[r].len() implies one[r][k] == two[r][k] by {
            crate::rq::lemma_permutation_reaches(order, k);
            let i = choose|i: int| 0 <= i < order.len() && order[i] == k;
            assert(one[q + 1][rotation.permutation(q)[i] as int] == two[q
                + 1][rotation.permutation(q)[i] as int]);
        }
        assert(one[r] =~= two[r]);
    }
}

} // verus!
