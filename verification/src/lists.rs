//! Distributing rows over inverted lists.
use vstd::prelude::*;

verus! {

/// The rows assigned to `list`, ascending.
pub open spec fn rows_of(assignments: Seq<usize>, list: int, n: nat) -> Seq<usize> {
    crate::matching::picked(assigned_to(assignments, list), n)
}

/// Row `i` is assigned to `list`.
pub open spec fn assigned_to(assignments: Seq<usize>, list: int) -> spec_fn(int) -> bool {
    |i: int| assignments[i] == list
}

/// `count` empty lists.
pub fn empty_lists<T>(count: usize) -> (lists: Vec<Vec<T>>)
    ensures
        lists@.len() == count,
        forall|l: int| 0 <= l < count ==> (#[trigger] lists@[l])@ == Seq::<T>::empty(),
{
    let mut lists: Vec<Vec<T>> = Vec::new();
    let mut l: usize = 0;
    while l < count
        invariant
            l <= count,
            lists@.len() == l,
            forall|k: int| 0 <= k < l ==> (#[trigger] lists@[k])@ == Seq::<T>::empty(),
        decreases count - l,
    {
        lists.push(Vec::new());
        l = l + 1;
    }
    lists
}

/// The rows of each list, in row order.
pub fn group_rows(assignments: &[usize], nlist: usize) -> (groups: Vec<Vec<usize>>)
    requires
        forall|i: int| 0 <= i < assignments@.len() ==> #[trigger] assignments@[i] < nlist,
    ensures
        groups@.len() == nlist,
        forall|l: int|
            0 <= l < nlist ==> (#[trigger] groups@[l])@ == rows_of(
                assignments@,
                l,
                assignments@.len(),
            ),
{
    let mut groups: Vec<Vec<usize>> = Vec::new();
    let mut l: usize = 0;
    while l < nlist
        invariant
            l <= nlist,
            groups@.len() == l,
            forall|k: int| 0 <= k < l ==> (#[trigger] groups@[k])@ == Seq::<usize>::empty(),
        decreases nlist - l,
    {
        groups.push(Vec::new());
        l = l + 1;
    }
    let mut i: usize = 0;
    while i < assignments.len()
        invariant
            i <= assignments@.len(),
            groups@.len() == nlist,
            forall|j: int| 0 <= j < assignments@.len() ==> #[trigger] assignments@[j] < nlist,
            forall|k: int|
                0 <= k < nlist ==> (#[trigger] groups@[k])@ == rows_of(assignments@, k, i as nat),
        decreases assignments@.len() - i,
    {
        let list: usize = assignments[i];
        let ghost before = groups@;
        let mut group: Vec<usize> = Vec::new();
        std::mem::swap(&mut group, &mut groups[list]);
        group.push(i);
        std::mem::swap(&mut group, &mut groups[list]);
        assert forall|k: int| 0 <= k < nlist implies (#[trigger] groups@[k])@ == rows_of(
            assignments@,
            k,
            (i + 1) as nat,
        ) by {
            assert(before[k]@ == rows_of(assignments@, k, i as nat));
        }
        i = i + 1;
    }
    groups
}

/// Every row is in the group of its list and in no other.
pub proof fn law_groups_partition_the_rows(assignments: Seq<usize>, row: int, list: int)
    requires
        assignments.len() <= usize::MAX,
        0 <= row < assignments.len(),
    ensures
        rows_of(assignments, list, assignments.len()).contains(row as usize) <==> assignments[row]
            == list,
{
    let pick = assigned_to(assignments, list);
    crate::matching::lemma_picked(pick, assignments.len());
    assert(pick(row) <==> crate::matching::picked(pick, assignments.len()).contains(row as usize));
}

/// The number of rows in lists below `lists`.
pub open spec fn grouped_count(assignments: Seq<usize>, lists: nat, n: nat) -> nat
    decreases lists,
{
    if lists == 0 {
        0
    } else {
        grouped_count(assignments, (lists - 1) as nat, n) + rows_of(
            assignments,
            lists - 1,
            n,
        ).len()
    }
}

proof fn lemma_grouped_step(assignments: Seq<usize>, lists: nat, n: nat)
    requires
        n > 0,
        n <= assignments.len(),
    ensures
        grouped_count(assignments, lists, n) == grouped_count(assignments, lists, (n - 1) as nat)
            + (if assignments[n - 1] < lists {
            1nat
        } else {
            0
        }),
    decreases lists,
{
    if lists > 0 {
        lemma_grouped_step(assignments, (lists - 1) as nat, n);
    }
}

proof fn lemma_grouped_none(assignments: Seq<usize>, lists: nat)
    ensures
        grouped_count(assignments, lists, 0) == 0,
    decreases lists,
{
    if lists > 0 {
        lemma_grouped_none(assignments, (lists - 1) as nat);
    }
}

/// The groups together hold as many rows as were assigned.
pub proof fn law_groups_hold_every_row(assignments: Seq<usize>, lists: nat, n: nat)
    requires
        n <= assignments.len(),
        forall|i: int| 0 <= i < assignments.len() ==> #[trigger] assignments[i] < lists,
    ensures
        grouped_count(assignments, lists, n) == n,
    decreases n,
{
    if n == 0 {
        lemma_grouped_none(assignments, lists);
    } else {
        lemma_grouped_step(assignments, lists, n);
        law_groups_hold_every_row(assignments, lists, (n - 1) as nat);
        assert(assignments[n - 1] < lists);
    }
}

/// The given rows of a matrix with `width` columns, one after the other.
pub open spec fn gathered_rows<T>(source: Seq<T>, rows: Seq<usize>, width: nat) -> Seq<T>
    decreases rows.len(),
{
    if rows.len() == 0 {
        Seq::empty()
    } else {
        gathered_rows(source, rows.drop_last(), width) + source.subrange(
            rows.last() * width,
            (rows.last() + 1) * width,
        )
    }
}

/// Gathering keeps the shape: one row of `width` values for each position.
pub proof fn lemma_gathered_len<T>(source: Seq<T>, rows: Seq<usize>, width: nat)
    requires
        forall|i: int|
            0 <= i < rows.len() ==> (#[trigger] rows[i] + 1) * width <= source.len(),
    ensures
        gathered_rows(source, rows, width).len() == rows.len() * width,
    decreases rows.len(),
{
    if rows.len() > 0 {
        let n = rows.len();
        let row = rows.last() as int;
        assert forall|i: int| 0 <= i < rows.drop_last().len() implies (#[trigger] rows.drop_last()[i] + 1)
            * width <= source.len() by {
            assert(rows[i] == rows.drop_last()[i]);
        }
        lemma_gathered_len(source, rows.drop_last(), width);
        assert((rows[n - 1] + 1) * width <= source.len());
        assert((row + 1) * width == row * width + width) by (nonlinear_arith);
        assert(0 <= row * width) by (nonlinear_arith)
            requires
                0 <= row,
        ;
        assert((n - 1) * width + width == n * width) by (nonlinear_arith);
    } else {
        assert(0 * width == 0) by (nonlinear_arith);
    }
}

/// The values of gathered row `j` are those of the row it came from.
pub proof fn law_gathered_rows_are_copies<T>(
    source: Seq<T>,
    rows: Seq<usize>,
    width: nat,
    j: int,
    c: int,
)
    requires
        forall|i: int|
            0 <= i < rows.len() ==> (#[trigger] rows[i] + 1) * width <= source.len(),
        0 <= j < rows.len(),
        0 <= c < width,
    ensures
        0 <= j * width + c < rows.len() * width,
        gathered_rows(source, rows, width)[j * width + c] == source[rows[j] * width + c],
    decreases rows.len(),
{
    let n = rows.len() as int;
    let shorter = rows.drop_last();
    let row = rows.last() as int;
    assert forall|i: int| 0 <= i < shorter.len() implies (#[trigger] shorter[i] + 1) * width
        <= source.len() by {
        assert(rows[i] == shorter[i]);
    }
    lemma_gathered_len(source, shorter, width);
    assert((rows[n - 1] + 1) * width <= source.len());
    assert((row + 1) * width == row * width + width) by (nonlinear_arith);
    assert(0 <= row * width) by (nonlinear_arith)
        requires
            0 <= row,
    ;
    assert(0 <= j * width + c < n * width && (j < n - 1 ==> j * width + c < (n - 1) * width))
        by (nonlinear_arith)
        requires
            0 <= j < n,
            0 <= c < width,
    ;
    if j < n - 1 {
        law_gathered_rows_are_copies(source, shorter, width, j, c);
        assert(shorter[j] == rows[j]);
    } else {
        assert(j == n - 1);
    }
}

/// Appends the given rows of `source`.
pub fn append_rows<T: Copy>(target: &mut Vec<T>, source: &[T], rows: &[usize], width: usize)
    requires
        forall|i: int|
            0 <= i < rows@.len() ==> (#[trigger] rows@[i] + 1) * width <= source@.len(),
    ensures
        final(target)@ == old(target)@ + gathered_rows(source@, rows@, width as nat),
{
    let total: usize = source.len();
    let mut r: usize = 0;
    assert(target@ + gathered_rows(source@, rows@.take(0), width as nat) =~= target@);
    while r < rows.len()
        invariant
            r <= rows@.len(),
            total == source@.len(),
            forall|i: int| 0 <= i < rows@.len() ==> (#[trigger] rows@[i] + 1) * width <= total,
            target@ == old(target)@ + gathered_rows(source@, rows@.take(r as int), width as nat),
        decreases rows@.len() - r,
    {
        let row: usize = rows[r];
        let ghost done = target@;
        proof {
            assert((rows@[r as int] + 1) * width <= total);
            assert((row + 1) * width == row * width + width) by (nonlinear_arith);
            assert(0 <= row * width) by (nonlinear_arith);
        }
        let base: usize = row * width;
        let mut c: usize = 0;
        while c < width
            invariant
                c <= width,
                base == row * width,
                base + width <= total,
                total == source@.len(),
                target@ == done + source@.subrange(base as int, base + c),
            decreases width - c,
        {
            target.push(source[base + c]);
            assert(source@.subrange(base as int, base + c + 1) =~= source@.subrange(
                base as int,
                base + c,
            ).push(source@[base + c]));
            c = c + 1;
        }
        proof {
            assert(rows@.take(r + 1).drop_last() =~= rows@.take(r as int));
            assert(rows@.take(r + 1).last() == row);
            assert(target@ =~= old(target)@ + gathered_rows(
                source@,
                rows@.take(r + 1),
                width as nat,
            ));
        }
        r = r + 1;
    }
    assert(rows@.take(rows@.len() as int) =~= rows@);
}

/// The given rows of a matrix, as a matrix.
pub fn gather_rows<T: Copy>(source: &[T], rows: &[usize], width: usize) -> (matrix: Vec<T>)
    requires
        forall|i: int|
            0 <= i < rows@.len() ==> (#[trigger] rows@[i] + 1) * width <= source@.len(),
    ensures
        matrix@ == gathered_rows(source@, rows@, width as nat),
{
    let mut matrix: Vec<T> = Vec::new();
    append_rows(&mut matrix, source, rows, width);
    assert(matrix@ =~= gathered_rows(source@, rows@, width as nat));
    matrix
}

/// The total number of rows of the lists below `upto`.
pub open spec fn count_rows(ids: Seq<Vec<i64>>, upto: nat) -> nat
    decreases upto,
{
    if upto == 0 {
        0
    } else {
        count_rows(ids, (upto - 1) as nat) + ids[upto - 1]@.len()
    }
}

pub proof fn lemma_count_rows_monotone(ids: Seq<Vec<i64>>, a: nat, b: nat)
    requires
        a <= b,
    ensures
        count_rows(ids, a) <= count_rows(ids, b),
    decreases b,
{
    if a < b {
        lemma_count_rows_monotone(ids, a, (b - 1) as nat);
    }
}

/// The total number of rows.
pub fn total_rows(ids: &Vec<Vec<i64>>) -> (total: usize)
    requires
        count_rows(ids@, ids@.len()) <= usize::MAX,
    ensures
        total == count_rows(ids@, ids@.len()),
{
    let mut total: usize = 0;
    let mut l: usize = 0;
    while l < ids.len()
        invariant
            l <= ids@.len(),
            count_rows(ids@, ids@.len()) <= usize::MAX,
            total == count_rows(ids@, l as nat),
        decreases ids@.len() - l,
    {
        proof {
            lemma_count_rows_monotone(ids@, (l + 1) as nat, ids@.len());
        }
        total = total + ids[l].len();
        l = l + 1;
    }
    total
}

/// Rows assigned in two batches: the first batch's rows, then the second
/// batch's rows shifted past the first.
proof fn lemma_rows_of_batches(first: Seq<usize>, second: Seq<usize>, list: int, n: nat)
    requires
        n <= second.len(),
        first.len() + second.len() <= usize::MAX,
    ensures
        rows_of(first + second, list, first.len() + n) == rows_of(first, list, first.len())
            + Seq::new(
            rows_of(second, list, n).len(),
            |i: int| (rows_of(second, list, n)[i] + first.len()) as usize,
        ),
    decreases n,
{
    let all = first + second;
    if n == 0 {
        crate::matching::lemma_picked_agree(
            assigned_to(all, list),
            assigned_to(first, list),
            first.len(),
        );
        assert(rows_of(all, list, first.len()) =~= rows_of(first, list, first.len()) + Seq::new(
            rows_of(second, list, 0).len(),
            |i: int| (rows_of(second, list, 0)[i] + first.len()) as usize,
        ));
    } else {
        let m = (n - 1) as nat;
        lemma_rows_of_batches(first, second, list, m);
        assert(all[first.len() + m as int] == second[m as int]);
        let before = rows_of(second, list, m);
        crate::matching::lemma_picked(assigned_to(second, list), m);
        let shifted = Seq::new(before.len(), |i: int| (before[i] + first.len()) as usize);
        let now = rows_of(second, list, n);
        let shifted_now = Seq::new(now.len(), |i: int| (now[i] + first.len()) as usize);
        if second[m as int] == list {
            assert(now =~= before.push(m as usize));
            assert(shifted_now =~= shifted.push((first.len() + m) as usize));
            assert(rows_of(all, list, first.len() + n) =~= rows_of(
                all,
                list,
                first.len() + m,
            ).push((first.len() + m) as usize));
        } else {
            assert(shifted_now =~= shifted);
        }
        assert(rows_of(all, list, first.len() + n) =~= rows_of(first, list, first.len())
            + shifted_now);
    }
}

proof fn lemma_gathered_append<T>(source: Seq<T>, a: Seq<usize>, b: Seq<usize>, width: nat)
    ensures
        gathered_rows(source, a + b, width) == gathered_rows(source, a, width) + gathered_rows(
            source,
            b,
            width,
        ),
    decreases b.len(),
{
    if b.len() == 0 {
        assert(a + b =~= a);
        assert(gathered_rows(source, a, width) + gathered_rows(source, b, width)
            =~= gathered_rows(source, a, width));
    } else {
        lemma_gathered_append(source, a, b.drop_last(), width);
        assert((a + b).drop_last() =~= a + b.drop_last());
        assert(gathered_rows(source, a + b, width) =~= gathered_rows(source, a, width)
            + gathered_rows(source, b, width));
    }
}

proof fn lemma_gathered_shift<T>(
    first: Seq<T>,
    second: Seq<T>,
    offset: nat,
    rows: Seq<usize>,
    width: nat,
)
    requires
        first.len() == offset * width,
        forall|i: int| 0 <= i < rows.len() ==> (#[trigger] rows[i] + 1) * width <= second.len(),
        forall|i: int| 0 <= i < rows.len() ==> #[trigger] rows[i] + offset <= usize::MAX,
    ensures
        gathered_rows(
            first + second,
            Seq::new(rows.len(), |i: int| (rows[i] + offset) as usize),
            width,
        ) == gathered_rows(second, rows, width),
    decreases rows.len(),
{
    let shifted = Seq::new(rows.len(), |i: int| (rows[i] + offset) as usize);
    if rows.len() == 0 {
        assert(gathered_rows(first + second, shifted, width) =~= gathered_rows(
            second,
            rows,
            width,
        ));
    } else {
        let shorter = rows.drop_last();
        assert forall|i: int| 0 <= i < shorter.len() implies (#[trigger] shorter[i] + 1) * width
            <= second.len() && shorter[i] + offset <= usize::MAX by {
            assert(shorter[i] == rows[i]);
        }
        lemma_gathered_shift(first, second, offset, shorter, width);
        assert(shifted.drop_last() =~= Seq::new(
            shorter.len(),
            |i: int| (shorter[i] + offset) as usize,
        ));
        let row = rows.last() as int;
        let last = rows.len() - 1;
        assert((rows[last] + 1) * width <= second.len());
        assert((row + offset) * width == row * width + offset * width && (row + offset + 1) * width
            == (row + 1) * width + offset * width && 0 <= row * width && row * width <= (row + 1)
            * width) by (nonlinear_arith)
            requires
                row >= 0,
        ;
        assert((first + second).subrange((row + offset) * width, (row + offset + 1) * width)
            =~= second.subrange(row * width, (row + 1) * width));
    }
}

/// Adding rows in two batches leaves each list as adding them at once.
pub proof fn law_batches_append_the_same<T>(
    first_assignments: Seq<usize>,
    second_assignments: Seq<usize>,
    first: Seq<T>,
    second: Seq<T>,
    list: int,
    width: nat,
)
    requires
        first_assignments.len() + second_assignments.len() <= usize::MAX,
        first.len() == first_assignments.len() * width,
        second.len() == second_assignments.len() * width,
    ensures
        gathered_rows(
            first + second,
            rows_of(
                first_assignments + second_assignments,
                list,
                first_assignments.len() + second_assignments.len(),
            ),
            width,
        ) == gathered_rows(
            first,
            rows_of(first_assignments, list, first_assignments.len()),
            width,
        ) + gathered_rows(
            second,
            rows_of(second_assignments, list, second_assignments.len()),
            width,
        ),
{
    let n = first_assignments.len();
    let m = second_assignments.len();
    let a = rows_of(first_assignments, list, n);
    let b = rows_of(second_assignments, list, m);
    let shifted = Seq::new(b.len(), |i: int| (b[i] + n) as usize);
    lemma_rows_of_batches(first_assignments, second_assignments, list, m);
    lemma_gathered_append(first + second, a, shifted, width);
    crate::matching::lemma_picked(assigned_to(second_assignments, list), m);
    crate::matching::lemma_picked(assigned_to(first_assignments, list), n);
    assert forall|i: int| 0 <= i < b.len() implies (#[trigger] b[i] + 1) * width
        <= second.len() by {
        let row = b[i] as int;
        assert((row + 1) * width <= m * width) by (nonlinear_arith)
            requires
                row < m,
        ;
    }
    lemma_gathered_shift(first, second, n, b, width);
    assert forall|i: int| 0 <= i < a.len() implies (#[trigger] a[i] + 1) * width <= first.len() by {
        let row = a[i] as int;
        assert((row + 1) * width <= n * width) by (nonlinear_arith)
            requires
                row < n,
        ;
    }
    lemma_gathered_prefix(first, second, a, width);
}

proof fn lemma_gathered_prefix<T>(first: Seq<T>, second: Seq<T>, rows: Seq<usize>, width: nat)
    requires
        forall|i: int| 0 <= i < rows.len() ==> (#[trigger] rows[i] + 1) * width <= first.len(),
    ensures
        gathered_rows(first + second, rows, width) == gathered_rows(first, rows, width),
    decreases rows.len(),
{
    if rows.len() > 0 {
        let shorter = rows.drop_last();
        assert forall|i: int| 0 <= i < shorter.len() implies (#[trigger] shorter[i] + 1) * width
            <= first.len() by {
            assert(shorter[i] == rows[i]);
        }
        lemma_gathered_prefix(first, second, shorter, width);
        let row = rows.last() as int;
        let last = rows.len() - 1;
        assert((rows[last] + 1) * width <= first.len());
        assert(0 <= row * width && row * width <= (row + 1) * width) by (nonlinear_arith)
            requires
                row >= 0,
        ;
        assert((first + second).subrange(row * width, (row + 1) * width) =~= first.subrange(
            row * width,
            (row + 1) * width,
        ));
    }
}

/// Appends each list's rows: `values` holds `width` values per assigned row.
pub fn append_to_lists<T: Copy>(
    lists: &mut Vec<Vec<T>>,
    values: &[T],
    groups: &Vec<Vec<usize>>,
    width: usize,
)
    requires
        groups@.len() == old(lists)@.len(),
        forall|l: int, i: int|
            0 <= l < groups@.len() && 0 <= i < groups@[l]@.len() ==> (#[trigger] groups@[l]@[i] + 1)
                * width <= values@.len(),
    ensures
        final(lists)@.len() == old(lists)@.len(),
        forall|l: int|
            0 <= l < final(lists)@.len() ==> (#[trigger] final(lists)@[l])@ == old(lists)@[l]@
                + gathered_rows(values@, groups@[l]@, width as nat),
{
    let mut l: usize = 0;
    while l < groups.len()
        invariant
            l <= groups@.len(),
            groups@.len() == lists@.len(),
            lists@.len() == old(lists)@.len(),
            forall|k: int, i: int|
                0 <= k < groups@.len() && 0 <= i < groups@[k]@.len() ==> (#[trigger] groups@[k]@[i]
                    + 1) * width <= values@.len(),
            forall|k: int|
                0 <= k < l ==> (#[trigger] lists@[k])@ == old(lists)@[k]@ + gathered_rows(
                    values@,
                    groups@[k]@,
                    width as nat,
                ),
            forall|k: int| l <= k < lists@.len() ==> (#[trigger] lists@[k]) == old(lists)@[k],
        decreases groups@.len() - l,
    {
        let mut list: Vec<T> = Vec::new();
        std::mem::swap(&mut list, &mut lists[l]);
        assert forall|i: int| 0 <= i < groups@[l as int]@.len() implies (
        #[trigger] groups@[l as int]@[i] + 1) * width <= values@.len() by {}
        append_rows(&mut list, values, groups[l].as_slice(), width);
        std::mem::swap(&mut list, &mut lists[l]);
        l = l + 1;
    }
}

} // verus!
