//! Properties that relate the operations of `Soa` to one another, stated over
//! the models their contracts use.
use vstd::prelude::*;

use crate::metadata::{
    ByteRepr,
    StructMetadata,
    aligns_positive,
    assemble,
    field_align,
    field_size,
    memory_needed,
    memory_requirement_spec,
    lemma_record_of_assemble,
    metadata_valid,
    record_of,
    represents,
    struct_size,
};

verus! {

broadcast use vstd::multiset::group_multiset_axioms;

/// What `push_bytes` appends is read back: after pushing `bytes` onto the
/// elements `before`, the earlier elements are unchanged, and assembling the
/// new last element (what `get_copy_bytes` and `pop_bytes` give for it) has
/// the same field bytes as `bytes`.
pub proof fn law_read_after_push<T: StructMetadata<N>, const N: usize>(
    before: Seq<Seq<Seq<u8>>>,
    bytes: Seq<u8>,
)
    requires
        metadata_valid::<T, N>(),
        bytes.len() == struct_size::<T, N>(),
    ensures
        forall|k: int|
            0 <= k < before.len() ==> #[trigger] before.push(record_of::<T, N>(bytes))[k]
                == before[k],
        record_of::<T, N>(assemble::<T, N>(before.push(record_of::<T, N>(bytes))[before.len() as int]))
            == record_of::<T, N>(bytes),
{
    lemma_record_of_assemble::<T, N>(bytes);
}

/// What is read back of a pushed value is that value: `push(value)` leaves a
/// last element that `value` represents, and `get_copy`, `get_copies`, `pop`
/// and `swap_remove` give a value equal to every value that represents the
/// element they read.
pub proof fn law_value_read_after_push<T: ByteRepr<N>, const N: usize>(
    pushed: T,
    read: T,
    element: Seq<Seq<u8>>,
)
    requires
        represents::<T, N>(pushed, element),
        forall|other: T| #[trigger] represents::<T, N>(other, element) ==> read == other,
    ensures
        read == pushed,
{
}

/// Popping right after a push gives back the pushed element's field bytes and
/// leaves the elements as they were before the push.
pub proof fn law_pop_undoes_push<T: StructMetadata<N>, const N: usize>(
    before: Seq<Seq<Seq<u8>>>,
    bytes: Seq<u8>,
)
    requires
        metadata_valid::<T, N>(),
        bytes.len() == struct_size::<T, N>(),
    ensures
        before.push(record_of::<T, N>(bytes)).drop_last() == before,
        record_of::<T, N>(assemble::<T, N>(before.push(record_of::<T, N>(bytes)).last()))
            == record_of::<T, N>(bytes),
{
    lemma_record_of_assemble::<T, N>(bytes);
    assert(before.push(record_of::<T, N>(bytes)).drop_last() =~= before);
}

/// `swap_remove` loses and duplicates nothing: the elements left, together
/// with the removed one, are the elements there were before, and there is one
/// element fewer.
pub proof fn law_swap_remove_keeps_others<A>(elements: Seq<A>, index: int)
    requires
        0 <= index < elements.len(),
    ensures
        elements.update(index, elements.last()).drop_last().len() == elements.len() - 1,
        elements.update(index, elements.last()).drop_last().to_multiset().insert(elements[index])
            == elements.to_multiset(),
{
    let last = elements.last();
    let updated = elements.update(index, last);
    let rest = updated.drop_last();
    assert(updated =~= rest.push(last));
    vstd::seq_lib::to_multiset_build(rest, last);
    vstd::seq_lib::to_multiset_update(elements, index, last);
    vstd::seq_lib::to_multiset_contains(elements, elements[index]);
    let e = elements[index];
    let m = elements.to_multiset();
    assert(elements.contains(e));
    assert(m.count(e) > 0);
    assert(rest.to_multiset().insert(last) == m.insert(last).remove(e));
    assert forall|x: A| #[trigger] rest.to_multiset().insert(e).count(x) == m.count(x) by {
        assert(rest.to_multiset().insert(last).count(x) == m.insert(last).remove(e).count(x));
        if x == e {
            assert(m.insert(last).count(e) > 0);
        }
    }
    assert(rest.to_multiset().insert(e) =~= m);
}

/// After the bytes of field `field` of all elements are replaced by `column`
/// (what `get_mut_slice` allows), `get_slice` reads `column` back chunk by
/// chunk, and every other field is unchanged.
pub proof fn law_column_write_read_back<T: StructMetadata<N>, const N: usize>(
    before: Seq<Seq<Seq<u8>>>,
    field: int,
    column: Seq<u8>,
)
    requires
        0 <= field < N,
        column.len() == before.len() * field_size::<T, N>(field),
        forall|k: int| 0 <= k < before.len() ==> (#[trigger] before[k]).len() == N,
    ensures
        ({
            let s = field_size::<T, N>(field);
            let after = Seq::new(
                before.len(),
                |k: int| before[k].update(field, column.subrange(k * s, k * s + s)),
            );
            &&& after.len() == before.len()
            &&& forall|k: int|
                0 <= k < before.len() ==> #[trigger] after[k][field] == column.subrange(
                    k * s,
                    k * s + s,
                )
            &&& forall|k: int, j: int|
                0 <= k < before.len() && 0 <= j < N && j != field ==> #[trigger] after[k][j]
                    == before[k][j]
        }),
{
}

/// The sum of the sizes of the first `k` fields.
pub open spec fn field_sizes_sum<T: StructMetadata<N>, const N: usize>(k: int) -> int
    decreases k,
{
    if k <= 0 {
        0
    } else {
        field_sizes_sum::<T, N>(k - 1) + field_size::<T, N>(k - 1)
    }
}

/// `x` rounded up to a multiple of `a`.
pub open spec fn round_up(x: int, a: int) -> int {
    if x % a == 0 {
        x
    } else {
        x + (a - x % a)
    }
}

/// Where the first `k` columns of `capacity` elements end when they are
/// placed from address `base` on, each at the next multiple of its field's
/// alignment after the previous one.
pub open spec fn columns_end<T: StructMetadata<N>, const N: usize>(
    base: int,
    capacity: int,
    k: int,
) -> int
    decreases k,
{
    if k <= 0 {
        base
    } else {
        round_up(columns_end::<T, N>(base, capacity, k - 1), field_align::<T, N>(k - 1))
            + capacity * field_size::<T, N>(k - 1)
    }
}

proof fn lemma_partial_growth<T: StructMetadata<N>, const N: usize>(c1: int, c2: int, k: int)
    requires
        0 <= k <= N,
    ensures
        memory_needed::<T, N>(c2, k) - memory_needed::<T, N>(c1, k) == (c2 - c1)
            * field_sizes_sum::<T, N>(k),
    decreases k,
{
    if k > 0 {
        lemma_partial_growth::<T, N>(c1, c2, k - 1);
        let s = field_size::<T, N>(k - 1);
        let t = field_sizes_sum::<T, N>(k - 1);
        assert(c2 * s - c1 * s + (c2 - c1) * t == (c2 - c1) * (t + s)) by (nonlinear_arith);
    }
}

proof fn lemma_sizes_sum_nonnegative<T: StructMetadata<N>, const N: usize>(k: int)
    ensures
        field_sizes_sum::<T, N>(k) >= 0,
    decreases k,
{
    if k > 0 {
        lemma_sizes_sum_nonnegative::<T, N>(k - 1);
    }
}

/// The memory requirement grows with the capacity, by the sum of the field
/// sizes for every element more.
pub proof fn law_memory_requirement_grows<T: StructMetadata<N>, const N: usize>(c1: int, c2: int)
    requires
        0 <= c1 <= c2,
    ensures
        memory_requirement_spec::<T, N>(c2) - memory_requirement_spec::<T, N>(c1) == (c2 - c1)
            * field_sizes_sum::<T, N>(N as int),
        memory_requirement_spec::<T, N>(c1) <= memory_requirement_spec::<T, N>(c2),
{
    lemma_partial_growth::<T, N>(c1, c2, N as int);
    lemma_sizes_sum_nonnegative::<T, N>(N as int);
    let d = c2 - c1;
    let t = field_sizes_sum::<T, N>(N as int);
    assert(d * t >= 0) by (nonlinear_arith)
        requires
            d >= 0,
            t >= 0,
    ;
}

/// The memory requirement holds at least the fields' bytes of every element.
pub proof fn law_memory_requirement_covers_fields<T: StructMetadata<N>, const N: usize>(
    capacity: int,
)
    requires
        aligns_positive::<T, N>(),
        0 <= capacity,
    ensures
        memory_requirement_spec::<T, N>(capacity) >= capacity * field_sizes_sum::<T, N>(N as int),
{
    lemma_partial_growth::<T, N>(0, capacity, N as int);
    crate::metadata::lemma_memory_needed_monotone::<T, N>(0, N as int, N as int);
}

/// Placed from any address on, each column at the next multiple of its
/// field's alignment, the columns of `capacity` elements end within
/// `memory_requirement(capacity)` bytes of that address.
pub proof fn law_columns_fit_any_base<T: StructMetadata<N>, const N: usize>(
    base: int,
    capacity: int,
    k: int,
)
    requires
        aligns_positive::<T, N>(),
        0 <= base,
        0 <= capacity,
        0 <= k <= N,
    ensures
        base <= columns_end::<T, N>(base, capacity, k),
        columns_end::<T, N>(base, capacity, k) - base <= memory_needed::<T, N>(capacity, k),
    decreases k,
{
    if k > 0 {
        law_columns_fit_any_base::<T, N>(base, capacity, k - 1);
        let e = columns_end::<T, N>(base, capacity, k - 1);
        let a = field_align::<T, N>(k - 1);
        let s = field_size::<T, N>(k - 1);
        assert(a > 0);
        vstd::arithmetic::div_mod::lemma_fundamental_div_mod(e, a);
        assert(0 <= round_up(e, a) - e < a);
        assert(capacity * s >= 0) by (nonlinear_arith)
            requires
                capacity >= 0,
                s >= 0,
        ;
    }
}

} // verus!
