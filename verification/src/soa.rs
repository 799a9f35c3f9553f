//! The structure of arrays: one column of fixed-size byte chunks per field,
//! all columns in one buffer.
use vstd::prelude::*;

use core::marker::PhantomData;

use crate::bytes::{
    copy_from,
    copy_within,
    lemma_write_at_elsewhere,
    lemma_write_at_len,
    lemma_write_at_within,
    zeroed,
};
use crate::metadata::{
    ByteRepr,
    StructMetadata,
    aligns_positive,
    assemble,
    assemble_upto,
    decodes_to,
    field_align,
    field_bytes,
    field_offset,
    field_size,
    lemma_memory_needed_monotone,
    lemma_record_of_assemble,
    lemma_valid_aligns_positive,
    memory_needed,
    memory_requirement_spec,
    metadata_valid,
    record_of,
    represents,
    struct_size,
    write_at,
};

verus! {

/// Where chunk `k` of column `i` begins in the buffer.
pub open spec fn chunk_start<T: StructMetadata<N>, const N: usize>(
    starts: Seq<usize>,
    i: int,
    k: int,
) -> int {
    starts[i] + k * field_size::<T, N>(i)
}

/// Chunk `k` of column `i`: the bytes of field `i` of element `k`.
pub open spec fn column_chunk<T: StructMetadata<N>, const N: usize>(
    data: Seq<u8>,
    starts: Seq<usize>,
    i: int,
    k: int,
) -> Seq<u8> {
    data.subrange(
        chunk_start::<T, N>(starts, i, k),
        chunk_start::<T, N>(starts, i, k) + field_size::<T, N>(i),
    )
}

/// The columns, each `capacity` chunks long, lie one after another, in field
/// order, within a buffer of `len` bytes.
pub open spec fn columns_fit<T: StructMetadata<N>, const N: usize>(
    starts: Seq<usize>,
    capacity: int,
    len: int,
) -> bool {
    &&& starts.len() == N
    &&& forall|i: int| 0 <= i < N ==> #[trigger] starts[i] + capacity * field_size::<T, N>(i) <= len
    &&& forall|i: int, j: int|
        0 <= i < j < N ==> #[trigger] starts[i] + capacity * field_size::<T, N>(i)
            <= #[trigger] starts[j]
}

proof fn lemma_mul_bounds(k: int, cap: int, s: int)
    requires
        0 <= k < cap,
        0 <= s,
    ensures
        0 <= k * s,
        k * s + s <= cap * s,
{
    assert(0 <= k * s && k * s + s <= cap * s) by (nonlinear_arith)
        requires
            0 <= k < cap,
            0 <= s,
    ;
}

proof fn lemma_mul_le(a: int, b: int, s: int)
    requires
        0 <= a <= b,
        0 <= s,
    ensures
        0 <= a * s <= b * s,
{
    assert(0 <= a * s <= b * s) by (nonlinear_arith)
        requires
            0 <= a <= b,
            0 <= s,
    ;
}

/// A chunk lies within its column, and so within the buffer.
proof fn lemma_chunk_in_bounds<T: StructMetadata<N>, const N: usize>(
    starts: Seq<usize>,
    capacity: int,
    len: int,
    i: int,
    k: int,
)
    requires
        columns_fit::<T, N>(starts, capacity, len),
        0 <= i < N,
        0 <= k < capacity,
    ensures
        starts[i] <= chunk_start::<T, N>(starts, i, k),
        chunk_start::<T, N>(starts, i, k) + field_size::<T, N>(i) <= starts[i] + capacity
            * field_size::<T, N>(i),
        starts[i] + capacity * field_size::<T, N>(i) <= len,
{
    lemma_mul_bounds(k, capacity, field_size::<T, N>(i));
    assert(starts[i] + capacity * field_size::<T, N>(i) <= len);
}

/// Two different chunks do not overlap.
proof fn lemma_chunks_disjoint<T: StructMetadata<N>, const N: usize>(
    starts: Seq<usize>,
    capacity: int,
    len: int,
    i1: int,
    k1: int,
    i2: int,
    k2: int,
)
    requires
        columns_fit::<T, N>(starts, capacity, len),
        0 <= i1 < N,
        0 <= k1 < capacity,
        0 <= i2 < N,
        0 <= k2 < capacity,
        i1 != i2 || k1 != k2,
    ensures
        chunk_start::<T, N>(starts, i1, k1) + field_size::<T, N>(i1) <= chunk_start::<T, N>(
            starts,
            i2,
            k2,
        ) || chunk_start::<T, N>(starts, i2, k2) + field_size::<T, N>(i2) <= chunk_start::<T, N>(
            starts,
            i1,
            k1,
        ),
{
    lemma_chunk_in_bounds::<T, N>(starts, capacity, len, i1, k1);
    lemma_chunk_in_bounds::<T, N>(starts, capacity, len, i2, k2);
    if i1 == i2 {
        let s = field_size::<T, N>(i1);
        if k1 < k2 {
            lemma_mul_le(k1 + 1, k2, s);
            assert((k1 + 1) * s == k1 * s + s) by (nonlinear_arith);
        } else {
            lemma_mul_le(k2 + 1, k1, s);
            assert((k2 + 1) * s == k2 * s + s) by (nonlinear_arith);
        }
    } else if i1 < i2 {
        assert(starts[i1] + capacity * field_size::<T, N>(i1) <= starts[i2]);
    } else {
        assert(starts[i2] + capacity * field_size::<T, N>(i2) <= starts[i1]);
    }
}

/// Rounding `cur` up to a multiple of `a` adds less than `a`.
proof fn lemma_align_up(cur: int, a: int)
    requires
        0 <= cur,
        0 < a,
    ensures
        0 <= (if cur % a == 0 {
            0
        } else {
            a - cur % a
        }) < a,
        (cur + (if cur % a == 0 {
            0
        } else {
            a - cur % a
        })) % a == 0,
{
    vstd::arithmetic::div_mod::lemma_fundamental_div_mod(cur, a);
    let q = cur / a;
    if cur % a != 0 {
        assert(cur + (a - cur % a) == (q + 1) * a) by (nonlinear_arith)
            requires
                cur == a * q + cur % a,
        ;
        vstd::arithmetic::div_mod::lemma_mod_multiples_basic(q + 1, a);
    }
}

/// Slots `from .. to` all hold the record of the byte representation of one
/// value that `T::default()` gives.
pub open spec fn holds_default<T: ByteRepr<N> + Default, const N: usize>(
    slots: Seq<Seq<Seq<u8>>>,
    from: int,
    to: int,
) -> bool {
    exists|d: T|
        {
            &&& #[trigger] call_ensures(T::default, (), d)
            &&& forall|k: int| from <= k < to ==> represents::<T, N>(d, #[trigger] slots[k])
        }
}

/// Default-filled slots stay default-filled in any part of them that another
/// sequence of slots agrees on.
proof fn lemma_holds_default_agree<T: ByteRepr<N> + Default, const N: usize>(
    s1: Seq<Seq<Seq<u8>>>,
    s2: Seq<Seq<Seq<u8>>>,
    a: int,
    b: int,
    c: int,
    d: int,
)
    requires
        holds_default::<T, N>(s1, a, b),
        a <= c,
        d <= b,
        forall|k: int| c <= k < d ==> #[trigger] s2[k] == s1[k],
    ensures
        holds_default::<T, N>(s2, c, d),
{
    let dv = choose|dv: T|
        {
            &&& #[trigger] call_ensures(T::default, (), dv)
            &&& forall|k: int| a <= k < b ==> represents::<T, N>(dv, #[trigger] s1[k])
        };
    assert forall|k: int| c <= k < d implies represents::<T, N>(dv, #[trigger] s2[k]) by {
        assert(s1[k] == s2[k]);
    }
}

/// A structure of arrays: elements of `T`, stored field by field.
///
/// The buffer `data` holds one column per field; column `i` begins at byte
/// `starts[i]` and has room for `capacity` chunks of `LAYOUT[i].size` bytes.
/// The first `length` chunks of every column hold the elements.
#[derive(Debug)]
pub struct Soa<T, const N: usize> {
    starts: Vec<usize>,
    length: usize,
    capacity: usize,
    data: Vec<u8>,
    marker: PhantomData<T>,
}

impl<T: StructMetadata<N>, const N: usize> Soa<T, N> {
    /// The record held in slot `k`: chunk `k` of every column.
    pub closed spec fn slot(&self, k: int) -> Seq<Seq<u8>> {
        Seq::new(N as nat, |i: int| column_chunk::<T, N>(self.data@, self.starts@, i, k))
    }

    /// The records held in all `capacity` slots, used or not.
    pub closed spec fn slots(&self) -> Seq<Seq<Seq<u8>>> {
        Seq::new(self.capacity as nat, |k: int| self.slot(k))
    }

    /// What the invariant gives a caller: valid metadata, no more elements
    /// than slots, the elements are the first slots, and every slot holds one
    /// byte string per field, of that field's size.
    pub proof fn lemma_wf(&self)
        requires
            self.wf(),
        ensures
            metadata_valid::<T, N>(),
            self@.len() <= self.spec_capacity(),
            self.slots().len() == self.spec_capacity(),
            self@ == self.slots().take(self@.len() as int),
            forall|k: int| 0 <= k < self.spec_capacity() ==> (#[trigger] self.slots()[k]).len() == N,
            forall|k: int, i: int|
                0 <= k < self.spec_capacity() && 0 <= i < N ==> (#[trigger] self.slots()[k][i]).len()
                    == field_size::<T, N>(i),
    {
        assert forall|k: int, i: int|
            0 <= k < self.spec_capacity() && 0 <= i < N implies (#[trigger] self.slots()[k][i]).len()
                == field_size::<T, N>(i) by {
            lemma_chunk_in_bounds::<T, N>(
                self.starts@, self.capacity as int, self.data@.len() as int, i, k);
        }
        assert(self@ =~= self.slots().take(self@.len() as int));
    }

    /// Where column `i` begins in the buffer.
    pub closed spec fn column_start(&self, i: int) -> int {
        self.starts@[i] as int
    }

    /// The columns of a valid structure are aligned to their fields'
    /// alignments, lie one after another in field order without overlapping,
    /// and all fit in `memory_requirement(capacity)` bytes.
    pub proof fn law_columns_fit(&self)
        requires
            self.wf(),
        ensures
            forall|i: int|
                0 <= i < N ==> 0 <= #[trigger] self.column_start(i) && self.column_start(i)
                    % field_align::<T, N>(i) == 0,
            forall|i: int|
                0 <= i < N ==> #[trigger] self.column_start(i) + self.spec_capacity()
                    * field_size::<T, N>(i) <= memory_requirement_spec::<T, N>(
                    self.spec_capacity() as int,
                ),
            forall|i: int, j: int|
                0 <= i < j < N ==> #[trigger] self.column_start(i) + self.spec_capacity()
                    * field_size::<T, N>(i) <= #[trigger] self.column_start(j),
    {
    }

    /// How many elements fit before the buffer must grow.
    pub closed spec fn spec_capacity(&self) -> nat {
        self.capacity as nat
    }

    /// The invariant of the structure.
    pub closed spec fn wf(&self) -> bool {
        &&& metadata_valid::<T, N>()
        &&& self.length <= self.capacity
        &&& self.data@.len() == memory_requirement_spec::<T, N>(self.capacity as int)
        &&& memory_requirement_spec::<T, N>(self.capacity as int) < isize::MAX
        &&& columns_fit::<T, N>(self.starts@, self.capacity as int, self.data@.len() as int)
        &&& forall|i: int| 0 <= i < N ==> (#[trigger] self.starts@[i] as int) % field_align::<T, N>(i) == 0
    }

    /// `self` is `old` with the bytes of field `i` of all elements replaced by
    /// `column`, chunk by chunk.
    pub closed spec fn column_replaced(&self, old: Self, i: int, column: Seq<u8>) -> bool {
        &&& self.starts@ == old.starts@
        &&& self.length == old.length
        &&& self.capacity == old.capacity
        &&& self.data@ == old.data@.take(old.starts@[i] as int) + column + old.data@.skip(
            old.starts@[i] + old.length * field_size::<T, N>(i),
        )
    }

    /// Replacing the bytes of one field of all elements keeps the structure
    /// valid, sets that field of every element to its chunk of the new bytes,
    /// and leaves every other field as it was.
    pub proof fn lemma_column_replaced(old: Self, i: int)
        requires
            old.wf(),
            0 <= i < N,
        ensures
            forall|new: Self, column: Seq<u8>|
                #[trigger] new.column_replaced(old, i, column) && column.len() == old@.len()
                    * field_size::<T, N>(i) ==> {
                    &&& new.wf()
                    &&& new.spec_capacity() == old.spec_capacity()
                    &&& forall|k: int|
                        old@.len() <= k < old.spec_capacity() ==> #[trigger] new.slots()[k]
                            == old.slots()[k]
                    &&& new@ == Seq::new(
                        old@.len(),
                        |k: int|
                            old@[k].update(
                                i,
                                column.subrange(
                                    k * field_size::<T, N>(i),
                                    k * field_size::<T, N>(i) + field_size::<T, N>(i),
                                ),
                            ),
                    )
                },
    {
        assert forall|new: Self, column: Seq<u8>|
            #[trigger] new.column_replaced(old, i, column) && column.len() == old@.len()
                * field_size::<T, N>(i) implies {
            &&& new.wf()
            &&& new.spec_capacity() == old.spec_capacity()
            &&& forall|k: int|
                old@.len() <= k < old.spec_capacity() ==> #[trigger] new.slots()[k]
                    == old.slots()[k]
            &&& new@ == Seq::new(
                old@.len(),
                |k: int|
                    old@[k].update(
                        i,
                        column.subrange(
                            k * field_size::<T, N>(i),
                            k * field_size::<T, N>(i) + field_size::<T, N>(i),
                        ),
                    ),
            )
        } by {
            let s = field_size::<T, N>(i);
            let st = old.starts@;
            let d = old.data@;
            let a = st[i] as int;
            lemma_mul_le(old.length as int, old.capacity as int, s);
            assert(st[i] + old.capacity * s <= d.len());
            assert(new.data@ == write_at(d, a, column));
            lemma_write_at_len(d, a, column);
            let expected = Seq::new(
                old@.len(),
                |k: int| old@[k].update(i, column.subrange(k * s, k * s + s)),
            );
            assert forall|k: int| 0 <= k < old.length implies #[trigger] new@[k] == expected[k] by {
                assert forall|i2: int| 0 <= i2 < N implies #[trigger] new.slot(k)[i2]
                    == expected[k][i2] by {
                    let s2 = field_size::<T, N>(i2);
                    lemma_chunk_in_bounds::<T, N>(st, old.capacity as int, d.len() as int, i2, k);
                    if i2 == i {
                        lemma_mul_bounds(k, old.length as int, s);
                        lemma_write_at_within(d, a, column, k * s, k * s + s);
                    } else {
                        lemma_write_at_elsewhere(d, a, column, chunk_start::<T, N>(st, i2, k),
                            chunk_start::<T, N>(st, i2, k) + s2);
                        assert(new.slot(k)[i2] == old.slot(k)[i2]);
                    }
                }
                assert(new.slot(k) =~= expected[k]);
            }
            assert(new@ =~= expected);
            assert forall|k: int| old.length <= k < old.capacity implies #[trigger] new.slots()[k]
                == old.slots()[k] by {
                assert forall|i2: int| 0 <= i2 < N implies #[trigger] new.slot(k)[i2]
                    == old.slot(k)[i2] by {
                    let s2 = field_size::<T, N>(i2);
                    lemma_chunk_in_bounds::<T, N>(st, old.capacity as int, d.len() as int, i2, k);
                    if i2 == i {
                        lemma_mul_le(old.length as int, k, s);
                    } else if i2 < i {
                        assert(st[i2] + old.capacity * s2 <= st[i]);
                    } else {
                        assert(st[i] + old.capacity * s <= st[i2]);
                    }
                    lemma_write_at_elsewhere(d, a, column, chunk_start::<T, N>(st, i2, k),
                        chunk_start::<T, N>(st, i2, k) + s2);
                }
                assert(new.slot(k) =~= old.slot(k));
            }
        }
    }
}

impl<T: StructMetadata<N>, const N: usize> View for Soa<T, N> {
    type V = Seq<Seq<Seq<u8>>>;

    /// The elements, in order, each as the record of its fields' bytes.
    closed spec fn view(&self) -> Seq<Seq<Seq<u8>>> {
        Seq::new(self.length as nat, |k: int| self.slot(k))
    }
}

impl<T: ByteRepr<N> + Copy + Default, const N: usize> Soa<T, N> {
    /// An empty structure with room for `capacity` elements, every slot set to
    /// the fields of `T::default()`.
    pub fn new(capacity: usize) -> (soa: Self)
        requires
            metadata_valid::<T, N>(),
            memory_requirement_spec::<T, N>(capacity as int) < isize::MAX,
        ensures
            soa.wf(),
            soa@ == Seq::<Seq<Seq<u8>>>::empty(),
            soa.spec_capacity() == capacity,
            holds_default::<T, N>(soa.slots(), 0, capacity as int),
    {
        proof {
            lemma_valid_aligns_positive::<T, N>();
        }
        let total = Self::memory_requirement(capacity);
        let mut data = zeroed(total);
        let mut starts: Vec<usize> = Vec::new();
        let mut cur: usize = 0;
        let mut i: usize = 0;
        while i < N
            invariant
                i <= N,
                metadata_valid::<T, N>(),
                aligns_positive::<T, N>(),
                memory_requirement_spec::<T, N>(capacity as int) < isize::MAX,
                total == memory_requirement_spec::<T, N>(capacity as int),
                starts@.len() == i,
                cur <= memory_needed::<T, N>(capacity as int, i as int),
                forall|j: int|
                    0 <= j < i ==> #[trigger] starts@[j] + capacity * field_size::<T, N>(j) <= cur,
                forall|j1: int, j2: int|
                    0 <= j1 < j2 < i ==> #[trigger] starts@[j1] + capacity * field_size::<T, N>(j1)
                        <= #[trigger] starts@[j2],
                forall|j: int| 0 <= j < i ==> (#[trigger] starts@[j] as int) % field_align::<T, N>(j) == 0,
            decreases N - i,
        {
            let layout = T::LAYOUT[i];
            proof {
                assert(field_size::<T, N>(i as int) > 0);
                lemma_align_up(cur as int, layout.align as int);
                lemma_memory_needed_monotone::<T, N>(capacity as int, i + 1, N as int);
                lemma_mul_le(0, capacity as int, layout.size as int);
            }
            let rem = cur % layout.align;
            let pad = if rem == 0 {
                0
            } else {
                layout.align - rem
            };
            let start = cur + pad;
            starts.push(start);
            cur = start + capacity * layout.size;
            i = i + 1;
        }
        proof {
            lemma_memory_needed_monotone::<T, N>(capacity as int, N as int, N as int);
            assert(columns_fit::<T, N>(starts@, capacity as int, total as int));
        }
        let default_value = T::default();
        let bytes = default_value.to_bytes();
        let mut i: usize = 0;
        while i < N
            invariant
                i <= N,
                metadata_valid::<T, N>(),
                data@.len() == total,
                bytes@.len() == struct_size::<T, N>(),
                columns_fit::<T, N>(starts@, capacity as int, total as int),
                forall|i2: int, k2: int|
                    0 <= i2 < i && 0 <= k2 < capacity ==> #[trigger] column_chunk::<T, N>(
                        data@,
                        starts@,
                        i2,
                        k2,
                    ) == field_bytes::<T, N>(bytes@, i2),
            decreases N - i,
        {
            let size = T::LAYOUT[i].size;
            let offset = T::OFFSET[i];
            let start = starts[i];
            proof {
                assert(field_size::<T, N>(i as int) > 0);
            }
            let mut k: usize = 0;
            while k < capacity
                invariant
                    i < N,
                    k <= capacity,
                    metadata_valid::<T, N>(),
                    data@.len() == total,
                    bytes@.len() == struct_size::<T, N>(),
                    columns_fit::<T, N>(starts@, capacity as int, total as int),
                    size == field_size::<T, N>(i as int),
                    offset == field_offset::<T, N>(i as int),
                    start == starts@[i as int],
                    offset + size <= bytes@.len(),
                    forall|i2: int, k2: int|
                        (0 <= i2 < i && 0 <= k2 < capacity) || (i2 == i && 0 <= k2 < k)
                            ==> #[trigger] column_chunk::<T, N>(data@, starts@, i2, k2)
                            == field_bytes::<T, N>(bytes@, i2),
                decreases capacity - k,
            {
                proof {
                    lemma_chunk_in_bounds::<T, N>(starts@, capacity as int, total as int, i as int, k as int);
                }
                let pos = start + k * size;
                let ghost before = data@;
                copy_from(&mut data, pos, bytes.as_slice(), offset, size);
                proof {
                    let chunk = bytes@.subrange(offset as int, offset + size);
                    lemma_write_at_within(before, pos as int, chunk, 0, size as int);
                    assert(chunk.subrange(0, size as int) =~= chunk);
                    assert forall|i2: int, k2: int|
                        (0 <= i2 < i && 0 <= k2 < capacity) || (i2 == i && 0 <= k2 < k + 1)
                        implies #[trigger] column_chunk::<T, N>(data@, starts@, i2, k2)
                            == field_bytes::<T, N>(bytes@, i2) by {
                        if i2 != i || k2 != k {
                            lemma_chunks_disjoint::<T, N>(
                                starts@, capacity as int, total as int, i2, k2, i as int, k as int);
                            lemma_chunk_in_bounds::<T, N>(starts@, capacity as int, total as int, i2, k2);
                            lemma_write_at_elsewhere(before, pos as int, chunk,
                                chunk_start::<T, N>(starts@, i2, k2),
                                chunk_start::<T, N>(starts@, i2, k2) + field_size::<T, N>(i2));
                            assert(column_chunk::<T, N>(before, starts@, i2, k2)
                                == field_bytes::<T, N>(bytes@, i2));
                        }
                    }
                }
                k = k + 1;
            }
            i = i + 1;
        }
        let soa = Soa { starts, length: 0, capacity, data, marker: PhantomData };
        proof {
            assert forall|k: int| 0 <= k < capacity implies represents::<T, N>(
                default_value,
                #[trigger] soa.slots()[k],
            ) by {
                assert(soa.slots()[k] =~= record_of::<T, N>(bytes@));
            }
            assert(holds_default::<T, N>(soa.slots(), 0, capacity as int));
            assert(soa@ =~= Seq::<Seq<Seq<u8>>>::empty());
        }
        soa
    }

    /// The number of elements.
    pub fn len(&self) -> (n: usize)
        ensures
            n == self@.len(),
    {
        self.length
    }

    /// Whether there are no elements.
    pub fn is_empty(&self) -> (empty: bool)
        ensures
            empty == (self@.len() == 0),
    {
        self.len() == 0
    }

    /// How many elements fit before the buffer must grow.
    pub fn capacity(&self) -> (c: usize)
        ensures
            c == self.spec_capacity(),
    {
        self.capacity
    }

    /// Where column `i` begins in the buffer, in bytes.
    pub fn column_offset(&self, i: usize) -> (start: usize)
        requires
            self.wf(),
            i < N,
        ensures
            start == self.column_start(i as int),
    {
        self.starts[i]
    }

    /// Exchanges the contents of two structures.
    pub fn swap(&mut self, other: &mut Self)
        ensures
            *final(self) == *old(other),
            *final(other) == *old(self),
    {
        core::mem::swap(self, other);
    }

    /// The byte representation assembled from the fields held in slot `index`
    /// (element `index` when it is below the length, otherwise whatever the
    /// slot last held): zero bytes where no field lies, the slot's field bytes
    /// at their offsets.
    pub fn get_copy_bytes(&self, index: usize) -> (bytes: Vec<u8>)
        requires
            self.wf(),
            index < self.spec_capacity(),
        ensures
            bytes@ == assemble::<T, N>(self.slots()[index as int]),
            bytes@.len() == struct_size::<T, N>(),
    {
        let ghost rec = self.slots()[index as int];
        let mut buf = zeroed(core::mem::size_of::<T>());
        proof {
            assert(buf@ =~= assemble_upto::<T, N>(rec, 0));
        }
        let mut i: usize = 0;
        while i < N
            invariant
                i <= N,
                self.wf(),
                index < self.capacity,
                rec == self.slot(index as int),
                buf@ == assemble_upto::<T, N>(rec, i as int),
                buf@.len() == struct_size::<T, N>(),
            decreases N - i,
        {
            let size = T::LAYOUT[i].size;
            let offset = T::OFFSET[i];
            proof {
                assert(field_size::<T, N>(i as int) > 0);
                lemma_chunk_in_bounds::<T, N>(
                    self.starts@, self.capacity as int, self.data@.len() as int, i as int, index as int);
            }
            let pos = self.starts[i] + index * size;
            let ghost before = buf@;
            copy_from(&mut buf, offset, self.data.as_slice(), pos, size);
            proof {
                assert(rec[i as int] == column_chunk::<T, N>(self.data@, self.starts@, i as int, index as int));
                lemma_write_at_len(before, offset as int, rec[i as int]);
            }
            i = i + 1;
        }
        buf
    }

    /// Moves the elements into a new buffer of twice the capacity.
    fn grow(&mut self)
        requires
            old(self).wf(),
            old(self).length == old(self).capacity,
            old(self).capacity > 0,
            2 * old(self).capacity <= usize::MAX,
            memory_requirement_spec::<T, N>(2 * old(self).capacity) < isize::MAX,
        ensures
            final(self).wf(),
            final(self)@ == old(self)@,
            final(self).length == old(self).length,
            final(self).capacity == 2 * old(self).capacity,
            forall|k: int|
                0 <= k < old(self).capacity ==> #[trigger] final(self).slots()[k]
                    == old(self).slots()[k],
            holds_default::<T, N>(
                final(self).slots(),
                old(self).capacity as int,
                2 * old(self).capacity,
            ),
    {
        let mut soa = Self::new(2 * self.capacity);
        let ghost cap2 = 2 * self.capacity;
        let ghost fresh = soa.data@;
        let ghost fresh_slots = soa.slots();
        assert(soa.length == soa@.len());
        let mut i: usize = 0;
        while i < N
            invariant
                i <= N,
                self.wf(),
                self.length == self.capacity,
                cap2 == 2 * self.capacity,
                soa.wf(),
                soa.length == 0,
                soa.capacity == cap2,
                forall|i2: int, k: int|
                    0 <= i2 < N && self.length <= k < cap2 ==> #[trigger] column_chunk::<T, N>(
                        soa.data@,
                        soa.starts@,
                        i2,
                        k,
                    ) == column_chunk::<T, N>(fresh, soa.starts@, i2, k),
                forall|k: int| 0 <= k < cap2 ==> #[trigger] fresh_slots[k] == Seq::new(
                    N as nat,
                    |i2: int| column_chunk::<T, N>(fresh, soa.starts@, i2, k),
                ),
                forall|i2: int, k: int|
                    0 <= i2 < i && 0 <= k < self.length ==> #[trigger] column_chunk::<T, N>(
                        soa.data@,
                        soa.starts@,
                        i2,
                        k,
                    ) == column_chunk::<T, N>(self.data@, self.starts@, i2, k),
            decreases N - i,
        {
            let size = T::LAYOUT[i].size;
            proof {
                lemma_mul_le(self.length as int, cap2, size as int);
                assert(soa.starts@[i as int] + cap2 * field_size::<T, N>(i as int) <= soa.data@.len());
                assert(self.starts@[i as int] + self.capacity * field_size::<T, N>(i as int)
                    <= self.data@.len());
            }
            let n = self.length * size;
            let src = self.starts[i];
            let dst = soa.starts[i];
            let ghost before = soa.data@;
            let ghost region = self.data@.subrange(src as int, src + n);
            copy_from(&mut soa.data, dst, self.data.as_slice(), src, n);
            proof {
                lemma_write_at_len(before, dst as int, region);
                assert forall|i2: int, k: int|
                    0 <= i2 < i + 1 && 0 <= k < self.length implies #[trigger] column_chunk::<T, N>(
                        soa.data@,
                        soa.starts@,
                        i2,
                        k,
                    ) == column_chunk::<T, N>(self.data@, self.starts@, i2, k) by {
                    let s2 = field_size::<T, N>(i2);
                    lemma_mul_bounds(k, self.length as int, s2);
                    lemma_chunk_in_bounds::<T, N>(soa.starts@, cap2, soa.data@.len() as int, i2, k);
                    if i2 == i {
                        assert(n == self.length * s2);
                        lemma_write_at_within(before, dst as int, region, k * s2, k * s2 + s2);
                        assert(region.subrange(k * s2, k * s2 + s2) =~= column_chunk::<T, N>(
                            self.data@,
                            self.starts@,
                            i2,
                            k,
                        ));
                    } else {
                        assert(soa.starts@[i2] + cap2 * s2 <= soa.starts@[i as int]);
                        lemma_write_at_elsewhere(before, dst as int, region,
                            chunk_start::<T, N>(soa.starts@, i2, k),
                            chunk_start::<T, N>(soa.starts@, i2, k) + s2);
                        assert(column_chunk::<T, N>(before, soa.starts@, i2, k)
                            == column_chunk::<T, N>(self.data@, self.starts@, i2, k));
                    }
                }
                assert forall|i2: int, k: int|
                    0 <= i2 < N && self.length <= k < cap2 implies #[trigger] column_chunk::<T, N>(
                        soa.data@,
                        soa.starts@,
                        i2,
                        k,
                    ) == column_chunk::<T, N>(fresh, soa.starts@, i2, k) by {
                    let s2 = field_size::<T, N>(i2);
                    lemma_chunk_in_bounds::<T, N>(soa.starts@, cap2, soa.data@.len() as int, i2, k);
                    lemma_chunk_in_bounds::<T, N>(soa.starts@, cap2, soa.data@.len() as int, i as int, 0);
                    if i2 == i {
                        lemma_mul_le(self.length as int, k, s2);
                    } else if i2 < i {
                        assert(soa.starts@[i2] + cap2 * s2 <= soa.starts@[i as int]);
                    } else {
                        assert(soa.starts@[i as int] + cap2 * field_size::<T, N>(i as int)
                            <= soa.starts@[i2]);
                    }
                    lemma_write_at_elsewhere(before, dst as int, region,
                        chunk_start::<T, N>(soa.starts@, i2, k),
                        chunk_start::<T, N>(soa.starts@, i2, k) + s2);
                    assert(column_chunk::<T, N>(before, soa.starts@, i2, k)
                        == column_chunk::<T, N>(fresh, soa.starts@, i2, k));
                }
            }
            i = i + 1;
        }
        soa.length = self.length;
        proof {
            assert(soa@ =~= self@) by {
                assert forall|k: int| 0 <= k < self.length implies soa@[k] == self@[k] by {
                    assert(soa.slot(k) =~= self.slot(k));
                }
            }
            assert forall|k: int| 0 <= k < self.capacity implies #[trigger] soa.slots()[k]
                == self.slots()[k] by {
                assert(soa.slot(k) =~= self.slot(k));
            }
            assert forall|k: int| self.capacity <= k < cap2 implies #[trigger] soa.slots()[k]
                == fresh_slots[k] by {
                assert(soa.slot(k) =~= fresh_slots[k]);
            }
            lemma_holds_default_agree::<T, N>(fresh_slots, soa.slots(), 0, cap2,
                self.capacity as int, cap2);
        }
        self.swap(&mut soa);
    }

    /// Appends the element whose byte representation is `bytes`, first doubling
    /// the capacity when the structure is full.
    pub fn push_bytes(&mut self, bytes: &[u8])
        requires
            old(self).wf(),
            bytes@.len() == struct_size::<T, N>(),
            old(self)@.len() == old(self).spec_capacity() ==> {
                &&& old(self).spec_capacity() > 0
                &&& 2 * old(self).spec_capacity() <= usize::MAX
                &&& memory_requirement_spec::<T, N>(2 * old(self).spec_capacity() as int) < isize::MAX
            },
        ensures
            final(self).wf(),
            final(self)@ == old(self)@.push(record_of::<T, N>(bytes@)),
            final(self).spec_capacity() == if old(self)@.len() < old(self).spec_capacity() {
                old(self).spec_capacity()
            } else {
                2 * old(self).spec_capacity()
            },
            old(self)@.len() < old(self).spec_capacity() ==> final(self).slots() == old(
                self,
            ).slots().update(old(self)@.len() as int, record_of::<T, N>(bytes@)),
            old(self)@.len() < old(self).spec_capacity() ==> forall|i: int|
                0 <= i < N ==> #[trigger] final(self).column_start(i) == old(self).column_start(i),
            old(self)@.len() == old(self).spec_capacity() ==> {
                &&& final(self).slots().take(old(self)@.len() as int) == old(self).slots()
                &&& final(self).slots()[old(self)@.len() as int] == record_of::<T, N>(bytes@)
                &&& holds_default::<T, N>(
                    final(self).slots(),
                    old(self)@.len() as int + 1,
                    2 * old(self).spec_capacity() as int,
                )
            },
    {
        if self.length >= self.capacity {
            self.grow();
        }
        assert(self.length < self.capacity);
        let ghost mid_slots = self.slots();
        let ghost mid_starts = self.starts@;
        let ghost mid = self.data@;
        let ghost mid_view = self@;
        let ghost cap_after = self.capacity;
        let mut i: usize = 0;
        while i < N
            invariant
                i <= N,
                bytes@.len() == struct_size::<T, N>(),
                metadata_valid::<T, N>(),
                self.length < self.capacity,
                self.capacity == cap_after,
                self.starts@ == mid_starts,
                self.length == mid_view.len(),
                self.data@.len() == memory_requirement_spec::<T, N>(self.capacity as int),
                memory_requirement_spec::<T, N>(self.capacity as int) < isize::MAX,
                columns_fit::<T, N>(self.starts@, self.capacity as int, self.data@.len() as int),
                forall|j: int|
                    0 <= j < N ==> (#[trigger] self.starts@[j] as int) % field_align::<T, N>(j) == 0,
                forall|k: int| 0 <= k < self.length ==> mid_view[k] == Seq::new(N as nat, |i2: int| column_chunk::<T, N>(mid, self.starts@, i2, k)),
                forall|k: int| 0 <= k < self.capacity ==> #[trigger] mid_slots[k] == Seq::new(N as nat, |i2: int| column_chunk::<T, N>(mid, self.starts@, i2, k)),
                forall|i2: int, k: int|
                    0 <= i2 < N && 0 <= k < self.capacity && k != self.length ==> #[trigger] column_chunk::<T, N>(
                        self.data@,
                        self.starts@,
                        i2,
                        k,
                    ) == column_chunk::<T, N>(mid, self.starts@, i2, k),
                forall|i2: int|
                    0 <= i2 < i ==> #[trigger] column_chunk::<T, N>(
                        self.data@,
                        self.starts@,
                        i2,
                        self.length as int,
                    ) == field_bytes::<T, N>(bytes@, i2),
            decreases N - i,
        {
            let size = T::LAYOUT[i].size;
            let offset = T::OFFSET[i];
            proof {
                assert(field_size::<T, N>(i as int) > 0);
                lemma_chunk_in_bounds::<T, N>(
                    self.starts@, self.capacity as int, self.data@.len() as int, i as int, self.length as int);
            }
            let pos = self.starts[i] + self.length * size;
            let ghost before = self.data@;
            let ghost chunk = bytes@.subrange(offset as int, offset + size);
            copy_from(&mut self.data, pos, bytes, offset, size);
            proof {
                lemma_write_at_len(before, pos as int, chunk);
                lemma_write_at_within(before, pos as int, chunk, 0, size as int);
                assert(chunk.subrange(0, size as int) =~= chunk);
                assert forall|i2: int, k: int|
                    (0 <= i2 < N && 0 <= k < self.capacity && k != self.length) || (0 <= i2 < i && k == self.length)
                    implies #[trigger] column_chunk::<T, N>(self.data@, self.starts@, i2, k)
                        == column_chunk::<T, N>(before, self.starts@, i2, k) by {
                    lemma_chunks_disjoint::<T, N>(self.starts@, self.capacity as int,
                        self.data@.len() as int, i2, k, i as int, self.length as int);
                    lemma_chunk_in_bounds::<T, N>(self.starts@, self.capacity as int,
                        self.data@.len() as int, i2, k);
                    lemma_write_at_elsewhere(before, pos as int, chunk,
                        chunk_start::<T, N>(self.starts@, i2, k),
                        chunk_start::<T, N>(self.starts@, i2, k) + field_size::<T, N>(i2));
                }
                assert forall|i2: int| 0 <= i2 < i + 1 implies #[trigger] column_chunk::<T, N>(
                    self.data@,
                    self.starts@,
                    i2,
                    self.length as int,
                ) == field_bytes::<T, N>(bytes@, i2) by {
                    if i2 < i {
                        assert(column_chunk::<T, N>(before, self.starts@, i2, self.length as int)
                            == field_bytes::<T, N>(bytes@, i2));
                    }
                }
            }
            i = i + 1;
        }
        self.length = self.length + 1;
        proof {
            assert forall|k: int| 0 <= k < self.length implies #[trigger] self@[k]
                == mid_view.push(record_of::<T, N>(bytes@))[k] by {
                if k < self.length - 1 {
                    assert(self.slot(k) =~= mid_view[k]);
                } else {
                    assert(self.slot(k) =~= record_of::<T, N>(bytes@));
                }
            }
            assert(self@ =~= mid_view.push(record_of::<T, N>(bytes@)));
            let expected = mid_slots.update(self.length - 1, record_of::<T, N>(bytes@));
            assert forall|k: int| 0 <= k < self.capacity implies #[trigger] self.slots()[k]
                == expected[k] by {
                if k == self.length - 1 {
                    assert(self.slot(k) =~= record_of::<T, N>(bytes@));
                } else {
                    assert(self.slot(k) =~= mid_slots[k]);
                }
            }
            assert(self.slots() =~= expected);
            if old(self)@.len() == old(self).spec_capacity() {
                assert(self.slots().take(old(self)@.len() as int) =~= old(self).slots());
                lemma_holds_default_agree::<T, N>(mid_slots, self.slots(),
                    old(self).spec_capacity() as int, 2 * old(self).spec_capacity() as int,
                    old(self)@.len() as int + 1, 2 * old(self).spec_capacity() as int);
            }
        }
    }

    /// Removes the last element and gives its byte representation, or `None`
    /// when there are no elements.
    pub fn pop_bytes(&mut self) -> (bytes: Option<Vec<u8>>)
        requires
            old(self).wf(),
        ensures
            final(self).wf(),
            final(self).spec_capacity() == old(self).spec_capacity(),
            final(self).slots() == old(self).slots(),
            forall|i: int| 0 <= i < N ==> #[trigger] final(self).column_start(i)
                == old(self).column_start(i),
            old(self)@.len() == 0 ==> bytes is None && final(self)@ == old(self)@,
            old(self)@.len() > 0 ==> {
                &&& bytes matches Some(b) && b@ == assemble::<T, N>(old(self)@.last())
                    && b@.len() == struct_size::<T, N>()
                &&& final(self)@ == old(self)@.drop_last()
            },
    {
        if self.is_empty() {
            None
        } else {
            let bytes = self.get_copy_bytes(self.length - 1);
            let ghost before = self@;
            self.length = self.length - 1;
            proof {
                assert(self@ =~= before.drop_last());
            }
            Some(bytes)
        }
    }

    /// Removes element `index`, moving the last element into its place, and
    /// gives the removed element's byte representation.
    pub fn swap_remove_bytes(&mut self, index: usize) -> (bytes: Vec<u8>)
        requires
            old(self).wf(),
            index < old(self)@.len(),
        ensures
            final(self).wf(),
            final(self).spec_capacity() == old(self).spec_capacity(),
            forall|i: int| 0 <= i < N ==> #[trigger] final(self).column_start(i)
                == old(self).column_start(i),
            bytes@ == assemble::<T, N>(old(self)@[index as int]),
            bytes@.len() == struct_size::<T, N>(),
            final(self)@ == old(self)@.update(index as int, old(self)@.last()).drop_last(),
            final(self).slots() == old(self).slots().update(
                index as int,
                old(self).slots()[old(self)@.len() - 1],
            ),
    {
        if index == self.length - 1 {
            let ghost before = self@;
            let popped = self.pop_bytes();
            proof {
                assert(before.update(index as int, before.last()) =~= before);
                assert(old(self).slots().update(index as int, old(self).slots()[index as int])
                    =~= old(self).slots());
            }
            popped.unwrap()
        } else {
            let bytes = self.get_copy_bytes(index);
            let last = self.length - 1;
            let ghost orig = self.data@;
            let ghost orig_view = self@;
            let ghost cap = self.capacity;
            let mut i: usize = 0;
            while i < N
                invariant
                    i <= N,
                    metadata_valid::<T, N>(),
                    index < last,
                    last + 1 == self.length,
                    self.length <= self.capacity,
                    self.capacity == cap,
                    self.starts@ == old(self).starts@,
                    orig == old(self).data@,
                    cap == old(self).capacity,
                    orig_view.len() == self.length,
                    self.data@.len() == memory_requirement_spec::<T, N>(self.capacity as int),
                    memory_requirement_spec::<T, N>(self.capacity as int) < isize::MAX,
                    columns_fit::<T, N>(self.starts@, self.capacity as int, self.data@.len() as int),
                    forall|j: int|
                        0 <= j < N ==> (#[trigger] self.starts@[j] as int) % field_align::<T, N>(j)
                            == 0,
                    forall|k: int|
                        0 <= k < self.length ==> orig_view[k] == Seq::new(
                            N as nat,
                            |i2: int| column_chunk::<T, N>(orig, self.starts@, i2, k),
                        ),
                    forall|i2: int, k: int|
                        0 <= i2 < N && 0 <= k < self.capacity ==> #[trigger] column_chunk::<T, N>(
                            self.data@,
                            self.starts@,
                            i2,
                            k,
                        ) == if k == index && i2 < i {
                            column_chunk::<T, N>(orig, self.starts@, i2, last as int)
                        } else {
                            column_chunk::<T, N>(orig, self.starts@, i2, k)
                        },
                decreases N - i,
            {
                let size = T::LAYOUT[i].size;
                proof {
                    lemma_chunk_in_bounds::<T, N>(
                        self.starts@, self.capacity as int, self.data@.len() as int, i as int, last as int);
                    lemma_chunk_in_bounds::<T, N>(
                        self.starts@, self.capacity as int, self.data@.len() as int, i as int, index as int);
                    lemma_chunks_disjoint::<T, N>(self.starts@, self.capacity as int,
                        self.data@.len() as int, i as int, last as int, i as int, index as int);
                }
                let src = self.starts[i] + last * size;
                let dst = self.starts[i] + index * size;
                let ghost before = self.data@;
                let ghost chunk = before.subrange(src as int, src + size);
                copy_within(&mut self.data, src, dst, size);
                proof {
                    lemma_write_at_len(before, dst as int, chunk);
                    assert forall|i2: int, k: int|
                        0 <= i2 < N && 0 <= k < self.capacity implies #[trigger] column_chunk::<T, N>(
                            self.data@,
                            self.starts@,
                            i2,
                            k,
                        ) == if k == index && i2 < i + 1 {
                            column_chunk::<T, N>(orig, self.starts@, i2, last as int)
                        } else {
                            column_chunk::<T, N>(orig, self.starts@, i2, k)
                        } by {
                        if i2 == i && k == index {
                            lemma_write_at_within(before, dst as int, chunk, 0, size as int);
                            assert(chunk.subrange(0, size as int) =~= chunk);
                            assert(column_chunk::<T, N>(before, self.starts@, i2, last as int)
                                == column_chunk::<T, N>(orig, self.starts@, i2, last as int));
                        } else {
                            lemma_chunks_disjoint::<T, N>(self.starts@, self.capacity as int,
                                self.data@.len() as int, i2, k, i as int, index as int);
                            lemma_chunk_in_bounds::<T, N>(self.starts@, self.capacity as int,
                                self.data@.len() as int, i2, k);
                            lemma_write_at_elsewhere(before, dst as int, chunk,
                                chunk_start::<T, N>(self.starts@, i2, k),
                                chunk_start::<T, N>(self.starts@, i2, k) + field_size::<T, N>(i2));
                            assert(column_chunk::<T, N>(self.data@, self.starts@, i2, k)
                                == column_chunk::<T, N>(before, self.starts@, i2, k));
                        }
                    }
                }
                i = i + 1;
            }
            self.length = last;
            proof {
                let expected = orig_view.update(index as int, orig_view.last()).drop_last();
                assert forall|k: int| 0 <= k < self.length implies #[trigger] self@[k]
                    == expected[k] by {
                    if k == index {
                        assert(self.slot(k) =~= orig_view[last as int]);
                    } else {
                        assert(self.slot(k) =~= orig_view[k]);
                    }
                }
                assert(self@ =~= expected);
                let slots_expected = old(self).slots().update(
                    index as int,
                    old(self).slots()[last as int],
                );
                assert forall|k: int| 0 <= k < self.capacity implies #[trigger] self.slots()[k]
                    == slots_expected[k] by {
                    assert forall|i2: int| 0 <= i2 < N implies #[trigger] self.slot(k)[i2]
                        == slots_expected[k][i2] by {
                        assert(self.slot(k)[i2] == column_chunk::<T, N>(self.data@, self.starts@, i2, k));
                        assert(old(self).slot(k)[i2] == column_chunk::<T, N>(orig, self.starts@, i2, k));
                        assert(old(self).slot(last as int)[i2] == column_chunk::<T, N>(
                            orig, self.starts@, i2, last as int));
                    }
                    assert(self.slot(k) =~= slots_expected[k]);
                }
                assert(self.slots() =~= slots_expected);
            }
            bytes
        }
    }

    /// The value `from_bytes` builds from `bytes`, the representation
    /// assembled from the record `rec`.
    fn decode(bytes: Vec<u8>, Ghost(rec): Ghost<Seq<Seq<u8>>>) -> (value: T)
        requires
            metadata_valid::<T, N>(),
            bytes@ == assemble::<T, N>(rec),
            bytes@.len() == struct_size::<T, N>(),
        ensures
            decodes_to::<T, N>(bytes@, value),
            forall|other: T| #[trigger] represents::<T, N>(other, rec) ==> value == other,
    {
        let value = T::from_bytes(bytes.as_slice());
        proof {
            assert(decodes_to::<T, N>(bytes@, value));
            assert forall|other: T| #[trigger] represents::<T, N>(other, rec) implies value
                == other by {
                let b = choose|b: Vec<u8>|
                    #[trigger] call_ensures(T::to_bytes, (&other,), b) && record_of::<T, N>(b@)
                        == rec;
                lemma_record_of_assemble::<T, N>(b@);
                assert(represents::<T, N>(other, record_of::<T, N>(bytes@)));
            }
        }
        value
    }

    /// Appends `value`, first doubling the capacity when the structure is full.
    pub fn push(&mut self, value: &T)
        requires
            old(self).wf(),
            old(self)@.len() == old(self).spec_capacity() ==> {
                &&& old(self).spec_capacity() > 0
                &&& 2 * old(self).spec_capacity() <= usize::MAX
                &&& memory_requirement_spec::<T, N>(2 * old(self).spec_capacity() as int)
                    < isize::MAX
            },
        ensures
            final(self).wf(),
            final(self)@ == old(self)@.push(final(self)@.last()),
            represents::<T, N>(*value, final(self)@.last()),
            final(self).spec_capacity() == if old(self)@.len() < old(self).spec_capacity() {
                old(self).spec_capacity()
            } else {
                2 * old(self).spec_capacity()
            },
            old(self)@.len() < old(self).spec_capacity() ==> {
                &&& final(self).slots() == old(self).slots().update(
                    old(self)@.len() as int,
                    final(self)@.last(),
                )
                &&& forall|i: int| 0 <= i < N ==> #[trigger] final(self).column_start(i)
                    == old(self).column_start(i)
            },
            old(self)@.len() == old(self).spec_capacity() ==> {
                &&& final(self).slots().take(old(self)@.len() as int) == old(self).slots()
                &&& final(self).slots()[old(self)@.len() as int] == final(self)@.last()
                &&& holds_default::<T, N>(
                    final(self).slots(),
                    old(self)@.len() as int + 1,
                    2 * old(self).spec_capacity() as int,
                )
            },
    {
        let bytes = value.to_bytes();
        self.push_bytes(bytes.as_slice());
        assert(represents::<T, N>(*value, record_of::<T, N>(bytes@)));
    }

    /// Removes the last element and gives it, or `None` when there are none.
    pub fn pop(&mut self) -> (value: Option<T>)
        requires
            old(self).wf(),
        ensures
            final(self).wf(),
            final(self).spec_capacity() == old(self).spec_capacity(),
            final(self).slots() == old(self).slots(),
            forall|i: int| 0 <= i < N ==> #[trigger] final(self).column_start(i)
                == old(self).column_start(i),
            old(self)@.len() == 0 ==> value is None && final(self)@ == old(self)@,
            old(self)@.len() > 0 ==> {
                &&& value matches Some(v) && decodes_to::<T, N>(
                    assemble::<T, N>(old(self)@.last()),
                    v,
                ) && forall|other: T| #[trigger] represents::<T, N>(other, old(self)@.last()) ==> v
                    == other
                &&& final(self)@ == old(self)@.drop_last()
            },
    {
        let ghost last = self@.last();
        match self.pop_bytes() {
            None => None,
            Some(bytes) => Some(Self::decode(bytes, Ghost(last))),
        }
    }

    /// Removes element `index`, moving the last element into its place, and
    /// gives the removed element.
    pub fn swap_remove(&mut self, index: usize) -> (value: T)
        requires
            old(self).wf(),
            index < old(self)@.len(),
        ensures
            final(self).wf(),
            final(self).spec_capacity() == old(self).spec_capacity(),
            forall|i: int| 0 <= i < N ==> #[trigger] final(self).column_start(i)
                == old(self).column_start(i),
            decodes_to::<T, N>(assemble::<T, N>(old(self)@[index as int]), value),
            forall|other: T| #[trigger] represents::<T, N>(other, old(self)@[index as int]) ==> value
                == other,
            final(self)@ == old(self)@.update(index as int, old(self)@.last()).drop_last(),
            final(self).slots() == old(self).slots().update(
                index as int,
                old(self).slots()[old(self)@.len() - 1],
            ),
    {
        self.swap_remove_unchecked(index)
    }

    /// As `swap_remove`; the caller guarantees that `index` is in bounds.
    pub fn swap_remove_unchecked(&mut self, index: usize) -> (value: T)
        requires
            old(self).wf(),
            index < old(self)@.len(),
        ensures
            final(self).wf(),
            final(self).spec_capacity() == old(self).spec_capacity(),
            forall|i: int| 0 <= i < N ==> #[trigger] final(self).column_start(i)
                == old(self).column_start(i),
            decodes_to::<T, N>(assemble::<T, N>(old(self)@[index as int]), value),
            forall|other: T| #[trigger] represents::<T, N>(other, old(self)@[index as int]) ==> value
                == other,
            final(self)@ == old(self)@.update(index as int, old(self)@.last()).drop_last(),
            final(self).slots() == old(self).slots().update(
                index as int,
                old(self).slots()[old(self)@.len() - 1],
            ),
    {
        let ghost removed = self@[index as int];
        let bytes = self.swap_remove_bytes(index);
        proof {
            self.lemma_wf();
        }
        Self::decode(bytes, Ghost(removed))
    }

    /// A copy of element `index`.
    pub fn get_copy(&self, index: usize) -> (value: T)
        requires
            self.wf(),
            index < self@.len(),
        ensures
            decodes_to::<T, N>(assemble::<T, N>(self@[index as int]), value),
            forall|other: T| #[trigger] represents::<T, N>(other, self@[index as int]) ==> value
                == other,
    {
        proof {
            assert(self@[index as int] == self.slots()[index as int]);
        }
        self.get_copy_unchecked(index)
    }

    /// A copy of what slot `index` holds: element `index` when `index` is below
    /// the length, otherwise the value the slot last held (the default value
    /// when nothing was ever stored there).
    pub fn get_copy_unchecked(&self, index: usize) -> (value: T)
        requires
            self.wf(),
            index < self.spec_capacity(),
        ensures
            decodes_to::<T, N>(assemble::<T, N>(self.slots()[index as int]), value),
            forall|other: T| #[trigger] represents::<T, N>(other, self.slots()[index as int])
                ==> value == other,
    {
        let ghost rec = self.slots()[index as int];
        let bytes = self.get_copy_bytes(index);
        proof {
            self.lemma_wf();
        }
        Self::decode(bytes, Ghost(rec))
    }

    /// Copies of all elements, in order.
    pub fn get_copies(&self) -> (values: Vec<T>)
        requires
            self.wf(),
        ensures
            values@.len() == self@.len(),
            forall|k: int|
                0 <= k < self@.len() ==> decodes_to::<T, N>(
                    assemble::<T, N>(self@[k]),
                    #[trigger] values@[k],
                ),
            forall|k: int, other: T|
                0 <= k < self@.len() && #[trigger] represents::<T, N>(other, self@[k])
                    ==> values@[k] == other,
    {
        let mut values: Vec<T> = Vec::new();
        let mut k: usize = 0;
        while k < self.length
            invariant
                self.wf(),
                k <= self.length,
                values@.len() == k,
                forall|j: int|
                    0 <= j < k ==> decodes_to::<T, N>(
                        assemble::<T, N>(self@[j]),
                        #[trigger] values@[j],
                    ),
                forall|j: int, other: T|
                    0 <= j < k && #[trigger] represents::<T, N>(other, self@[j]) ==> values@[j]
                        == other,
            decreases self.length - k,
        {
            values.push(self.get_copy(k));
            k = k + 1;
        }
        values
    }

    /// The bytes of field `I` of all elements: chunk `k` of the slice holds the
    /// bytes of field `I` of element `k`.
    pub fn get_slice<const I: usize>(&self) -> (column: &[u8])
        requires
            self.wf(),
            I < N,
        ensures
            column@.len() == self@.len() * field_size::<T, N>(I as int),
            forall|k: int|
                0 <= k < self@.len() ==> column@.subrange(
                    k * field_size::<T, N>(I as int),
                    k * field_size::<T, N>(I as int) + field_size::<T, N>(I as int),
                ) == #[trigger] self@[k][I as int],
    {
        let size = T::LAYOUT[I].size;
        proof {
            lemma_mul_le(self.length as int, self.capacity as int, size as int);
            assert(self.starts@[I as int] + self.capacity * field_size::<T, N>(I as int)
                <= self.data@.len());
        }
        let start = self.starts[I];
        let end = start + self.length * size;
        let column = &self.data.as_slice()[start..end];
        proof {
            let s = size as int;
            assert forall|k: int| 0 <= k < self@.len() implies column@.subrange(k * s, k * s + s)
                == #[trigger] self@[k][I as int] by {
                lemma_mul_bounds(k, self.length as int, s);
                assert(column@.subrange(k * s, k * s + s) =~= column_chunk::<T, N>(
                    self.data@,
                    self.starts@,
                    I as int,
                    k,
                ));
            }
        }
        column
    }

    /// The bytes of field `I` of all elements, to be changed in place. Once the
    /// borrow ends, field `I` of element `k` holds chunk `k` of the slice, and
    /// nothing else has changed.
    pub fn get_mut_slice<const I: usize>(&mut self) -> (column: &mut [u8])
        requires
            old(self).wf(),
            I < N,
        ensures
            column@.len() == old(self)@.len() * field_size::<T, N>(I as int),
            forall|k: int|
                0 <= k < old(self)@.len() ==> column@.subrange(
                    k * field_size::<T, N>(I as int),
                    k * field_size::<T, N>(I as int) + field_size::<T, N>(I as int),
                ) == #[trigger] old(self)@[k][I as int],
            final(self).column_replaced(*old(self), I as int, final(column)@),
            forall|i: int| 0 <= i < N ==> #[trigger] final(self).column_start(i)
                == old(self).column_start(i),
            final(column)@.len() == column@.len() ==> {
                &&& final(self).wf()
                &&& final(self).spec_capacity() == old(self).spec_capacity()
                &&& forall|k: int|
                    old(self)@.len() <= k < old(self).spec_capacity()
                        ==> #[trigger] final(self).slots()[k] == old(self).slots()[k]
                &&& final(self)@ == Seq::new(
                    old(self)@.len(),
                    |k: int|
                        old(self)@[k].update(
                            I as int,
                            final(column)@.subrange(
                                k * field_size::<T, N>(I as int),
                                k * field_size::<T, N>(I as int) + field_size::<T, N>(I as int),
                            ),
                        ),
                )
            },
    {
        let size = T::LAYOUT[I].size;
        proof {
            lemma_mul_le(self.length as int, self.capacity as int, size as int);
            assert(self.starts@[I as int] + self.capacity * field_size::<T, N>(I as int)
                <= self.data@.len());
        }
        let ghost d = self.data@;
        let ghost st = self.starts@;
        let ghost len = self.length;
        let ghost v = self@;
        proof {
            Self::lemma_column_replaced(*self, I as int);
        }
        let column = self.column_mut::<I>();
        proof {
            let s = size as int;
            assert forall|k: int| 0 <= k < len implies column@.subrange(k * s, k * s + s)
                == #[trigger] v[k][I as int] by {
                lemma_mul_bounds(k, len as int, s);
                assert(column@.subrange(k * s, k * s + s) =~= column_chunk::<T, N>(d, st, I as int, k));
            }
        }
        column
    }

    /// The bytes of column `I` that belong to elements, to be changed in place.
    fn column_mut<const I: usize>(&mut self) -> (column: &mut [u8])
        requires
            old(self).wf(),
            I < N,
        ensures
            column@ == old(self).data@.subrange(
                old(self).starts@[I as int] as int,
                old(self).starts@[I as int] + old(self).length * field_size::<T, N>(I as int),
            ),
            final(self).starts@ == old(self).starts@,
            final(self).length == old(self).length,
            final(self).capacity == old(self).capacity,
            final(self).data@ == old(self).data@.take(old(self).starts@[I as int] as int)
                + final(column)@ + old(self).data@.skip(
                old(self).starts@[I as int] + old(self).length * field_size::<T, N>(I as int),
            ),
    {
        let size = T::LAYOUT[I].size;
        proof {
            lemma_mul_le(self.length as int, self.capacity as int, size as int);
            assert(self.starts@[I as int] + self.capacity * field_size::<T, N>(I as int)
                <= self.data@.len());
        }
        let start = self.starts[I];
        let n = self.length * size;
        let all = self.data.as_mut_slice();
        let (_head, rest) = all.split_at_mut(start);
        let (column, _tail) = rest.split_at_mut(n);
        column
    }

    /// Bytes of buffer needed for `capacity` elements: for every field, room
    /// for `capacity` values and up to `align - 1` bytes of padding.
    pub fn memory_requirement(capacity: usize) -> (bytes: usize)
        requires
            aligns_positive::<T, N>(),
            memory_requirement_spec::<T, N>(capacity as int) <= usize::MAX,
        ensures
            bytes == memory_requirement_spec::<T, N>(capacity as int),
    {
        let mut total: usize = 0;
        let mut i: usize = 0;
        while i < N
            invariant
                i <= N,
                aligns_positive::<T, N>(),
                memory_requirement_spec::<T, N>(capacity as int) <= usize::MAX,
                total == memory_needed::<T, N>(capacity as int, i as int),
            decreases N - i,
        {
            proof {
                lemma_memory_needed_monotone::<T, N>(capacity as int, i as int, i + 1);
                lemma_memory_needed_monotone::<T, N>(capacity as int, i + 1, N as int);
                assert(field_align::<T, N>(i as int) > 0);
                lemma_mul_le(0, capacity as int, field_size::<T, N>(i as int));
            }
            let layout = T::LAYOUT[i];
            total = total + capacity * layout.size + (layout.align - 1);
            i = i + 1;
        }
        total
    }

}

} // verus!
