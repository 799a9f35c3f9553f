//! Field metadata of a struct that is stored column by column, and the
//! mathematical model of a value as the byte strings of its fields.
use vstd::prelude::*;

verus! {

/// Size and alignment of one field of a struct, in bytes.
#[derive(Clone, Copy, Debug, PartialEq, Eq, Structural)]
pub struct FieldLayout {
    pub size: usize,
    pub align: usize,
}

impl FieldLayout {
    /// The layout of the type `S`, as the compiler lays it out.
    pub fn of<S>() -> (layout: FieldLayout)
        ensures
            layout.size == core::mem::size_of::<S>(),
            layout.align == core::mem::align_of::<S>(),
    {
        FieldLayout { size: core::mem::size_of::<S>(), align: core::mem::align_of::<S>() }
    }
}

/// Describes how a struct with `N` fields is laid out: `LAYOUT[i]` and
/// `OFFSET[i]` are the layout of field `i` and its byte offset within the
/// struct's byte representation.
pub trait StructMetadata<const N: usize> {
    const LAYOUT: [FieldLayout; N];

    const OFFSET: [usize; N];
}

/// Conversion between a value and its byte representation: `size_of::<Self>()`
/// bytes, in which field `i` occupies the bytes `OFFSET[i] .. OFFSET[i] +
/// LAYOUT[i].size`.
///
/// An implementation promises, as the contracts below say, that the bytes of
/// the fields determine the value: `from_bytes` gives back the value whose
/// representation has those field bytes, where there is one.
pub trait ByteRepr<const N: usize>: StructMetadata<N> + Sized {
    /// The byte representation of `self`.
    fn to_bytes(&self) -> (bytes: Vec<u8>)
        ensures
            bytes@.len() == core::mem::size_of::<Self>(),
    ;

    /// The value whose byte representation has the field bytes of `bytes`.
    fn from_bytes(bytes: &[u8]) -> (value: Self)
        requires
            bytes@.len() == core::mem::size_of::<Self>(),
        ensures
            forall|other: Self, b: Vec<u8>|
                #[trigger] call_ensures(Self::to_bytes, (&other,), b) && record_of::<Self, N>(b@)
                    == record_of::<Self, N>(bytes@) ==> value == other,
    ;
}

/// `rec` is the record of the byte representation that `to_bytes` gives for
/// `value`.
pub open spec fn represents<T: ByteRepr<N>, const N: usize>(value: T, rec: Seq<Seq<u8>>) -> bool {
    exists|b: Vec<u8>|
        #[trigger] call_ensures(T::to_bytes, (&value,), b) && record_of::<T, N>(b@) == rec
}

/// `value` is what `from_bytes` built from a byte representation equal to `bytes`.
pub open spec fn decodes_to<T: ByteRepr<N>, const N: usize>(bytes: Seq<u8>, value: T) -> bool {
    exists|s: &[u8]| s@ == bytes && #[trigger] call_ensures(T::from_bytes, (s,), value)
}

/// Size of field `i`.
pub open spec fn field_size<T: StructMetadata<N>, const N: usize>(i: int) -> int {
    T::LAYOUT@[i].size as int
}

/// Alignment of field `i`.
pub open spec fn field_align<T: StructMetadata<N>, const N: usize>(i: int) -> int {
    T::LAYOUT@[i].align as int
}

/// Byte offset of field `i` within the struct.
pub open spec fn field_offset<T: StructMetadata<N>, const N: usize>(i: int) -> int {
    T::OFFSET@[i] as int
}

/// Size of the byte representation of a value of `T`.
pub open spec fn struct_size<T: StructMetadata<N>, const N: usize>() -> int {
    core::mem::size_of::<T>() as int
}

/// Every field has a nonzero size and a nonzero alignment, and lies within the struct.
pub open spec fn metadata_valid<T: StructMetadata<N>, const N: usize>() -> bool {
    forall|i: int|
        0 <= i < N ==> {
            &&& #[trigger] field_size::<T, N>(i) > 0
            &&& field_align::<T, N>(i) > 0
            &&& field_offset::<T, N>(i) + field_size::<T, N>(i) <= struct_size::<T, N>()
        }
}

/// Every field has a nonzero alignment (all that computing the memory
/// requirement needs).
pub open spec fn aligns_positive<T: StructMetadata<N>, const N: usize>() -> bool {
    forall|i: int| 0 <= i < N ==> #[trigger] field_align::<T, N>(i) > 0
}

/// Bytes needed to hold `capacity` elements of the first `k` fields, each
/// column padded to its alignment: the sum over `i < k` of
/// `capacity * size_i + align_i - 1`.
pub open spec fn memory_needed<T: StructMetadata<N>, const N: usize>(capacity: int, k: int) -> int
    decreases k,
{
    if k <= 0 {
        0
    } else {
        memory_needed::<T, N>(capacity, k - 1) + capacity * field_size::<T, N>(k - 1)
            + field_align::<T, N>(k - 1) - 1
    }
}

/// Bytes needed to hold `capacity` elements of all fields.
pub open spec fn memory_requirement_spec<T: StructMetadata<N>, const N: usize>(
    capacity: int,
) -> int {
    memory_needed::<T, N>(capacity, N as int)
}

/// The bytes of field `i` within a byte representation.
pub open spec fn field_bytes<T: StructMetadata<N>, const N: usize>(bytes: Seq<u8>, i: int) -> Seq<
    u8,
> {
    bytes.subrange(field_offset::<T, N>(i), field_offset::<T, N>(i) + field_size::<T, N>(i))
}

/// A record: the bytes of each field of a value, field by field.
pub open spec fn record_of<T: StructMetadata<N>, const N: usize>(bytes: Seq<u8>) -> Seq<Seq<u8>> {
    Seq::new(N as nat, |i: int| field_bytes::<T, N>(bytes, i))
}

/// Position `p` of the byte representation belongs to field `i`.
pub open spec fn in_field<T: StructMetadata<N>, const N: usize>(i: int, p: int) -> bool {
    field_offset::<T, N>(i) <= p < field_offset::<T, N>(i) + field_size::<T, N>(i)
}

/// Position `p` belongs to one of the first `k` fields.
pub open spec fn covered_upto<T: StructMetadata<N>, const N: usize>(p: int, k: int) -> bool {
    exists|i: int| 0 <= i < k && #[trigger] in_field::<T, N>(i, p)
}

/// `buf` with `chunk` written at `pos`.
pub open spec fn write_at(buf: Seq<u8>, pos: int, chunk: Seq<u8>) -> Seq<u8> {
    buf.take(pos) + chunk + buf.skip(pos + chunk.len())
}

/// The byte representation assembled from the first `k` fields of a record:
/// a zeroed buffer of the struct's size, into which fields `0 .. k` are written
/// at their offsets, in order.
pub open spec fn assemble_upto<T: StructMetadata<N>, const N: usize>(
    rec: Seq<Seq<u8>>,
    k: int,
) -> Seq<u8>
    decreases k,
{
    if k <= 0 {
        Seq::new(struct_size::<T, N>() as nat, |p: int| 0u8)
    } else {
        write_at(assemble_upto::<T, N>(rec, k - 1), field_offset::<T, N>(k - 1), rec[k - 1])
    }
}

/// The byte representation assembled from all fields of a record.
pub open spec fn assemble<T: StructMetadata<N>, const N: usize>(rec: Seq<Seq<u8>>) -> Seq<u8> {
    assemble_upto::<T, N>(rec, N as int)
}

/// Valid metadata has positive alignments.
pub proof fn lemma_valid_aligns_positive<T: StructMetadata<N>, const N: usize>()
    requires
        metadata_valid::<T, N>(),
    ensures
        aligns_positive::<T, N>(),
{
    assert forall|i: int| 0 <= i < N implies #[trigger] field_align::<T, N>(i) > 0 by {
        assert(field_size::<T, N>(i) > 0);
    }
}

/// The partial sums of the memory requirement grow with the number of fields.
pub proof fn lemma_memory_needed_monotone<T: StructMetadata<N>, const N: usize>(
    capacity: int,
    j: int,
    k: int,
)
    requires
        aligns_positive::<T, N>(),
        0 <= capacity,
        0 <= j <= k <= N,
    ensures
        memory_needed::<T, N>(capacity, j) <= memory_needed::<T, N>(capacity, k),
        0 <= memory_needed::<T, N>(capacity, j),
    decreases k,
{
    if j < k {
        lemma_memory_needed_monotone::<T, N>(capacity, j, k - 1);
        assert(field_align::<T, N>(k - 1) > 0);
        let s = field_size::<T, N>(k - 1);
        assert(capacity * s >= 0) by (nonlinear_arith)
            requires
                capacity >= 0,
                s >= 0,
        ;
    } else if k > 0 {
        lemma_memory_needed_monotone::<T, N>(capacity, j - 1, k - 1);
        let s = field_size::<T, N>(k - 1);
        assert(field_align::<T, N>(k - 1) > 0);
        assert(capacity * s >= 0) by (nonlinear_arith)
            requires
                capacity >= 0,
                s >= 0,
        ;
    }
}

/// Assembling a record of the bytes `v` gives back, in every field, the bytes
/// of `v`: a position covered by one of the first `k` fields holds the byte of
/// `v` there, every other position holds zero.
pub proof fn lemma_assemble_upto_record<T: StructMetadata<N>, const N: usize>(v: Seq<u8>, k: int)
    requires
        metadata_valid::<T, N>(),
        v.len() == struct_size::<T, N>(),
        0 <= k <= N,
    ensures
        assemble_upto::<T, N>(record_of::<T, N>(v), k).len() == v.len(),
        forall|p: int|
            0 <= p < v.len() ==> #[trigger] assemble_upto::<T, N>(record_of::<T, N>(v), k)[p] == (
            if covered_upto::<T, N>(p, k) {
                v[p]
            } else {
                0u8
            }),
    decreases k,
{
    let rec = record_of::<T, N>(v);
    if k > 0 {
        lemma_assemble_upto_record::<T, N>(v, k - 1);
        let prev = assemble_upto::<T, N>(rec, k - 1);
        let off = field_offset::<T, N>(k - 1);
        let sz = field_size::<T, N>(k - 1);
        assert(field_size::<T, N>(k - 1) > 0);
        let chunk = rec[k - 1];
        assert(chunk == v.subrange(off, off + sz));
        let cur = assemble_upto::<T, N>(rec, k);
        assert(cur == write_at(prev, off, chunk));
        assert forall|p: int| 0 <= p < v.len() implies #[trigger] cur[p] == (
        if covered_upto::<T, N>(p, k) {
            v[p]
        } else {
            0u8
        }) by {
            if off <= p < off + sz {
                assert(cur[p] == chunk[p - off]);
                assert(in_field::<T, N>(k - 1, p));
            } else {
                assert(cur[p] == prev[p]);
                if covered_upto::<T, N>(p, k) {
                    let i = choose|i: int| 0 <= i < k && #[trigger] in_field::<T, N>(i, p);
                    assert(i != k - 1);
                    assert(0 <= i < k - 1 && in_field::<T, N>(i, p));
                }
            }
        }
    }
}

/// Assembling the record of a byte representation and taking its record again
/// gives the same record: what is stored field by field is read back.
pub proof fn lemma_record_of_assemble<T: StructMetadata<N>, const N: usize>(v: Seq<u8>)
    requires
        metadata_valid::<T, N>(),
        v.len() == struct_size::<T, N>(),
    ensures
        record_of::<T, N>(assemble::<T, N>(record_of::<T, N>(v))) == record_of::<T, N>(v),
{
    lemma_assemble_upto_record::<T, N>(v, N as int);
    let a = assemble::<T, N>(record_of::<T, N>(v));
    assert forall|i: int| 0 <= i < N implies #[trigger] field_bytes::<T, N>(a, i)
        == field_bytes::<T, N>(v, i) by {
        assert(field_size::<T, N>(i) > 0);
        let off = field_offset::<T, N>(i);
        let sz = field_size::<T, N>(i);
        assert forall|q: int| 0 <= q < sz implies field_bytes::<T, N>(a, i)[q]
            == field_bytes::<T, N>(v, i)[q] by {
            assert(a[off + q] == v[off + q]) by {
                assert(0 <= i < N && in_field::<T, N>(i, off + q));
            }
        }
        assert(field_bytes::<T, N>(a, i) =~= field_bytes::<T, N>(v, i));
    }
    assert(record_of::<T, N>(a) =~= record_of::<T, N>(v));
}

} // verus!
