use structure_of_arrays::metadata::{ByteRepr, FieldLayout, StructMetadata};
use structure_of_arrays::soa::Soa;

#[derive(Debug, Clone, Copy, Default, PartialEq)]
struct Sphere {
    radius: f32,
    position: [f32; 3],
    tag: u64,
}

const RADIUS_AT: usize = 0;
const POSITION_AT: usize = 4;
const TAG_AT: usize = 16;

impl StructMetadata<3> for Sphere {
    const LAYOUT: [FieldLayout; 3] = [
        FieldLayout { size: std::mem::size_of::<f32>(), align: std::mem::align_of::<f32>() },
        FieldLayout { size: std::mem::size_of::<[f32; 3]>(), align: std::mem::align_of::<[f32; 3]>() },
        FieldLayout { size: std::mem::size_of::<u64>(), align: std::mem::align_of::<u64>() },
    ];

    const OFFSET: [usize; 3] = [RADIUS_AT, POSITION_AT, TAG_AT];
}

impl ByteRepr<3> for Sphere {
    fn to_bytes(&self) -> Vec<u8> {
        let mut bytes = vec![0u8; std::mem::size_of::<Self>()];
        bytes[RADIUS_AT..RADIUS_AT + 4].copy_from_slice(&self.radius.to_ne_bytes());
        for (j, p) in self.position.iter().enumerate() {
            let at = POSITION_AT + 4 * j;
            bytes[at..at + 4].copy_from_slice(&p.to_ne_bytes());
        }
        bytes[TAG_AT..TAG_AT + 8].copy_from_slice(&self.tag.to_ne_bytes());
        bytes
    }

    fn from_bytes(bytes: &[u8]) -> Self {
        let f = |at: usize| f32::from_ne_bytes(bytes[at..at + 4].try_into().unwrap());
        Sphere {
            radius: f(RADIUS_AT),
            position: [f(POSITION_AT), f(POSITION_AT + 4), f(POSITION_AT + 8)],
            tag: u64::from_ne_bytes(bytes[TAG_AT..TAG_AT + 8].try_into().unwrap()),
        }
    }
}

type SphereSoa = Soa<Sphere, 3>;

fn unit_sphere() -> Sphere {
    Sphere { radius: 1.0, position: [1.0, 2.0, 3.0], tag: 666 }
}

fn radii(soa: &SphereSoa) -> Vec<f32> {
    soa.get_slice::<0>().chunks(4).map(|c| f32::from_ne_bytes(c.try_into().unwrap())).collect()
}

fn positions(soa: &SphereSoa) -> Vec<[f32; 3]> {
    soa.get_slice::<1>()
        .chunks(12)
        .map(|c| {
            let f = |j: usize| f32::from_ne_bytes(c[4 * j..4 * j + 4].try_into().unwrap());
            [f(0), f(1), f(2)]
        })
        .collect()
}

fn tags(soa: &SphereSoa) -> Vec<u64> {
    soa.get_slice::<2>().chunks(8).map(|c| u64::from_ne_bytes(c.try_into().unwrap())).collect()
}

#[test]
fn mem_req1() {
    let mem_req = SphereSoa::memory_requirement(1);
    assert!(mem_req > std::mem::size_of::<Sphere>());
}

#[test]
fn mem_req2() {
    const N: usize = 256;
    let mem_req = SphereSoa::memory_requirement(N);
    assert!(mem_req > N * std::mem::size_of::<Sphere>());
}

#[test]
fn mem_req3() {
    const N: usize = 1 << 20;
    let mem_req = SphereSoa::memory_requirement(N);
    assert!(mem_req > N * std::mem::size_of::<Sphere>());
    println!("{}, {}", mem_req, N * std::mem::size_of::<Sphere>());
}

#[test]
fn memory_requirement_is_sum_of_padded_columns() {
    // radius: 4 bytes, align 4; position: 12 bytes, align 4; tag: 8 bytes, align 8
    assert_eq!(SphereSoa::memory_requirement(0), 3 + 3 + 7);
    assert_eq!(SphereSoa::memory_requirement(10), 40 + 3 + 120 + 3 + 80 + 7);
}

#[test]
fn new() {
    const N: usize = 1 << 20;
    let soa = SphereSoa::new(N);
    let data_end = SphereSoa::memory_requirement(N);

    assert!(soa.column_offset(0) % std::mem::align_of::<f32>() == 0);
    assert!(soa.column_offset(1) % std::mem::align_of::<[f32; 3]>() == 0);
    assert!(soa.column_offset(2) % std::mem::align_of::<u64>() == 0);

    assert!(soa.column_offset(1) - soa.column_offset(0) >= N * std::mem::size_of::<f32>());
    assert!(soa.column_offset(2) - soa.column_offset(1) >= N * std::mem::size_of::<[f32; 3]>());
    assert!(data_end - soa.column_offset(2) >= N * std::mem::size_of::<u64>());

    assert!(soa.is_empty());
    assert_eq!(soa.capacity(), N);
    assert!(soa.get_slice::<0>().is_empty());
}

#[test]
fn columns_are_packed_at_aligned_offsets() {
    let soa = SphereSoa::new(3);
    // radius column at 0 (12 bytes), position column at 12 (36 bytes),
    // tag column rounded up from 48 to 48 (24 bytes)
    assert_eq!(soa.column_offset(0), 0);
    assert_eq!(soa.column_offset(1), 12);
    assert_eq!(soa.column_offset(2), 48);
    assert!(48 + 24 <= SphereSoa::memory_requirement(3));
}

#[test]
fn field_layout_of_types() {
    assert_eq!(Sphere::LAYOUT[1], FieldLayout::of::<[f32; 3]>());
    assert_eq!(FieldLayout::of::<u64>(), FieldLayout { size: 8, align: std::mem::align_of::<u64>() });
}

#[test]
fn swapping_two_soas_works() {
    let mut soa1 = SphereSoa::new(8);

    let sphere = unit_sphere();

    soa1.push(&sphere);
    soa1.push(&sphere);
    soa1.push(&sphere);
    soa1.push(&sphere);

    assert_eq!(soa1.capacity(), 8);
    assert_eq!(soa1.len(), 4);

    let spheres = soa1.get_copies();
    for sphere in spheres {
        assert_eq!(sphere.radius, 1.0);
        assert_eq!(sphere.position, [1.0, 2.0, 3.0]);
        assert_eq!(sphere.tag, 666);
    }

    let mut soa2 = SphereSoa::new(16);
    soa1.swap(&mut soa2);

    assert_eq!(soa2.capacity(), 8);
    assert_eq!(soa2.len(), 4);

    let spheres = soa2.get_copies();
    for sphere in spheres {
        assert_eq!(sphere.radius, 1.0);
        assert_eq!(sphere.position, [1.0, 2.0, 3.0]);
        assert_eq!(sphere.tag, 666);
    }

    assert!(soa1.is_empty());
    assert_eq!(soa1.capacity(), 16);
}

#[test]
fn lenght_increased_correctly_when_pushed() {
    const N: usize = 1 << 20;
    let mut soa = SphereSoa::new(N);

    assert!(soa.is_empty());
    soa.push(&unit_sphere());
    assert!(soa.len() == 1);
}

#[test]
fn pop_returns_pushed() {
    const N: usize = 1 << 20;
    let mut soa = SphereSoa::new(N);
    let sphere = unit_sphere();

    soa.push(&sphere);
    let sphere2 = soa.pop().unwrap();

    assert!(sphere.radius == sphere2.radius);
    assert!(sphere.position == sphere2.position);
    assert!(sphere.tag == sphere2.tag);

    assert!(soa.is_empty());
}

#[test]
fn pushed_is_set_correctly() {
    const N: usize = 1 << 20;
    let mut soa = SphereSoa::new(N);
    let sphere = unit_sphere();

    soa.push(&sphere);

    assert!(sphere.radius == radii(&soa)[0]);
    assert!(sphere.position == positions(&soa)[0]);
    assert!(sphere.tag == tags(&soa)[0]);
}

#[test]
fn push_reallocated_at_capacity() {
    let mut soa = SphereSoa::new(8);
    assert_eq!(soa.capacity(), 8);

    let sphere = unit_sphere();

    for _ in 0..8 {
        soa.push(&sphere);
    }

    soa.push(&sphere);
    assert!(soa.capacity() > 8);
    assert_eq!(soa.capacity(), 16);
    assert_eq!(soa.len(), 9);

    for sphere in soa.get_copies() {
        assert_eq!(sphere.radius, 1.0);
        assert_eq!(sphere.position, [1.0, 2.0, 3.0]);
        assert_eq!(sphere.tag, 666);
    }
}

#[test]
fn growing_keeps_elements_in_order() {
    let mut soa = SphereSoa::new(1);
    for t in 0..20u64 {
        soa.push(&Sphere { radius: t as f32, position: [0.0, t as f32, 0.0], tag: t });
    }
    assert_eq!(soa.len(), 20);
    assert_eq!(soa.capacity(), 32);
    assert_eq!(tags(&soa), (0..20u64).collect::<Vec<u64>>());
    for (t, sphere) in soa.get_copies().into_iter().enumerate() {
        assert_eq!(sphere.tag, t as u64);
        assert_eq!(sphere.position[1], t as f32);
    }
}

#[test]
fn slice_mut_mutates() {
    const N: usize = 1 << 20;
    let mut soa = SphereSoa::new(N);
    let sphere = unit_sphere();

    soa.push(&sphere);

    assert!(sphere.radius == radii(&soa)[0]);
    soa.get_mut_slice::<0>()[0..4].copy_from_slice(&666.666f32.to_ne_bytes());
    assert!(666.666 == radii(&soa)[0]);
    assert_eq!(tags(&soa)[0], 666);
}

#[test]
fn get_copy_copies_correctly() {
    const N: usize = 1 << 20;
    let mut soa = SphereSoa::new(N);
    let sphere = unit_sphere();

    soa.push(&sphere);
    let sphere2 = soa.get_copy(0);

    assert!(sphere.radius == sphere2.radius);
    assert!(sphere.position == sphere2.position);
    assert!(sphere.tag == sphere2.tag);

    assert!(soa.len() == 1);
}

#[test]
fn pop_empty_returns_none() {
    const N: usize = 1 << 20;
    let mut soa = SphereSoa::new(N);
    assert!(soa.pop().is_none());
}

#[test]
fn get_copies_copies_all_correctly() {
    const N: usize = 1 << 20;
    let mut soa = SphereSoa::new(N);
    let sphere = unit_sphere();

    soa.push(&sphere);
    soa.push(&sphere);
    soa.push(&sphere);
    let spheres = soa.get_copies();

    assert!(soa.len() == 3);
    assert!(spheres.len() == 3);

    for sphere2 in spheres {
        assert!(sphere.radius == sphere2.radius);
        assert!(sphere.position == sphere2.position);
        assert!(sphere.tag == sphere2.tag);
    }
}

#[test]
fn swap_remove_with_only_one_element_returns_the_only_and_soa_is_then_empty() {
    const N: usize = 1 << 20;
    let mut soa = SphereSoa::new(N);

    let sphere = unit_sphere();

    soa.push(&sphere);

    let sphere2 = soa.swap_remove(0);

    assert!(sphere.radius == sphere2.radius);
    assert!(sphere.position == sphere2.position);
    assert!(sphere.tag == sphere2.tag);

    assert!(soa.is_empty());
}

fn three_tagged() -> SphereSoa {
    const N: usize = 1 << 20;
    let mut soa = SphereSoa::new(N);

    let sphere = Sphere { tag: 0, ..Default::default() };
    let sphere2 = Sphere { tag: 1, ..Default::default() };
    let sphere3 = Sphere { tag: 2, ..Default::default() };

    soa.push(&sphere);
    soa.push(&sphere2);
    soa.push(&sphere3);
    soa
}

#[test]
fn swap_remove_removes_the_correct_element1() {
    let mut soa = three_tagged();
    let sphere = soa.swap_remove(0);
    assert!(sphere.tag == 0);
    assert!(tags(&soa)[0] == 2);
    assert!(tags(&soa)[1] == 1);
}

#[test]
fn swap_remove_removes_the_correct_element2() {
    let mut soa = three_tagged();
    let sphere = soa.swap_remove(1);
    assert!(sphere.tag == 1);
    assert!(tags(&soa)[0] == 0);
    assert!(tags(&soa)[1] == 2);
}

#[test]
fn swap_remove_removes_the_correct_element3() {
    let mut soa = three_tagged();
    let sphere = soa.swap_remove(2);
    assert!(sphere.tag == 2);
    assert!(tags(&soa)[0] == 0);
    assert!(tags(&soa)[1] == 1);
}

#[test]
fn swap_remove_shrinks_by_one() {
    let mut soa = three_tagged();
    let _ = soa.swap_remove(0);
    assert_eq!(soa.len(), 2);
    assert_eq!(tags(&soa), vec![2, 1]);
    let _ = soa.swap_remove_unchecked(1);
    assert_eq!(tags(&soa), vec![2]);
}

#[test]
fn get_copy_unchecked_copies_correctly() {
    let soa = three_tagged();
    assert_eq!(soa.get_copy_unchecked(1).tag, 1);
}

fn sphere_bytes(s: &Sphere) -> Vec<u8> {
    s.to_bytes()
}

#[test]
fn bytes_read_back_as_pushed() {
    let mut soa = SphereSoa::new(2);
    let a = Sphere { radius: 2.5, position: [0.5, 1.5, 2.5], tag: 7 };
    let b = Sphere { radius: -1.0, position: [9.0, 8.0, 7.0], tag: u64::MAX };
    soa.push_bytes(&sphere_bytes(&a));
    soa.push_bytes(&sphere_bytes(&b));
    assert_eq!(soa.get_copy_bytes(0), sphere_bytes(&a));
    assert_eq!(soa.get_copy_bytes(1), sphere_bytes(&b));
    assert_eq!(soa.pop_bytes(), Some(sphere_bytes(&b)));
    assert_eq!(soa.len(), 1);
    assert_eq!(soa.get_copy_bytes(0), sphere_bytes(&a));
}

#[derive(Clone, Copy, Default)]
struct Gapped {
    a: u16,
    b: u32,
}

impl StructMetadata<2> for Gapped {
    const LAYOUT: [FieldLayout; 2] = [FieldLayout { size: 2, align: 2 }, FieldLayout { size: 4, align: 4 }];
    const OFFSET: [usize; 2] = [0, 4];
}

impl ByteRepr<2> for Gapped {
    fn to_bytes(&self) -> Vec<u8> {
        let mut bytes = vec![0u8; std::mem::size_of::<Self>()];
        bytes[0..2].copy_from_slice(&self.a.to_ne_bytes());
        bytes[4..8].copy_from_slice(&self.b.to_ne_bytes());
        bytes
    }
    fn from_bytes(bytes: &[u8]) -> Self {
        Gapped {
            a: u16::from_ne_bytes(bytes[0..2].try_into().unwrap()),
            b: u32::from_ne_bytes(bytes[4..8].try_into().unwrap()),
        }
    }
}

#[test]
fn gaps_between_fields_read_back_as_zero() {
    // bytes 2..4 of the representation belong to no field
    let mut soa = Soa::<Gapped, 2>::new(1);
    let mut bytes = Gapped { a: 0x1234, b: 0xDEADBEEF }.to_bytes();
    bytes[2] = 0xAB;
    bytes[3] = 0xCD;
    soa.push_bytes(&bytes);
    let back = soa.get_copy_bytes(0);
    assert_eq!(back.len(), 8);
    assert_eq!(&back[2..4], &[0, 0]);
    assert_eq!(&back[0..2], &bytes[0..2]);
    assert_eq!(&back[4..8], &bytes[4..8]);
    assert_eq!(soa.get_copy(0).b, 0xDEADBEEF);
}

#[test]
fn pop_bytes_on_empty_gives_none() {
    let mut soa = SphereSoa::new(4);
    assert_eq!(soa.pop_bytes(), None);
    assert!(soa.is_empty());
}

#[test]
fn swap_remove_bytes_moves_the_last_element() {
    let mut soa = SphereSoa::new(4);
    let spheres: Vec<Sphere> = (0..4u64).map(|t| Sphere { tag: t, ..Default::default() }).collect();
    for s in spheres.iter() {
        soa.push_bytes(&sphere_bytes(s));
    }
    assert_eq!(soa.swap_remove_bytes(1), sphere_bytes(&spheres[1]));
    assert_eq!(tags(&soa), vec![0, 3, 2]);
}

#[test]
fn swap_remove_loses_and_duplicates_nothing() {
    let mut soa = SphereSoa::new(8);
    for t in 0..6u64 {
        soa.push(&Sphere { tag: t, ..Default::default() });
    }
    let removed = soa.swap_remove(2);
    let mut left = tags(&soa);
    left.push(removed.tag);
    left.sort();
    assert_eq!(left, (0..6u64).collect::<Vec<u64>>());
    assert_eq!(soa.len(), 5);
}

#[test]
fn writing_a_column_changes_only_that_field() {
    let mut soa = three_tagged();
    {
        let column = soa.get_mut_slice::<2>();
        assert_eq!(column.len(), 3 * 8);
        for (k, chunk) in column.chunks_mut(8).enumerate() {
            chunk.copy_from_slice(&(100 + k as u64).to_ne_bytes());
        }
    }
    assert_eq!(tags(&soa), vec![100, 101, 102]);
    assert_eq!(radii(&soa), vec![0.0, 0.0, 0.0]);
    assert_eq!(soa.get_copy(2).tag, 102);
    assert_eq!(soa.len(), 3);
}

#[test]
fn swapping_twice_restores_both() {
    let mut a = three_tagged();
    let mut b = SphereSoa::new(5);
    a.swap(&mut b);
    a.swap(&mut b);
    assert_eq!(tags(&a), vec![0, 1, 2]);
    assert!(b.is_empty());
    assert_eq!(b.capacity(), 5);
}

#[allow(dead_code)]
#[derive(Debug, Clone, Copy, PartialEq)]
enum Foo {
    A,
    B,
    C,
}

impl Default for Foo {
    fn default() -> Self {
        Foo::C
    }
}

#[derive(Debug, Clone, Copy, PartialEq)]
struct Tag {
    value: f32,
}

impl Default for Tag {
    fn default() -> Self {
        Tag { value: 666.6 }
    }
}

#[derive(Debug, Clone, Copy, Default, PartialEq)]
struct Bar {
    foo: Foo,
    tag: Tag,
}

impl StructMetadata<2> for Bar {
    const LAYOUT: [FieldLayout; 2] = [
        FieldLayout { size: 1, align: 1 },
        FieldLayout { size: std::mem::size_of::<f32>(), align: std::mem::align_of::<f32>() },
    ];
    const OFFSET: [usize; 2] = [0, 4];
}

impl ByteRepr<2> for Bar {
    fn to_bytes(&self) -> Vec<u8> {
        let mut bytes = vec![0u8; std::mem::size_of::<Self>()];
        bytes[0] = match self.foo {
            Foo::A => 0,
            Foo::B => 1,
            Foo::C => 2,
        };
        bytes[4..8].copy_from_slice(&self.tag.value.to_ne_bytes());
        bytes
    }

    fn from_bytes(bytes: &[u8]) -> Self {
        let foo = match bytes[0] {
            0 => Foo::A,
            1 => Foo::B,
            _ => Foo::C,
        };
        Bar { foo, tag: Tag { value: f32::from_ne_bytes(bytes[4..8].try_into().unwrap()) } }
    }
}

#[test]
fn memory_initialized_correctly() {
    let default = Bar::default();
    let default_bytes = default.to_bytes();
    // The byte pattern for the defaults should differ from zero for at least some bytes
    for i in 0..Bar::LAYOUT.len() {
        let field = &default_bytes[Bar::OFFSET[i]..Bar::OFFSET[i] + Bar::LAYOUT[i].size];
        assert!(field.iter().any(|b| *b != 0));
    }

    const N: usize = 1 << 5;
    let soa = Soa::<Bar, 2>::new(N);
    for j in 0..N {
        let slot = soa.get_copy_bytes(j);
        for i in 0..Bar::LAYOUT.len() {
            let range = Bar::OFFSET[i]..Bar::OFFSET[i] + Bar::LAYOUT[i].size;
            assert_eq!(&slot[range.clone()], &default_bytes[range]);
        }
        assert_eq!(soa.get_copy_unchecked(j), Bar { foo: Foo::C, tag: Tag { value: 666.6 } });
    }
}

#[test]
fn spare_slots_keep_their_bytes() {
    let mut soa = three_tagged();
    let popped = soa.pop().unwrap();
    assert_eq!(popped.tag, 2);
    // slot 2 is past the length now, and still holds what was popped
    assert_eq!(soa.get_copy_unchecked(2).tag, 2);
    let _ = soa.swap_remove(0);
    // the last element moved into slot 0; slot 1 keeps its old bytes
    assert_eq!(soa.get_copy_unchecked(0).tag, 1);
    assert_eq!(soa.get_copy_unchecked(1).tag, 1);
    assert_eq!(soa.get_copy_unchecked(2).tag, 2);
    assert_eq!(soa.get_copy_unchecked(3), Sphere::default());
}

#[test]
fn grown_slots_hold_the_default() {
    let mut soa = SphereSoa::new(2);
    soa.push(&unit_sphere());
    soa.push(&unit_sphere());
    soa.push(&unit_sphere());
    assert_eq!(soa.capacity(), 4);
    assert_eq!(soa.get_copy_unchecked(3), Sphere::default());
}
