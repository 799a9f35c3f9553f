use structure_of_arrays::derive::{
    derive_aos, derive_from_source, DeriveError, NamedField, StructFields, StructShape,
};

fn named_sphere() -> StructShape {
    let field = |name: &str, ty: &str| NamedField { name: name.to_string(), ty: ty.to_string() };
    StructShape {
        name: "Sphere".to_string(),
        fields: StructFields::Named(vec![
            field("position", "[f32; 3]"),
            field("radius", "f32"),
            field("colour", "[f32; 3]"),
            field("tag", "u64"),
        ]),
    }
}

fn unnamed_sphere() -> StructShape {
    StructShape {
        name: "Sphere".to_string(),
        fields: StructFields::Unnamed(vec![
            "[f32; 3]".to_string(),
            "f32".to_string(),
            "[f32; 3]".to_string(),
            "u64".to_string(),
        ]),
    }
}

/// The entries of the array constant `name` in the derived code, one per line.
fn const_entries(code: &str, name: &str) -> Vec<String> {
    let start = code.find(name).expect("constant is derived");
    let body = &code[start..];
    let open = body.find("[\n").expect("array literal") + 2;
    let close = body.find("    ];").expect("end of array literal");
    body[open..close].lines().map(|l| l.trim().to_string()).collect()
}

fn layout_of(ty: &str) -> String {
    format!(
        "FieldLayout {{ size: std::mem::size_of::<{}>(), align: std::mem::align_of::<{}>() }},",
        ty, ty
    )
}

#[test]
fn lib_layout_implemented() {
    let code = derive_aos(&named_sphere());
    let layout = const_entries(&code, "const LAYOUT");
    assert!(layout[0] == layout_of("[f32; 3]"));
    assert!(layout[1] == layout_of("f32"));
    assert!(layout[2] == layout_of("[f32; 3]"));
    assert!(layout[3] == layout_of("u64"));
}

#[test]
fn lib_offset_of_implemented() {
    let code = derive_aos(&named_sphere());
    let offset = const_entries(&code, "const OFFSET");
    assert!(offset[0] == "std::mem::offset_of!(Self, position),");
    assert!(offset[1] == "std::mem::offset_of!(Self, radius),");
    assert!(offset[2] == "std::mem::offset_of!(Self, colour),");
    assert!(offset[3] == "std::mem::offset_of!(Self, tag),");
}

#[test]
fn lib_named_accessors_implemented() {
    let code = derive_aos(&named_sphere());
    assert!(code.contains("pub trait SphereAccessor {"));
    assert!(code.contains("impl SphereAccessor for Soa<Sphere, 4> {"));
    for (i, name) in ["position", "radius", "colour", "tag"].iter().enumerate() {
        assert!(code.contains(&format!("    fn {}(&self) -> &[u8];\n", name)));
        assert!(code.contains(&format!("    fn {}_mut(&mut self) -> &mut [u8];\n", name)));
        assert!(code.contains(&format!(
            "    fn {}(&self) -> &[u8] {{\n        self.get_slice::<{}>()\n    }}\n",
            name, i
        )));
        assert!(code.contains(&format!(
            "    fn {}_mut(&mut self) -> &mut [u8] {{\n        self.get_mut_slice::<{}>()\n    }}\n",
            name, i
        )));
    }
}

#[test]
fn layout_implemented() {
    let code = derive_aos(&unnamed_sphere());
    let layout = const_entries(&code, "const LAYOUT");
    assert!(layout[0] == layout_of("[f32; 3]"));
    assert!(layout[1] == layout_of("f32"));
    assert!(layout[2] == layout_of("[f32; 3]"));
    assert!(layout[3] == layout_of("u64"));
}

#[test]
fn offset_of_implemented() {
    let code = derive_aos(&unnamed_sphere());
    let offset = const_entries(&code, "const OFFSET");
    assert!(offset[0] == "std::mem::offset_of!(Self, 0),");
    assert!(offset[1] == "std::mem::offset_of!(Self, 1),");
    assert!(offset[2] == "std::mem::offset_of!(Self, 2),");
    assert!(offset[3] == "std::mem::offset_of!(Self, 3),");
}

#[test]
fn named_accessors_implemented() {
    let code = derive_aos(&unnamed_sphere());
    assert!(code.contains("pub trait SphereAccessor {"));
    assert!(code.contains("impl SphereAccessor for Soa<Sphere, 4> {"));
    for i in 0..4 {
        assert!(code.contains(&format!("    fn field{}(&self) -> &[u8];\n", i)));
        assert!(code.contains(&format!("    fn field{}_mut(&mut self) -> &mut [u8];\n", i)));
        assert!(code.contains(&format!("        self.get_slice::<{}>()\n", i)));
        assert!(code.contains(&format!("        self.get_mut_slice::<{}>()\n", i)));
    }
}

#[test]
fn derived_code_for_two_fields_is_exact() {
    let shape = StructShape {
        name: "P".to_string(),
        fields: StructFields::Named(vec![
            NamedField { name: "x".to_string(), ty: "u8".to_string() },
            NamedField { name: "y".to_string(), ty: "u16".to_string() },
        ]),
    };
    let expected = "impl StructMetadata<2> for P {
    const LAYOUT: [FieldLayout; 2] = [
        FieldLayout { size: std::mem::size_of::<u8>(), align: std::mem::align_of::<u8>() },
        FieldLayout { size: std::mem::size_of::<u16>(), align: std::mem::align_of::<u16>() },
    ];
    const OFFSET: [usize; 2] = [
        std::mem::offset_of!(Self, x),
        std::mem::offset_of!(Self, y),
    ];
}
pub trait PAccessor {
    fn x(&self) -> &[u8];
    fn x_mut(&mut self) -> &mut [u8];
    fn y(&self) -> &[u8];
    fn y_mut(&mut self) -> &mut [u8];
}
impl PAccessor for Soa<P, 2> {
    fn x(&self) -> &[u8] {
        self.get_slice::<0>()
    }
    fn x_mut(&mut self) -> &mut [u8] {
        self.get_mut_slice::<0>()
    }
    fn y(&self) -> &[u8] {
        self.get_slice::<1>()
    }
    fn y_mut(&mut self) -> &mut [u8] {
        self.get_mut_slice::<1>()
    }
}
";
    assert_eq!(derive_aos(&shape), expected);
}

#[test]
fn positions_past_nine_are_written_in_decimal() {
    let fields: Vec<String> = (0..12).map(|_| "u8".to_string()).collect();
    let code = derive_aos(&StructShape { name: "Wide".to_string(), fields: StructFields::Unnamed(fields) });
    assert!(code.contains("impl StructMetadata<12> for Wide {"));
    assert!(code.contains("std::mem::offset_of!(Self, 11),"));
    assert!(code.contains("    fn field10_mut(&mut self) -> &mut [u8] {\n        self.get_mut_slice::<10>()\n"));
}

#[test]
fn derived_from_source_text_of_a_struct() {
    let from_source = derive_from_source("struct P { x: u8, y: u16 }").unwrap();
    let shape = StructShape {
        name: "P".to_string(),
        fields: StructFields::Named(vec![
            NamedField { name: "x".to_string(), ty: "u8".to_string() },
            NamedField { name: "y".to_string(), ty: "u16".to_string() },
        ]),
    };
    assert_eq!(from_source, derive_aos(&shape));
    assert!(from_source.contains("impl PAccessor for Soa<P, 2> {"));
}

#[test]
fn derived_from_source_text_of_a_tuple_struct() {
    let code = derive_from_source("pub struct Sphere(pub [f32; 3], pub f32, pub [f32; 3], pub u64);").unwrap();
    assert_eq!(code, derive_aos(&unnamed_sphere()).replace("[f32; 3]", "[f32 ; 3]"));
}

#[test]
fn derive_from_source_refuses_what_is_not_a_struct_with_fields() {
    assert_eq!(derive_from_source("struct Unit;"), Err(DeriveError::UnitStruct));
    assert_eq!(derive_from_source("enum E { A, B }"), Err(DeriveError::EnumOrUnion));
    assert_eq!(derive_from_source("union U { a: u32, b: f32 }"), Err(DeriveError::EnumOrUnion));
    assert_eq!(derive_from_source("fn f() {}"), Err(DeriveError::Unparsable));
    assert_eq!(derive_from_source("struct {"), Err(DeriveError::Unparsable));
}
