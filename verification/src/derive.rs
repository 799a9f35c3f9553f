//! The code that deriving `Aos` for a struct produces: its `StructMetadata`
//! impl, and a trait with one pair of column accessors per field,
//! implemented for the struct's `Soa`. The derived code gives no `ByteRepr`
//! impl: a struct stored in a `Soa` needs one written by hand.
use vstd::prelude::*;
use vstd::string::StringExecFns;
use quote::ToTokens;
use syn::{Data, DeriveInput, Fields};

verus! {

/// A named field: its name and the text of its type.
pub struct NamedField {
    pub name: String,
    pub ty: String,
}

/// The fields of a struct: named, or positional (then only their types).
pub enum StructFields {
    Named(Vec<NamedField>),
    Unnamed(Vec<String>),
}

/// A struct that `Aos` is derived for: its name and its fields.
pub struct StructShape {
    pub name: String,
    pub fields: StructFields,
}

/// The number of fields.
pub open spec fn field_count(fields: StructFields) -> nat {
    match fields {
        StructFields::Named(v) => v@.len(),
        StructFields::Unnamed(v) => v@.len(),
    }
}

/// The text of a decimal digit.
pub open spec fn digit_text(d: nat) -> Seq<char> {
    if d == 0 {
        "0"@
    } else if d == 1 {
        "1"@
    } else if d == 2 {
        "2"@
    } else if d == 3 {
        "3"@
    } else if d == 4 {
        "4"@
    } else if d == 5 {
        "5"@
    } else if d == 6 {
        "6"@
    } else if d == 7 {
        "7"@
    } else if d == 8 {
        "8"@
    } else {
        "9"@
    }
}

/// The decimal text of `n`, without leading zeros.
pub open spec fn decimal(n: nat) -> Seq<char>
    decreases n,
{
    if n < 10 {
        digit_text(n)
    } else {
        decimal(n / 10) + digit_text(n % 10)
    }
}

/// The type of field `i`.
pub open spec fn field_type(fields: StructFields, i: int) -> Seq<char> {
    match fields {
        StructFields::Named(v) => v@[i].ty@,
        StructFields::Unnamed(v) => v@[i]@,
    }
}

/// How `offset_of!` names field `i`: by its name, or by its position.
pub open spec fn field_key(fields: StructFields, i: int) -> Seq<char> {
    match fields {
        StructFields::Named(v) => v@[i].name@,
        StructFields::Unnamed(v) => decimal(i as nat),
    }
}

/// The name of the accessor for field `i`: the field's name, or `field` and
/// its position.
pub open spec fn accessor_name(fields: StructFields, i: int) -> Seq<char> {
    match fields {
        StructFields::Named(v) => v@[i].name@,
        StructFields::Unnamed(v) => "field"@ + decimal(i as nat),
    }
}

/// The entry of `LAYOUT` for field `i`.
pub open spec fn layout_entry(fields: StructFields, i: int) -> Seq<char> {
    "        FieldLayout { size: std::mem::size_of::<"@ + field_type(fields, i)
        + ">(), align: std::mem::align_of::<"@ + field_type(fields, i) + ">() },\n"@
}

/// The entry of `OFFSET` for field `i`.
pub open spec fn offset_entry(fields: StructFields, i: int) -> Seq<char> {
    "        std::mem::offset_of!(Self, "@ + field_key(fields, i) + "),\n"@
}

/// The declarations of the accessors of field `i`.
pub open spec fn accessor_decl(fields: StructFields, i: int) -> Seq<char> {
    "    fn "@ + accessor_name(fields, i) + "(&self) -> &[u8];\n"@ + "    fn "@ + accessor_name(
        fields,
        i,
    ) + "_mut(&mut self) -> &mut [u8];\n"@
}

/// The definitions of the accessors of field `i`: the column of field `i`.
pub open spec fn accessor_def(fields: StructFields, i: int) -> Seq<char> {
    "    fn "@ + accessor_name(fields, i) + "(&self) -> &[u8] {\n"@ + "        self.get_slice::<"@
        + decimal(i as nat) + ">()\n    }\n"@ + "    fn "@ + accessor_name(fields, i)
        + "_mut(&mut self) -> &mut [u8] {\n"@ + "        self.get_mut_slice::<"@ + decimal(
        i as nat,
    ) + ">()\n    }\n"@
}

/// The `LAYOUT` entries of the first `k` fields.
pub open spec fn layout_entries(fields: StructFields, k: int) -> Seq<char>
    decreases k,
{
    if k <= 0 {
        Seq::empty()
    } else {
        layout_entries(fields, k - 1) + layout_entry(fields, k - 1)
    }
}

/// The `OFFSET` entries of the first `k` fields.
pub open spec fn offset_entries(fields: StructFields, k: int) -> Seq<char>
    decreases k,
{
    if k <= 0 {
        Seq::empty()
    } else {
        offset_entries(fields, k - 1) + offset_entry(fields, k - 1)
    }
}

/// The accessor declarations of the first `k` fields.
pub open spec fn accessor_decls(fields: StructFields, k: int) -> Seq<char>
    decreases k,
{
    if k <= 0 {
        Seq::empty()
    } else {
        accessor_decls(fields, k - 1) + accessor_decl(fields, k - 1)
    }
}

/// The accessor definitions of the first `k` fields.
pub open spec fn accessor_defs(fields: StructFields, k: int) -> Seq<char>
    decreases k,
{
    if k <= 0 {
        Seq::empty()
    } else {
        accessor_defs(fields, k - 1) + accessor_def(fields, k - 1)
    }
}

/// The `StructMetadata` impl derived for `shape`.
pub open spec fn metadata_impl(shape: StructShape) -> Seq<char> {
    let n = field_count(shape.fields);
    "impl StructMetadata<"@ + decimal(n) + "> for "@ + shape.name@ + " {\n"@
        + "    const LAYOUT: [FieldLayout; "@ + decimal(n) + "] = [\n"@ + layout_entries(
        shape.fields,
        n as int,
    ) + "    ];\n"@ + "    const OFFSET: [usize; "@ + decimal(n) + "] = [\n"@ + offset_entries(
        shape.fields,
        n as int,
    ) + "    ];\n}\n"@
}

/// The accessor trait derived for `shape`, and its impl for the struct's `Soa`.
pub open spec fn accessors(shape: StructShape) -> Seq<char> {
    let n = field_count(shape.fields);
    "pub trait "@ + shape.name@ + "Accessor {\n"@ + accessor_decls(shape.fields, n as int)
        + "}\n"@ + "impl "@ + shape.name@ + "Accessor for Soa<"@ + shape.name@ + ", "@ + decimal(
        n,
    ) + "> {\n"@ + accessor_defs(shape.fields, n as int) + "}\n"@
}

/// The code derived for `shape`.
pub open spec fn derived_code(shape: StructShape) -> Seq<char> {
    metadata_impl(shape) + accessors(shape)
}

/// The number that a string of decimal digits denotes, most significant digit
/// first.
pub open spec fn numeral_value(s: Seq<char>) -> int
    decreases s.len(),
{
    if s.len() == 0 {
        0
    } else {
        numeral_value(s.drop_last()) * 10 + (s.last() as int - '0' as int)
    }
}

/// `needle` occurs in `hay` at position `p`.
pub open spec fn occurs_at(hay: Seq<char>, needle: Seq<char>, p: int) -> bool {
    0 <= p && p + needle.len() <= hay.len() && hay.subrange(p, p + needle.len()) == needle
}

/// Every character of `s` is a decimal digit.
pub open spec fn all_digits(s: Seq<char>) -> bool {
    forall|k: int| 0 <= k < s.len() ==> '0' as int <= #[trigger] s[k] as int <= '9' as int
}

proof fn lemma_digit_text(d: nat)
    requires
        d < 10,
    ensures
        digit_text(d).len() == 1,
        digit_text(d)[0] as int == '0' as int + d,
{
    reveal_strlit("0");
    reveal_strlit("1");
    reveal_strlit("2");
    reveal_strlit("3");
    reveal_strlit("4");
    reveal_strlit("5");
    reveal_strlit("6");
    reveal_strlit("7");
    reveal_strlit("8");
    reveal_strlit("9");
}

/// `decimal(n)` is the base-10 numeral of `n`: nonempty, made of digits,
/// without a leading zero unless `n` is zero, and denoting `n`.
pub proof fn law_decimal_is_numeral(n: nat)
    ensures
        decimal(n).len() > 0,
        all_digits(decimal(n)),
        n > 0 ==> decimal(n)[0] != '0',
        numeral_value(decimal(n)) == n,
    decreases n,
{
    if n < 10 {
        lemma_digit_text(n);
        let s = decimal(n);
        assert(s.drop_last() =~= Seq::<char>::empty());
        assert(numeral_value(Seq::<char>::empty()) == 0);
        assert(s.last() as int == '0' as int + n);
        assert(numeral_value(s) == numeral_value(s.drop_last()) * 10 + (s.last() as int - '0' as int));
    } else {
        law_decimal_is_numeral(n / 10);
        lemma_digit_text(n % 10);
        let front = decimal(n / 10);
        let s = decimal(n);
        assert(s == front + digit_text(n % 10));
        assert(s.drop_last() =~= front);
        assert(s.last() as int == '0' as int + n % 10);
        assert(numeral_value(s) == numeral_value(front) * 10 + n % 10);
        assert(n == (n / 10) * 10 + n % 10);
        assert(s[0] == front[0]);
    }
}

proof fn lemma_accessor_defs_split(fields: StructFields, i: int, k: int)
    requires
        0 <= i < k,
    ensures
        exists|rest: Seq<char>|
            accessor_defs(fields, k) == accessor_defs(fields, i) + accessor_def(fields, i) + rest,
    decreases k,
{
    if k == i + 1 {
        assert(accessor_defs(fields, k) == accessor_defs(fields, i) + accessor_def(fields, i)
            + Seq::<char>::empty());
    } else {
        lemma_accessor_defs_split(fields, i, k - 1);
        let rest = choose|rest: Seq<char>|
            accessor_defs(fields, k - 1) == accessor_defs(fields, i) + accessor_def(fields, i)
                + rest;
        assert(accessor_defs(fields, k) == accessor_defs(fields, i) + accessor_def(fields, i) + (
        rest + accessor_def(fields, k - 1)));
    }
}

proof fn lemma_middle(x: Seq<char>, y: Seq<char>, z: Seq<char>)
    ensures
        occurs_at(x + y + z, y, x.len() as int),
{
    assert((x + y + z).subrange(x.len() as int, (x.len() + y.len()) as int) =~= y);
}

/// The text of the accessors of field `i`, as the derived code should give it.
pub open spec fn accessor_text(fields: StructFields, i: int) -> Seq<char> {
    "    fn "@ + accessor_name(fields, i) + "(&self) -> &[u8] {\n"@ + "        self.get_slice::<"@
        + decimal(i as nat) + ">()\n    }\n"@ + "    fn "@ + accessor_name(fields, i)
        + "_mut(&mut self) -> &mut [u8] {\n"@ + "        self.get_mut_slice::<"@ + decimal(
        i as nat,
    ) + ">()\n    }\n"@
}

/// The derived code gives every field `i` a reading accessor that returns
/// column `i` and a writing accessor that returns column `i`, written with
/// the numeral of `i` itself.
pub proof fn law_accessors_read_their_own_column(shape: StructShape, i: int)
    requires
        0 <= i < field_count(shape.fields),
    ensures
        exists|p: int| #[trigger] occurs_at(derived_code(shape), accessor_text(shape.fields, i), p),
        numeral_value(decimal(i as nat)) == i,
{
    law_decimal_is_numeral(i as nat);
    let n = field_count(shape.fields);
    let f = shape.fields;
    lemma_accessor_defs_split(f, i, n as int);
    let rest = choose|rest: Seq<char>|
        accessor_defs(f, n as int) == accessor_defs(f, i) + accessor_def(f, i) + rest;
    let text = accessor_text(f, i);
    assert(text =~= accessor_def(f, i));
    let a = "pub trait "@ + shape.name@ + "Accessor {\n"@ + accessor_decls(f, n as int) + "}\n"@
        + "impl "@ + shape.name@ + "Accessor for Soa<"@ + shape.name@ + ", "@ + decimal(n)
        + "> {\n"@;
    assert(accessors(shape) =~= a + accessor_defs(f, n as int) + "}\n"@);
    let before = metadata_impl(shape) + a + accessor_defs(f, i);
    let after = rest + "}\n"@;
    let code = derived_code(shape);
    assert(code =~= before + text + after);
    lemma_middle(before, text, after);
}

/// The derived code begins by stating the number of fields, written as its
/// numeral.
pub proof fn law_header_counts_fields(shape: StructShape)
    ensures
        ({
            let head = "impl StructMetadata<"@ + decimal(field_count(shape.fields)) + "> for "@;
            &&& head.len() <= derived_code(shape).len()
            &&& derived_code(shape).subrange(0, head.len() as int) == head
        }),
        numeral_value(decimal(field_count(shape.fields))) == field_count(shape.fields),
{
    law_decimal_is_numeral(field_count(shape.fields));
    let head = "impl StructMetadata<"@ + decimal(field_count(shape.fields)) + "> for "@;
    let code = derived_code(shape);
    let rest = code.subrange(head.len() as int, code.len() as int);
    assert(code =~= head + (code.subrange(head.len() as int, code.len() as int))) by {
        assert(code.subrange(0, head.len() as int) =~= head);
    }
    assert(code.subrange(0, head.len() as int) =~= head);
}

/// The text of the decimal digit `d`.
fn digit(d: usize) -> (text: &'static str)
    requires
        d < 10,
    ensures
        text@ == digit_text(d as nat),
{
    if d == 0 {
        "0"
    } else if d == 1 {
        "1"
    } else if d == 2 {
        "2"
    } else if d == 3 {
        "3"
    } else if d == 4 {
        "4"
    } else if d == 5 {
        "5"
    } else if d == 6 {
        "6"
    } else if d == 7 {
        "7"
    } else if d == 8 {
        "8"
    } else {
        "9"
    }
}

/// Appends the decimal text of `n`.
fn append_decimal(out: &mut String, n: usize)
    ensures
        final(out)@ == old(out)@ + decimal(n as nat),
    decreases n,
{
    if n < 10 {
        out.append(digit(n));
    } else {
        append_decimal(out, n / 10);
        out.append(digit(n % 10));
        proof {
            assert(old(out)@ + decimal(n as nat) =~= old(out)@ + decimal((n / 10) as nat)
                + digit_text((n % 10) as nat));
        }
    }
}

/// The number of fields.
fn count_fields(fields: &StructFields) -> (n: usize)
    ensures
        n == field_count(*fields),
{
    match fields {
        StructFields::Named(v) => v.len(),
        StructFields::Unnamed(v) => v.len(),
    }
}

/// Appends the type of field `i`.
fn append_field_type(out: &mut String, fields: &StructFields, i: usize)
    requires
        i < field_count(*fields),
    ensures
        final(out)@ == old(out)@ + field_type(*fields, i as int),
{
    match fields {
        StructFields::Named(v) => out.append(v[i].ty.as_str()),
        StructFields::Unnamed(v) => out.append(v[i].as_str()),
    }
}

/// Appends how `offset_of!` names field `i`.
fn append_field_key(out: &mut String, fields: &StructFields, i: usize)
    requires
        i < field_count(*fields),
    ensures
        final(out)@ == old(out)@ + field_key(*fields, i as int),
{
    match fields {
        StructFields::Named(v) => out.append(v[i].name.as_str()),
        StructFields::Unnamed(v) => append_decimal(out, i),
    }
}

/// Appends the name of the accessor for field `i`.
fn append_accessor_name(out: &mut String, fields: &StructFields, i: usize)
    requires
        i < field_count(*fields),
    ensures
        final(out)@ == old(out)@ + accessor_name(*fields, i as int),
{
    match fields {
        StructFields::Named(v) => out.append(v[i].name.as_str()),
        StructFields::Unnamed(v) => {
            out.append("field");
            append_decimal(out, i);
            proof {
                assert(out@ =~= old(out)@ + accessor_name(*fields, i as int));
            }
        },
    }
}

/// One kind of per-field entry of the derived code.
enum Part {
    Layout,
    Offset,
    Decl,
    Def,
}

spec fn part_entry(part: Part, fields: StructFields, i: int) -> Seq<char> {
    match part {
        Part::Layout => layout_entry(fields, i),
        Part::Offset => offset_entry(fields, i),
        Part::Decl => accessor_decl(fields, i),
        Part::Def => accessor_def(fields, i),
    }
}

spec fn part_entries(part: Part, fields: StructFields, k: int) -> Seq<char> {
    match part {
        Part::Layout => layout_entries(fields, k),
        Part::Offset => offset_entries(fields, k),
        Part::Decl => accessor_decls(fields, k),
        Part::Def => accessor_defs(fields, k),
    }
}

/// Appends the entry of kind `part` for field `i`.
fn append_entry(out: &mut String, part: &Part, fields: &StructFields, i: usize)
    requires
        i < field_count(*fields),
    ensures
        final(out)@ == old(out)@ + part_entry(*part, *fields, i as int),
{
    match part {
        Part::Layout => {
            out.append("        FieldLayout { size: std::mem::size_of::<");
            append_field_type(out, fields, i);
            out.append(">(), align: std::mem::align_of::<");
            append_field_type(out, fields, i);
            out.append(">() },\n");
        },
        Part::Offset => {
            out.append("        std::mem::offset_of!(Self, ");
            append_field_key(out, fields, i);
            out.append("),\n");
        },
        Part::Decl => {
            out.append("    fn ");
            append_accessor_name(out, fields, i);
            out.append("(&self) -> &[u8];\n");
            out.append("    fn ");
            append_accessor_name(out, fields, i);
            out.append("_mut(&mut self) -> &mut [u8];\n");
        },
        Part::Def => {
            out.append("    fn ");
            append_accessor_name(out, fields, i);
            out.append("(&self) -> &[u8] {\n");
            out.append("        self.get_slice::<");
            append_decimal(out, i);
            out.append(">()\n    }\n");
            out.append("    fn ");
            append_accessor_name(out, fields, i);
            out.append("_mut(&mut self) -> &mut [u8] {\n");
            out.append("        self.get_mut_slice::<");
            append_decimal(out, i);
            out.append(">()\n    }\n");
        },
    }
    proof {
        assert(out@ =~= old(out)@ + part_entry(*part, *fields, i as int));
    }
}

/// Appends the entries of kind `part` for all fields, in order.
fn append_entries(out: &mut String, part: &Part, fields: &StructFields)
    ensures
        final(out)@ == old(out)@ + part_entries(*part, *fields, field_count(*fields) as int),
{
    let n = count_fields(fields);
    let ghost start = out@;
    let mut i: usize = 0;
    proof {
        assert(part_entries(*part, *fields, 0) =~= Seq::<char>::empty());
        assert(out@ =~= start + part_entries(*part, *fields, 0));
    }
    while i < n
        invariant
            i <= n,
            n == field_count(*fields),
            out@ == start + part_entries(*part, *fields, i as int),
        decreases n - i,
    {
        append_entry(out, part, fields, i);
        proof {
            assert(part_entries(*part, *fields, i + 1) == part_entries(*part, *fields, i as int)
                + part_entry(*part, *fields, i as int));
            assert(out@ =~= start + part_entries(*part, *fields, i + 1));
        }
        i = i + 1;
    }
}

/// Appends the `StructMetadata` impl derived for `shape`.
fn append_metadata_impl(out: &mut String, shape: &StructShape)
    ensures
        final(out)@ == old(out)@ + metadata_impl(*shape),
{
    let n = count_fields(&shape.fields);
    out.append("impl StructMetadata<");
    append_decimal(out, n);
    out.append("> for ");
    out.append(shape.name.as_str());
    out.append(" {\n");
    out.append("    const LAYOUT: [FieldLayout; ");
    append_decimal(out, n);
    out.append("] = [\n");
    append_entries(out, &Part::Layout, &shape.fields);
    out.append("    ];\n");
    out.append("    const OFFSET: [usize; ");
    append_decimal(out, n);
    out.append("] = [\n");
    append_entries(out, &Part::Offset, &shape.fields);
    out.append("    ];\n}\n");
    proof {
        assert(out@ =~= old(out)@ + metadata_impl(*shape));
    }
}

/// Appends the accessor trait derived for `shape` and its impl.
fn append_accessors(out: &mut String, shape: &StructShape)
    ensures
        final(out)@ == old(out)@ + accessors(*shape),
{
    let n = count_fields(&shape.fields);
    let name = shape.name.as_str();
    out.append("pub trait ");
    out.append(name);
    out.append("Accessor {\n");
    append_entries(out, &Part::Decl, &shape.fields);
    out.append("}\n");
    out.append("impl ");
    out.append(name);
    out.append("Accessor for Soa<");
    out.append(name);
    out.append(", ");
    append_decimal(out, n);
    out.append("> {\n");
    append_entries(out, &Part::Def, &shape.fields);
    out.append("}\n");
    proof {
        assert(out@ =~= old(out)@ + accessors(*shape));
    }
}

/// The code that deriving `Aos` produces for `shape`: the `StructMetadata`
/// impl giving each field's layout and offset, and the trait `<Name>Accessor`
/// with, for each field, a method giving its column and one giving it to be
/// changed, implemented for `Soa<Name, N>`.
pub fn derive_aos(shape: &StructShape) -> (code: String)
    ensures
        code@ == derived_code(*shape),
{
    let mut out = String::new();
    append_metadata_impl(&mut out, shape);
    append_accessors(&mut out, shape);
    proof {
        assert(out@ =~= derived_code(*shape));
    }
    out
}

/// What the source text of an item is, as far as deriving `Aos` goes.
pub enum ParsedItem {
    /// A struct with fields.
    Struct(StructShape),
    /// A struct without fields.
    UnitStruct,
    /// An enum or a union.
    EnumOrUnion,
}

/// Why no code could be derived.
#[derive(Debug, PartialEq, Eq, Structural)]
pub enum DeriveError {
    /// The source is not an item that can carry a derive.
    Unparsable,
    /// `Aos` is not derived for a struct without fields.
    UnitStruct,
    /// `Aos` is not derived for an enum or a union.
    EnumOrUnion,
}

/// `s` is one of the words that `syn` does not take as an identifier.
pub open spec fn is_keyword(s: Seq<char>) -> bool {
    ||| s == "_"@
    ||| s == "abstract"@
    ||| s == "as"@
    ||| s == "async"@
    ||| s == "await"@
    ||| s == "become"@
    ||| s == "box"@
    ||| s == "break"@
    ||| s == "const"@
    ||| s == "continue"@
    ||| s == "crate"@
    ||| s == "do"@
    ||| s == "dyn"@
    ||| s == "else"@
    ||| s == "enum"@
    ||| s == "extern"@
    ||| s == "false"@
    ||| s == "final"@
    ||| s == "fn"@
    ||| s == "for"@
    ||| s == "if"@
    ||| s == "impl"@
    ||| s == "in"@
    ||| s == "let"@
    ||| s == "loop"@
    ||| s == "macro"@
    ||| s == "match"@
    ||| s == "mod"@
    ||| s == "move"@
    ||| s == "mut"@
    ||| s == "override"@
    ||| s == "priv"@
    ||| s == "pub"@
    ||| s == "ref"@
    ||| s == "return"@
    ||| s == "Self"@
    ||| s == "self"@
    ||| s == "static"@
    ||| s == "struct"@
    ||| s == "super"@
    ||| s == "trait"@
    ||| s == "true"@
    ||| s == "try"@
    ||| s == "type"@
    ||| s == "typeof"@
    ||| s == "unsafe"@
    ||| s == "unsized"@
    ||| s == "use"@
    ||| s == "virtual"@
    ||| s == "where"@
    ||| s == "while"@
    ||| s == "yield"@
}

/// `c` may begin a plain identifier: an ASCII letter or `_`.
pub open spec fn is_ident_start(c: char) -> bool {
    ('a' as int <= c as int <= 'z' as int) || ('A' as int <= c as int <= 'Z' as int) || c == '_'
}

/// `c` may continue a plain identifier: an ASCII letter, digit or `_`.
pub open spec fn is_ident_continue(c: char) -> bool {
    is_ident_start(c) || ('0' as int <= c as int <= '9' as int)
}

/// `s` is a plain identifier: ASCII letters, digits and `_`, not beginning
/// with a digit, and not a keyword.
pub open spec fn is_plain_ident(s: Seq<char>) -> bool {
    &&& s.len() > 0
    &&& is_ident_start(s[0])
    &&& forall|k: int| 1 <= k < s.len() ==> is_ident_continue(#[trigger] s[k])
    &&& !is_keyword(s)
}

/// `s` is made of spaces, tabs and line breaks only.
pub open spec fn is_whitespace(s: Seq<char>) -> bool {
    forall|k: int| 0 <= k < s.len() ==> #[trigger] s[k] == ' ' || s[k] == '\t' || s[k] == '\n'
}

/// The tokens `name: type,` of the given fields, in order.
pub open spec fn field_tokens(fields: Seq<(Seq<char>, Seq<char>)>) -> Seq<Seq<char>>
    decreases fields.len(),
{
    if fields.len() == 0 {
        Seq::empty()
    } else {
        field_tokens(fields.drop_last()) + seq![fields.last().0, ":"@, fields.last().1, ","@]
    }
}

/// The tokens of `struct name { field: type, ... }`.
pub open spec fn plain_struct_tokens(name: Seq<char>, fields: Seq<(Seq<char>, Seq<char>)>) -> Seq<
    Seq<char>,
> {
    seq!["struct"@, name, "{"@] + field_tokens(fields) + seq!["}"@]
}

/// The tokens written out with `ws[j]` before token `j` and `ws[len]` after
/// the last.
pub open spec fn interleave(tokens: Seq<Seq<char>>, ws: Seq<Seq<char>>) -> Seq<char>
    decreases tokens.len(),
{
    if tokens.len() == 0 {
        ws[0]
    } else {
        interleave(tokens.drop_last(), ws) + tokens.last() + ws[tokens.len() as int]
    }
}

/// `struct name { field: type, ... }`, spread over lines and spaces as `ws`
/// says, is a plain struct: the name, the field names and the field types are
/// plain identifiers, and only whitespace stands between the tokens, at least
/// one character of it between `struct` and the name.
pub open spec fn plain_struct_source(
    name: Seq<char>,
    fields: Seq<(Seq<char>, Seq<char>)>,
    ws: Seq<Seq<char>>,
) -> bool {
    &&& is_plain_ident(name)
    &&& forall|i: int|
        0 <= i < fields.len() ==> is_plain_ident(#[trigger] fields[i].0) && is_plain_ident(
            fields[i].1,
        )
    &&& ws.len() == plain_struct_tokens(name, fields).len() + 1
    &&& forall|j: int| 0 <= j < ws.len() ==> is_whitespace(#[trigger] ws[j])
    &&& ws[1].len() > 0
}

/// Where `source` is the text of a plain struct, `item` is that struct.
pub open spec fn parses_plain_structs(source: Seq<char>, item: Option<ParsedItem>) -> bool {
    forall|name: Seq<char>, fields: Seq<(Seq<char>, Seq<char>)>, ws: Seq<Seq<char>>|
        #[trigger] plain_struct_source(name, fields, ws) && source == interleave(
            plain_struct_tokens(name, fields),
            ws,
        ) ==> (item matches Some(ParsedItem::Struct(shape)) && shape_is(shape, name, fields))
}

/// `shape` is the struct `name` with the named fields `fields`, in order.
pub open spec fn shape_is(shape: StructShape, name: Seq<char>, fields: Seq<(Seq<char>, Seq<char>)>) -> bool {
    &&& shape.name@ == name
    &&& shape.fields matches StructFields::Named(v)
    &&& v@.len() == fields.len()
    &&& forall|i: int|
        0 <= i < fields.len() ==> (#[trigger] v@[i]).name@ == fields[i].0 && v@[i].ty@ == fields[i].1
}

proof fn lemma_entries_agree(f1: StructFields, f2: StructFields, k: int)
    requires
        forall|i: int|
            0 <= i < k ==> #[trigger] field_type(f1, i) == field_type(f2, i) && field_key(f1, i)
                == field_key(f2, i) && accessor_name(f1, i) == accessor_name(f2, i),
    ensures
        layout_entries(f1, k) == layout_entries(f2, k),
        offset_entries(f1, k) == offset_entries(f2, k),
        accessor_decls(f1, k) == accessor_decls(f2, k),
        accessor_defs(f1, k) == accessor_defs(f2, k),
    decreases k,
{
    if k > 0 {
        lemma_entries_agree(f1, f2, k - 1);
        assert(field_type(f1, k - 1) == field_type(f2, k - 1));
        assert(layout_entry(f1, k - 1) == layout_entry(f2, k - 1));
        assert(offset_entry(f1, k - 1) == offset_entry(f2, k - 1));
        assert(accessor_decl(f1, k - 1) == accessor_decl(f2, k - 1));
        assert(accessor_def(f1, k - 1) == accessor_def(f2, k - 1));
    }
}

/// The derived code depends only on the struct's name and its fields' names
/// and types: so two texts of one plain struct, however their whitespace and
/// line breaks differ, derive the same code through `derive_from_source`.
pub proof fn law_derived_code_depends_on_the_struct_alone(
    s1: StructShape,
    s2: StructShape,
    name: Seq<char>,
    fields: Seq<(Seq<char>, Seq<char>)>,
)
    requires
        shape_is(s1, name, fields),
        shape_is(s2, name, fields),
    ensures
        derived_code(s1) == derived_code(s2),
{
    let n = fields.len();
    assert(field_count(s1.fields) == n);
    assert(field_count(s2.fields) == n);
    assert forall|i: int| 0 <= i < n implies #[trigger] field_type(s1.fields, i) == field_type(
        s2.fields,
        i,
    ) && field_key(s1.fields, i) == field_key(s2.fields, i) && accessor_name(s1.fields, i)
        == accessor_name(s2.fields, i) by {
        let v1 = s1.fields->Named_0;
        let v2 = s2.fields->Named_0;
        assert(v1@[i].name@ == fields[i].0);
        assert(v2@[i].name@ == fields[i].0);
    }
    lemma_entries_agree(s1.fields, s2.fields, n as int);
    assert(metadata_impl(s1) == metadata_impl(s2));
    assert(accessors(s1) == accessors(s2));
}

/// Parses `source` with `syn::parse_str::<syn::DeriveInput>` and converts
/// the result: the struct's name and, for each field, its name and the text
/// of its type as `quote` prints it. How tokens are printed depends on whether
/// a procedural macro is running (`proc_macro2` then lexes and prints through
/// the compiler), so of most texts nothing is promised. Believed: the text of
/// a plain struct, `struct name { field: type, ... }` with plain identifiers
/// and any whitespace between the tokens, parses into that struct, its name
/// and its fields' names and types in order; a single identifier prints as
/// itself under either printer, and `syn` takes every identifier that is not
/// one of its keywords (`syn` ident.rs, `accept_as_ident`).
#[verifier::external_body]
fn parse_item(source: &str) -> (item: Option<ParsedItem>)
    ensures
        parses_plain_structs(source@, item),
{
    let input = syn::parse_str::<DeriveInput>(source).ok()?;
    let text = |t: &dyn ToTokens| t.to_token_stream().to_string();
    Some(match input.data {
        Data::Struct(d) => ParsedItem::Struct(StructShape { name: text(&input.ident), fields: match d.fields {
            Fields::Named(f) => StructFields::Named(f.named.iter().map(|f| NamedField { name: text(&f.ident), ty: text(&f.ty) }).collect()),
            Fields::Unnamed(f) => StructFields::Unnamed(f.unnamed.iter().map(|f| text(&f.ty)).collect()),
            Fields::Unit => return Some(ParsedItem::UnitStruct),
        } }),
        _ => ParsedItem::EnumOrUnion,
    })
}

/// `code` is what is derived for the parsed item `item`: the derived code of
/// a struct with fields, an error otherwise.
pub open spec fn derive_outcome(item: Option<ParsedItem>, code: Result<String, DeriveError>) -> bool {
    match item {
        None => code == Err::<String, DeriveError>(DeriveError::Unparsable),
        Some(ParsedItem::Struct(shape)) => code matches Ok(c) && c@ == derived_code(shape),
        Some(ParsedItem::UnitStruct) => code == Err::<String, DeriveError>(DeriveError::UnitStruct),
        Some(ParsedItem::EnumOrUnion) => code == Err::<String, DeriveError>(
            DeriveError::EnumOrUnion,
        ),
    }
}

/// The code derived for a parsed item: for a struct with fields its derived
/// code, otherwise the error that says why there is none (`Unparsable` for
/// `None`, the item that did not parse).
pub fn derive_from_parsed(item: Option<ParsedItem>) -> (code: Result<String, DeriveError>)
    ensures
        derive_outcome(item, code),
{
    match item {
        None => Err(DeriveError::Unparsable),
        Some(ParsedItem::Struct(shape)) => Ok(derive_aos(&shape)),
        Some(ParsedItem::UnitStruct) => Err(DeriveError::UnitStruct),
        Some(ParsedItem::EnumOrUnion) => Err(DeriveError::EnumOrUnion),
    }
}

/// The code that deriving `Aos` produces for the item whose source text is
/// `source`: `source` is parsed with `syn`, and the result handed to
/// `derive_from_parsed`. Whatever the parse gives, the result is what
/// `derive_from_parsed` gives for some parsed item: the derived code of some
/// struct, or an error.
pub fn derive_from_source(source: &str) -> (code: Result<String, DeriveError>)
    ensures
        exists|item: Option<ParsedItem>| derive_outcome(item, code),
        forall|name: Seq<char>, fields: Seq<(Seq<char>, Seq<char>)>, ws: Seq<Seq<char>>|
            #[trigger] plain_struct_source(name, fields, ws) && source@ == interleave(
                plain_struct_tokens(name, fields),
                ws,
            ) ==> (code matches Ok(c) && exists|shape: StructShape|
                shape_is(shape, name, fields) && c@ == derived_code(shape)),
{
    let item = parse_item(source);
    let ghost parsed = item;
    let code = derive_from_parsed(item);
    assert(derive_outcome(parsed, code));
    code
}

} // verus!
