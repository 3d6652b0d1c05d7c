use vstd::prelude::*;
use crate::config_syntax::{parse_config, parse_config_of, SyntaxError, TokenTree};

verus! {

/// A type of the configuration description language: a scalar, a literal string, an array of a
/// type, a struct of named fields, or an enum of alternatives.
#[derive(Debug, PartialEq, Eq)]
pub enum TypeDesc {
    Bool,
    Int,
    Uint,
    Str,
    Color,
    LitStr(String),
    Array(Box<TypeDesc>),
    Struct(Vec<FieldDesc>),
    Enum(Vec<TypeDesc>),
}

/// A named field of a struct description.
#[derive(Debug, PartialEq, Eq)]
pub struct FieldDesc {
    pub name: String,
    pub ty: TypeDesc,
}

/// The Rust type of a generated field or variant.
#[derive(Debug, PartialEq, Eq)]
pub enum FieldType {
    Bool,
    I32,
    U32,
    String,
    Color,
    Vec(String),
    Named(String),
}

/// A generated struct field: public and optional.
#[derive(Debug, PartialEq, Eq)]
pub struct FieldDecl {
    pub name: String,
    pub ty: FieldType,
}

/// A generated enum variant: without data, or holding one value.
#[derive(Debug, PartialEq, Eq)]
pub enum VariantDecl {
    Unit(String),
    Tuple(String, FieldType),
}

/// A generated method of an enum: `name` gives each variant's literal string, `discrim` each
/// variant's index, and a field-named method each variant's value of its first field.
#[derive(Debug, PartialEq, Eq)]
pub enum EnumFn {
    Name(Vec<(String, String)>),
    Discrim(Vec<String>),
    Field(String, Vec<(String, String)>),
}

/// A generated declaration.
#[derive(Debug, PartialEq, Eq)]
pub enum TypeDecl {
    Struct(String, Vec<FieldDecl>),
    Enum(String, Vec<VariantDecl>),
    Impl(String, Vec<EnumFn>),
}

/// Why a description generates no declarations.
#[derive(Debug, PartialEq, Eq)]
pub enum DescError {
    /// A field's type is a literal string.
    LitStrField(String),
    /// An enum's alternatives are neither all literal strings, nor all structs, nor distinct
    /// scalars and structs.
    BadEnum,
    /// A struct alternative has no field.
    MissingDiscrimField,
    /// A struct alternative's first field is named otherwise than the first alternative's.
    DiscrimFieldName(String),
    /// A struct alternative's first field is not a literal string.
    DiscrimNotLitStr(String),
    /// A generated name is not an identifier: a literal string's camel case, or an array
    /// field's name without its trailing `s` characters.
    InvalidName(String),
}

pub enum FieldTypeV {
    Bool,
    I32,
    U32,
    String,
    Color,
    Vec(Seq<char>),
    Named(Seq<char>),
}

pub struct FieldV {
    pub name: Seq<char>,
    pub ty: FieldTypeV,
}

pub enum VariantV {
    Unit(Seq<char>),
    Tuple(Seq<char>, FieldTypeV),
}

pub enum EnumFnV {
    Name(Seq<(Seq<char>, Seq<char>)>),
    Discrim(Seq<Seq<char>>),
    Field(Seq<char>, Seq<(Seq<char>, Seq<char>)>),
}

pub enum DeclV {
    Struct(Seq<char>, Seq<FieldV>),
    Enum(Seq<char>, Seq<VariantV>),
    Impl(Seq<char>, Seq<EnumFnV>),
}

pub enum DescErrorV {
    LitStrField(Seq<char>),
    BadEnum,
    MissingDiscrimField,
    DiscrimFieldName(Seq<char>),
    DiscrimNotLitStr(Seq<char>),
    InvalidName(Seq<char>),
}

pub open spec fn field_type_view(t: FieldType) -> FieldTypeV {
    match t {
        FieldType::Bool => FieldTypeV::Bool,
        FieldType::I32 => FieldTypeV::I32,
        FieldType::U32 => FieldTypeV::U32,
        FieldType::String => FieldTypeV::String,
        FieldType::Color => FieldTypeV::Color,
        FieldType::Vec(n) => FieldTypeV::Vec(n@),
        FieldType::Named(n) => FieldTypeV::Named(n@),
    }
}

pub open spec fn field_decl_view(f: FieldDecl) -> FieldV {
    FieldV { name: f.name@, ty: field_type_view(f.ty) }
}

pub open spec fn variant_view(v: VariantDecl) -> VariantV {
    match v {
        VariantDecl::Unit(n) => VariantV::Unit(n@),
        VariantDecl::Tuple(n, t) => VariantV::Tuple(n@, field_type_view(t)),
    }
}

pub open spec fn arms_view(s: Seq<(String, String)>) -> Seq<(Seq<char>, Seq<char>)> {
    s.map_values(|a: (String, String)| (a.0@, a.1@))
}

pub open spec fn names_view(s: Seq<String>) -> Seq<Seq<char>> {
    s.map_values(|n: String| n@)
}

pub open spec fn enum_fn_view(f: EnumFn) -> EnumFnV {
    match f {
        EnumFn::Name(arms) => EnumFnV::Name(arms_view(arms@)),
        EnumFn::Discrim(names) => EnumFnV::Discrim(names_view(names@)),
        EnumFn::Field(n, arms) => EnumFnV::Field(n@, arms_view(arms@)),
    }
}

pub open spec fn decl_view(d: TypeDecl) -> DeclV {
    match d {
        TypeDecl::Struct(n, fs) => DeclV::Struct(n@, field_decls_view(fs@)),
        TypeDecl::Enum(n, vs) => DeclV::Enum(n@, variants_view(vs@)),
        TypeDecl::Impl(n, fns) => DeclV::Impl(n@, fns@.map_values(|f: EnumFn| enum_fn_view(f))),
    }
}

pub open spec fn decls_view(s: Seq<TypeDecl>) -> Seq<DeclV> {
    s.map_values(|d: TypeDecl| decl_view(d))
}

pub open spec fn variants_view(s: Seq<VariantDecl>) -> Seq<VariantV> {
    s.map_values(|v: VariantDecl| variant_view(v))
}

pub open spec fn field_decls_view(s: Seq<FieldDecl>) -> Seq<FieldV> {
    s.map_values(|f: FieldDecl| field_decl_view(f))
}

pub open spec fn desc_error_view(e: DescError) -> DescErrorV {
    match e {
        DescError::LitStrField(s) => DescErrorV::LitStrField(s@),
        DescError::BadEnum => DescErrorV::BadEnum,
        DescError::MissingDiscrimField => DescErrorV::MissingDiscrimField,
        DescError::DiscrimFieldName(s) => DescErrorV::DiscrimFieldName(s@),
        DescError::DiscrimNotLitStr(s) => DescErrorV::DiscrimNotLitStr(s@),
        DescError::InvalidName(s) => DescErrorV::InvalidName(s@),
    }
}

/// The text that `heck`'s `to_camel_case` makes of a text.
pub uninterp spec fn camel_case(s: Seq<char>) -> Seq<char>;

/// `heck::CamelCase::to_camel_case` on a text; its result is named by `camel_case`.
#[verifier::external_body]
fn to_camel_case(s: &str) -> (r: String)
    ensures
        r@ == camel_case(s@),
{
    heck::CamelCase::to_camel_case(s)
}

/// Whether `syn` reads the text as exactly one identifier token, keywords included.
pub uninterp spec fn one_ident(s: Seq<char>) -> bool;

/// `syn::parse_str` with `syn::ext::IdentExt::parse_any` on a text; the result is named by
/// `one_ident`.
#[verifier::external_body]
fn is_one_ident(s: &str) -> (r: bool)
    ensures
        r == one_ident(s@),
{
    syn::parse::Parser::parse_str(<syn::Ident as syn::ext::IdentExt>::parse_any, s).is_ok()
}

/// The names of a path joined by underscores.
pub open spec fn underscore_joined(path: Seq<Seq<char>>) -> Seq<char>
    decreases path.len(),
{
    if path.len() <= 1 {
        if path.len() == 1 {
            path[0]
        } else {
            Seq::empty()
        }
    } else {
        underscore_joined(path.drop_last()) + seq!['_'] + path.last()
    }
}

/// The type name of a path: its names joined by underscores, in camel case.
pub open spec fn path_type_name(path: Seq<Seq<char>>) -> Seq<char> {
    camel_case(underscore_joined(path))
}

/// A name without its trailing `s` characters.
pub open spec fn trim_s(name: Seq<char>) -> Seq<char>
    decreases name.len(),
{
    if name.len() > 0 && name.last() == 's' {
        trim_s(name.drop_last())
    } else {
        name
    }
}

/// The path with its last name made singular: its trailing `s` characters dropped.
pub open spec fn singular(path: Seq<Seq<char>>) -> Seq<Seq<char>> {
    if path.len() == 0 {
        path
    } else {
        path.drop_last().push(trim_s(path.last()))
    }
}

/// The Rust type of a field of the description `t` at `path`; a literal string cannot be one.
pub open spec fn field_type(t: TypeDesc, path: Seq<Seq<char>>) -> Result<FieldTypeV, DescErrorV> {
    match t {
        TypeDesc::Bool => Ok(FieldTypeV::Bool),
        TypeDesc::Int => Ok(FieldTypeV::I32),
        TypeDesc::Uint => Ok(FieldTypeV::U32),
        TypeDesc::Str => Ok(FieldTypeV::String),
        TypeDesc::Color => Ok(FieldTypeV::Color),
        TypeDesc::LitStr(s) => Err(DescErrorV::LitStrField(s@)),
        TypeDesc::Array(_) => if path.len() > 0 && trim_s(path.last()).len() == 0 {
            Err(DescErrorV::InvalidName(Seq::empty()))
        } else {
            Ok(FieldTypeV::Vec(path_type_name(singular(path))))
        },
        TypeDesc::Struct(_) => Ok(FieldTypeV::Named(path_type_name(path))),
        TypeDesc::Enum(_) => Ok(FieldTypeV::Named(path_type_name(path))),
    }
}

/// The declarations that the description `t` at `path` generates, in order: an array's element
/// at the singular path, a struct's nested declarations field by field and then the struct, an
/// enum's nested declarations, the enum, and its methods.
pub open spec fn type_decls(t: TypeDesc, path: Seq<Seq<char>>) -> Result<Seq<DeclV>, DescErrorV>
    decreases t,
{
    match t {
        TypeDesc::Array(e) => type_decls(*e, singular(path)),
        TypeDesc::Struct(fields) => struct_decls(fields@, path, Seq::empty(), Seq::empty()),
        TypeDesc::Enum(vs) => enum_decls(vs@, path),
        _ => Ok(Seq::empty()),
    }
}

/// The declarations of a struct's remaining fields after `decls` and `fs`, then the struct.
pub open spec fn struct_decls(
    fields: Seq<FieldDesc>,
    path: Seq<Seq<char>>,
    decls: Seq<DeclV>,
    fs: Seq<FieldV>,
) -> Result<Seq<DeclV>, DescErrorV>
    decreases fields,
{
    if fields.len() == 0 {
        Ok(decls.push(DeclV::Struct(path_type_name(path), fs)))
    } else {
        let f = fields[0];
        let pf = path.push(f.name@);
        match field_type(f.ty, pf) {
            Err(e) => Err(e),
            Ok(ft) => match type_decls(f.ty, pf) {
                Err(e) => Err(e),
                Ok(nested) => struct_decls(
                    fields.drop_first(),
                    path,
                    decls + nested,
                    fs.push(FieldV { name: f.name@, ty: ft }),
                ),
            },
        }
    }
}

pub open spec fn all_lit(vs: Seq<TypeDesc>) -> bool {
    forall|i: int| 0 <= i < vs.len() ==> #[trigger] vs[i] is LitStr
}

pub open spec fn all_struct(vs: Seq<TypeDesc>) -> bool {
    forall|i: int| 0 <= i < vs.len() ==> #[trigger] vs[i] is Struct
}

/// Every alternative is a scalar or a struct.
pub open spec fn all_plain(vs: Seq<TypeDesc>) -> bool {
    forall|i: int| 0 <= i < vs.len() ==> !(#[trigger] vs[i] is LitStr || vs[i] is Array || vs[i] is Enum)
}

/// The kind an alternative counts as when alternatives must differ: an int and a uint count
/// alike.
pub open spec fn kind_class(t: TypeDesc) -> int {
    match t {
        TypeDesc::Bool => 0,
        TypeDesc::Int => 1,
        TypeDesc::Uint => 1,
        TypeDesc::Str => 2,
        TypeDesc::Color => 3,
        TypeDesc::Struct(_) => 4,
        _ => 5,
    }
}

/// No two alternatives are of the same kind.
pub open spec fn unique_kinds(vs: Seq<TypeDesc>) -> bool {
    forall|i: int, j: int| 0 <= i < j < vs.len() ==> kind_class(#[trigger] vs[i]) != kind_class(#[trigger] vs[j])
}

/// The declarations of an enum at `path`.
pub open spec fn enum_decls(vs: Seq<TypeDesc>, path: Seq<Seq<char>>) -> Result<Seq<DeclV>, DescErrorV>
    decreases vs, 1nat,
{
    let name = path_type_name(path);
    if all_lit(vs) {
        match lit_name_error(vs) {
            Some(n) => Err(DescErrorV::InvalidName(n)),
            None => Ok(
                seq![
                    DeclV::Enum(name, lit_variants(vs)),
                    DeclV::Impl(name, seq![EnumFnV::Name(lit_arms(vs)), EnumFnV::Discrim(lit_names(vs))]),
                ],
            ),
        }
    } else if all_struct(vs) {
        enum_struct_decls(vs, path, None, Seq::empty(), Seq::empty(), Seq::empty())
    } else if all_plain(vs) && unique_kinds(vs) {
        enum_unique_decls(vs, path, Seq::empty(), Seq::empty())
    } else {
        Err(DescErrorV::BadEnum)
    }
}

/// The text of a literal-string alternative.
pub open spec fn lit_text(t: TypeDesc) -> Seq<char> {
    match t {
        TypeDesc::LitStr(s) => s@,
        _ => Seq::empty(),
    }
}

/// The first camel case of a literal-string alternative that is not an identifier.
pub open spec fn lit_name_error(vs: Seq<TypeDesc>) -> Option<Seq<char>>
    decreases vs.len(),
{
    if vs.len() == 0 {
        None
    } else if !one_ident(camel_case(lit_text(vs[0]))) {
        Some(camel_case(lit_text(vs[0])))
    } else {
        lit_name_error(vs.drop_first())
    }
}

pub open spec fn lit_variants(vs: Seq<TypeDesc>) -> Seq<VariantV> {
    vs.map_values(|t: TypeDesc| VariantV::Unit(camel_case(lit_text(t))))
}

pub open spec fn lit_arms(vs: Seq<TypeDesc>) -> Seq<(Seq<char>, Seq<char>)> {
    vs.map_values(|t: TypeDesc| (camel_case(lit_text(t)), lit_text(t)))
}

pub open spec fn lit_names(vs: Seq<TypeDesc>) -> Seq<Seq<char>> {
    vs.map_values(|t: TypeDesc| camel_case(lit_text(t)))
}

/// The declarations of an enum of struct alternatives, after the nested declarations `decls`,
/// the variants and the arms of the alternatives before; `dname` is the first field's name, once
/// an alternative gave it.
pub open spec fn enum_struct_decls(
    vs: Seq<TypeDesc>,
    path: Seq<Seq<char>>,
    dname: Option<Seq<char>>,
    decls: Seq<DeclV>,
    variants: Seq<VariantV>,
    arms: Seq<(Seq<char>, Seq<char>)>,
) -> Result<Seq<DeclV>, DescErrorV>
    decreases vs, 0nat,
{
    if vs.len() == 0 {
        let name = path_type_name(path);
        match dname {
            Some(d) => Ok(decls + seq![DeclV::Enum(name, variants), DeclV::Impl(name, seq![EnumFnV::Field(d, arms)])]),
            None => Ok(decls.push(DeclV::Enum(name, variants))),
        }
    } else {
        match vs[0] {
            TypeDesc::Struct(fields) => {
                if fields.len() == 0 {
                    Err(DescErrorV::MissingDiscrimField)
                } else {
                    let first = fields[0];
                    if dname is Some && first.name@ != dname->0 {
                        Err(DescErrorV::DiscrimFieldName(first.name@))
                    } else {
                        match first.ty {
                            TypeDesc::LitStr(lit) => if !one_ident(camel_case(lit@)) {
                                Err(DescErrorV::InvalidName(camel_case(lit@)))
                            } else {
                                let vname = camel_case(lit@);
                                let pv = path.push(vname);
                                let rest = fields@.drop_first();
                                let arms2 = arms.push((vname, lit@));
                                let d2 = Some(first.name@);
                                if rest.len() == 0 {
                                    enum_struct_decls(
                                        vs.drop_first(),
                                        path,
                                        d2,
                                        decls,
                                        variants.push(VariantV::Unit(vname)),
                                        arms2,
                                    )
                                } else {
                                    match struct_decls(rest, pv, Seq::empty(), Seq::empty()) {
                                        Err(e) => Err(e),
                                        Ok(nested) => enum_struct_decls(
                                            vs.drop_first(),
                                            path,
                                            d2,
                                            decls + nested,
                                            variants.push(
                                                VariantV::Tuple(vname, FieldTypeV::Named(path_type_name(pv))),
                                            ),
                                            arms2,
                                        ),
                                    }
                                }
                            },
                            _ => Err(DescErrorV::DiscrimNotLitStr(first.name@)),
                        }
                    }
                }
            },
            _ => Err(DescErrorV::BadEnum),
        }
    }
}

/// The variant name of an alternative of distinct kinds.
pub open spec fn kind_name(t: TypeDesc) -> Seq<char> {
    match t {
        TypeDesc::Bool => seq!['B', 'o', 'o', 'l'],
        TypeDesc::Int => seq!['I', 'n', 't'],
        TypeDesc::Uint => seq!['U', 'i', 'n', 't'],
        TypeDesc::Str => seq!['S', 't', 'r'],
        TypeDesc::Color => seq!['C', 'o', 'l', 'o', 'r'],
        _ => seq!['S', 't', 'r', 'u', 'c', 't'],
    }
}

/// The declarations of an enum of alternatives of distinct kinds, after `decls` and `variants`.
pub open spec fn enum_unique_decls(
    vs: Seq<TypeDesc>,
    path: Seq<Seq<char>>,
    decls: Seq<DeclV>,
    variants: Seq<VariantV>,
) -> Result<Seq<DeclV>, DescErrorV>
    decreases vs, 0nat,
{
    if vs.len() == 0 {
        Ok(decls.push(DeclV::Enum(path_type_name(path), variants)))
    } else {
        let t = vs[0];
        let vname = kind_name(t);
        let pv = path.push(vname);
        let vt = match t {
            TypeDesc::Bool => FieldTypeV::Bool,
            TypeDesc::Int => FieldTypeV::I32,
            TypeDesc::Uint => FieldTypeV::U32,
            TypeDesc::Str => FieldTypeV::String,
            TypeDesc::Color => FieldTypeV::Color,
            _ => FieldTypeV::Named(path_type_name(pv)),
        };
        match type_decls(t, pv) {
            Err(e) => Err(e),
            Ok(nested) => enum_unique_decls(
                vs.drop_first(),
                path,
                decls + nested,
                variants.push(VariantV::Tuple(vname, vt)),
            ),
        }
    }
}

/// The declarations that the description of a configuration generates: the type `Config` and
/// all it holds.
pub open spec fn config_decls(config: TypeDesc) -> Result<Seq<DeclV>, DescErrorV> {
    type_decls(config, seq![seq!['c', 'o', 'n', 'f', 'i', 'g']])
}

/// A type description as a mathematical value: what a `TypeDesc` holds, with texts for strings.
pub enum TyV {
    Bool,
    Int,
    Uint,
    Str,
    Color,
    LitStr(Seq<char>),
    Array(Box<TyV>),
    Struct(Seq<FieldTV>),
    Enum(Seq<TyV>),
}

/// A named field of a struct description, as a mathematical value.
pub struct FieldTV {
    pub name: Seq<char>,
    pub ty: TyV,
}

/// The content of a type description.
pub open spec fn desc_view(t: TypeDesc) -> TyV
    decreases t,
{
    match t {
        TypeDesc::Bool => TyV::Bool,
        TypeDesc::Int => TyV::Int,
        TypeDesc::Uint => TyV::Uint,
        TypeDesc::Str => TyV::Str,
        TypeDesc::Color => TyV::Color,
        TypeDesc::LitStr(s) => TyV::LitStr(s@),
        TypeDesc::Array(e) => TyV::Array(Box::new(desc_view(*e))),
        TypeDesc::Struct(fs) => TyV::Struct(fields_view(fs@)),
        TypeDesc::Enum(vs) => TyV::Enum(descs_view(vs@)),
    }
}

/// The content of a struct description's fields.
pub open spec fn fields_view(fs: Seq<FieldDesc>) -> Seq<FieldTV>
    decreases fs,
{
    if fs.len() == 0 {
        Seq::empty()
    } else {
        fields_view(fs.drop_last()).push(FieldTV { name: fs.last().name@, ty: desc_view(fs.last().ty) })
    }
}

/// The content of an enum description's alternatives.
pub open spec fn descs_view(vs: Seq<TypeDesc>) -> Seq<TyV>
    decreases vs,
{
    if vs.len() == 0 {
        Seq::empty()
    } else {
        descs_view(vs.drop_last()).push(desc_view(vs.last()))
    }
}

/// The declarations that a configuration of content `tv` generates: those of any description
/// with that content, which all generate the same (`lemma_config_decls_view`).
pub open spec fn view_config_decls(tv: TyV) -> Result<Seq<DeclV>, DescErrorV> {
    config_decls(choose|t: TypeDesc| desc_view(t) == tv)
}

/// The content of a field list holds, at each position, the content of the field there.
proof fn lemma_fields_view(fs: Seq<FieldDesc>)
    ensures
        fields_view(fs).len() == fs.len(),
        forall|k: int|
            0 <= k < fs.len() ==> #[trigger] fields_view(fs)[k] == (FieldTV {
                name: fs[k].name@,
                ty: desc_view(fs[k].ty),
            }),
    decreases fs.len(),
{
    if fs.len() > 0 {
        lemma_fields_view(fs.drop_last());
    }
}

/// The content of an alternative list holds, at each position, the content of the alternative
/// there.
proof fn lemma_descs_view(vs: Seq<TypeDesc>)
    ensures
        descs_view(vs).len() == vs.len(),
        forall|k: int| 0 <= k < vs.len() ==> #[trigger] descs_view(vs)[k] == desc_view(vs[k]),
    decreases vs.len(),
{
    if vs.len() > 0 {
        lemma_descs_view(vs.drop_last());
    }
}

/// Two field lists of the same content, field by field.
pub open spec fn same_fields(fa: Seq<FieldDesc>, fb: Seq<FieldDesc>) -> bool {
    &&& fa.len() == fb.len()
    &&& forall|k: int|
        0 <= k < fa.len() ==> (#[trigger] fa[k]).name@ == fb[k].name@ && desc_view(fa[k].ty) == desc_view(
            fb[k].ty,
        )
}

/// Two alternative lists of the same content, alternative by alternative.
pub open spec fn same_descs(va: Seq<TypeDesc>, vb: Seq<TypeDesc>) -> bool {
    &&& va.len() == vb.len()
    &&& forall|k: int| 0 <= k < va.len() ==> desc_view(#[trigger] va[k]) == desc_view(vb[k])
}

proof fn lemma_same_fields(fa: Seq<FieldDesc>, fb: Seq<FieldDesc>)
    requires
        fields_view(fa) == fields_view(fb),
    ensures
        same_fields(fa, fb),
{
    lemma_fields_view(fa);
    lemma_fields_view(fb);
    assert forall|k: int| 0 <= k < fa.len() implies (#[trigger] fa[k]).name@ == fb[k].name@ && desc_view(
        fa[k].ty,
    ) == desc_view(fb[k].ty) by {
        assert(k < fb.len());
        assert(fields_view(fa)[k] == fields_view(fb)[k]);
        assert(fields_view(fa)[k].name == fa[k].name@);
        assert(fields_view(fb)[k].name == fb[k].name@);
    }
}

proof fn lemma_same_descs(va: Seq<TypeDesc>, vb: Seq<TypeDesc>)
    requires
        descs_view(va) == descs_view(vb),
    ensures
        same_descs(va, vb),
{
    lemma_descs_view(va);
    lemma_descs_view(vb);
    assert forall|k: int| 0 <= k < va.len() implies desc_view(#[trigger] va[k]) == desc_view(vb[k]) by {
        assert(k < vb.len());
        assert(descs_view(va)[k] == descs_view(vb)[k]);
        assert(descs_view(va)[k] == desc_view(va[k]));
        assert(descs_view(vb)[k] == desc_view(vb[k]));
    }
}

/// What the declarations read of a description without looking inside it agrees between two
/// descriptions of the same content.
proof fn lemma_same_shape(x: TypeDesc, y: TypeDesc, p: Seq<Seq<char>>)
    requires
        desc_view(x) == desc_view(y),
    ensures
        x is LitStr <==> y is LitStr,
        x is Struct <==> y is Struct,
        x is Array <==> y is Array,
        x is Enum <==> y is Enum,
        kind_class(x) == kind_class(y),
        kind_name(x) == kind_name(y),
        lit_text(x) == lit_text(y),
        field_type(x, p) == field_type(y, p),
{
    match x {
        TypeDesc::Bool => { assert(y is Bool) },
        TypeDesc::Int => { assert(y is Int) },
        TypeDesc::Uint => { assert(y is Uint) },
        TypeDesc::Str => { assert(y is Str) },
        TypeDesc::Color => { assert(y is Color) },
        TypeDesc::LitStr(_) => { assert(y is LitStr) },
        TypeDesc::Array(_) => { assert(y is Array) },
        TypeDesc::Struct(_) => { assert(y is Struct) },
        TypeDesc::Enum(_) => { assert(y is Enum) },
    }
}

proof fn lemma_type_decls_view(a: TypeDesc, b: TypeDesc, p: Seq<Seq<char>>)
    requires
        desc_view(a) == desc_view(b),
    ensures
        type_decls(a, p) == type_decls(b, p),
    decreases a, 3nat,
{
    lemma_same_shape(a, b, p);
    match a {
        TypeDesc::Array(ea) => {
            match b {
                TypeDesc::Array(eb) => {
                    lemma_type_decls_view(*ea, *eb, singular(p));
                },
                _ => {},
            }
        },
        TypeDesc::Struct(fa) => {
            match b {
                TypeDesc::Struct(fb) => {
                    lemma_same_fields(fa@, fb@);
                    lemma_struct_decls_view(fa@, fb@, p, Seq::empty(), Seq::empty());
                },
                _ => {},
            }
        },
        TypeDesc::Enum(va) => {
            match b {
                TypeDesc::Enum(vb) => {
                    lemma_same_descs(va@, vb@);
                    lemma_enum_decls_view(va@, vb@, p);
                },
                _ => {},
            }
        },
        _ => {},
    }
}

proof fn lemma_struct_decls_view(
    fa: Seq<FieldDesc>,
    fb: Seq<FieldDesc>,
    p: Seq<Seq<char>>,
    d: Seq<DeclV>,
    fs: Seq<FieldV>,
)
    requires
        same_fields(fa, fb),
    ensures
        struct_decls(fa, p, d, fs) == struct_decls(fb, p, d, fs),
    decreases fa, 3nat,
{
    if fa.len() > 0 {
        let f = fa[0];
        let g = fb[0];
        let pf = p.push(f.name@);
        assert(f.name@ == g.name@);
        assert(decreases_to!(fa => fa[0]));
        lemma_same_shape(f.ty, g.ty, pf);
        lemma_type_decls_view(f.ty, g.ty, pf);
        assert(same_fields(fa.drop_first(), fb.drop_first())) by {
            assert forall|k: int| 0 <= k < fa.drop_first().len() implies (
            #[trigger] fa.drop_first()[k]).name@ == fb.drop_first()[k].name@ && desc_view(
                fa.drop_first()[k].ty,
            ) == desc_view(fb.drop_first()[k].ty) by {
                assert(fa.drop_first()[k] == fa[k + 1]);
                assert(fb.drop_first()[k] == fb[k + 1]);
            }
        }
        match field_type(f.ty, pf) {
            Ok(ft) => {
                match type_decls(f.ty, pf) {
                    Ok(nested) => {
                        lemma_struct_decls_view(
                            fa.drop_first(),
                            fb.drop_first(),
                            p,
                            d + nested,
                            fs.push(FieldV { name: f.name@, ty: ft }),
                        );
                    },
                    Err(_) => {},
                }
            },
            Err(_) => {},
        }
    }
}

proof fn lemma_same_descs_rest(va: Seq<TypeDesc>, vb: Seq<TypeDesc>)
    requires
        same_descs(va, vb),
        va.len() > 0,
    ensures
        same_descs(va.drop_first(), vb.drop_first()),
{
    assert forall|k: int| 0 <= k < va.drop_first().len() implies desc_view(
        #[trigger] va.drop_first()[k],
    ) == desc_view(vb.drop_first()[k]) by {
        assert(va.drop_first()[k] == va[k + 1]);
        assert(vb.drop_first()[k] == vb[k + 1]);
    }
}

proof fn lemma_enum_decls_view(va: Seq<TypeDesc>, vb: Seq<TypeDesc>, p: Seq<Seq<char>>)
    requires
        same_descs(va, vb),
    ensures
        enum_decls(va, p) == enum_decls(vb, p),
    decreases va, 2nat,
{
    assert forall|k: int| 0 <= k < va.len() implies {
        &&& (va[k] is LitStr <==> vb[k] is LitStr)
        &&& (va[k] is Struct <==> vb[k] is Struct)
        &&& (va[k] is Array <==> vb[k] is Array)
        &&& (va[k] is Enum <==> vb[k] is Enum)
        &&& kind_class(va[k]) == kind_class(vb[k])
        &&& lit_text(va[k]) == lit_text(vb[k])
    } by {
        lemma_same_shape(va[k], vb[k], p);
    }
    assert(all_lit(va) == all_lit(vb));
    assert(all_struct(va) == all_struct(vb));
    assert(all_plain(va) == all_plain(vb));
    assert(unique_kinds(va) == unique_kinds(vb));
    assert(lit_variants(va) =~= lit_variants(vb));
    assert(lit_arms(va) =~= lit_arms(vb));
    assert(lit_names(va) =~= lit_names(vb));
    lemma_lit_name_error_view(va, vb, p);
    lemma_enum_struct_decls_view(va, vb, p, None, Seq::empty(), Seq::empty(), Seq::empty());
    lemma_enum_unique_decls_view(va, vb, p, Seq::empty(), Seq::empty());
}

proof fn lemma_lit_name_error_view(va: Seq<TypeDesc>, vb: Seq<TypeDesc>, p: Seq<Seq<char>>)
    requires
        same_descs(va, vb),
    ensures
        lit_name_error(va) == lit_name_error(vb),
    decreases va.len(),
{
    if va.len() > 0 {
        lemma_same_shape(va[0], vb[0], p);
        lemma_same_descs_rest(va, vb);
        lemma_lit_name_error_view(va.drop_first(), vb.drop_first(), p);
    }
}

proof fn lemma_enum_struct_decls_view(
    va: Seq<TypeDesc>,
    vb: Seq<TypeDesc>,
    p: Seq<Seq<char>>,
    dname: Option<Seq<char>>,
    decls: Seq<DeclV>,
    variants: Seq<VariantV>,
    arms: Seq<(Seq<char>, Seq<char>)>,
)
    requires
        same_descs(va, vb),
    ensures
        enum_struct_decls(va, p, dname, decls, variants, arms) == enum_struct_decls(
            vb,
            p,
            dname,
            decls,
            variants,
            arms,
        ),
    decreases va, 1nat,
{
    if va.len() > 0 {
        lemma_same_shape(va[0], vb[0], p);
        lemma_same_descs_rest(va, vb);
        match va[0] {
            TypeDesc::Struct(fa) => {
                match vb[0] {
                    TypeDesc::Struct(fb) => {
                        lemma_same_fields(fa@, fb@);
                        if fa.len() > 0 {
                            let first = fa@[0];
                            let gfirst = fb@[0];
                            lemma_same_shape(first.ty, gfirst.ty, p);
                            match first.ty {
                                TypeDesc::LitStr(lit) => {
                                    let vname = camel_case(lit@);
                                    let pv = p.push(vname);
                                    let rest = fa@.drop_first();
                                    let rest_b = fb@.drop_first();
                                    let arms2 = arms.push((vname, lit@));
                                    let d2 = Some(first.name@);
                                    assert(same_fields(rest, rest_b)) by {
                                        assert forall|k: int| 0 <= k < rest.len() implies (
                                        #[trigger] rest[k]).name@ == rest_b[k].name@ && desc_view(
                                            rest[k].ty,
                                        ) == desc_view(rest_b[k].ty) by {
                                            assert(rest[k] == fa@[k + 1]);
                                            assert(rest_b[k] == fb@[k + 1]);
                                        }
                                    }
                                    assert(decreases_to!(va => va[0]));
                                    assert(decreases_to!(va[0] => fa));
                                    assert(decreases_to!(fa => fa@));
                                    assert(decreases_to!(fa@ => rest));
                                    lemma_struct_decls_view(rest, rest_b, pv, Seq::empty(), Seq::empty());
                                    if rest.len() == 0 {
                                        lemma_enum_struct_decls_view(
                                            va.drop_first(),
                                            vb.drop_first(),
                                            p,
                                            d2,
                                            decls,
                                            variants.push(VariantV::Unit(vname)),
                                            arms2,
                                        );
                                    } else {
                                        match struct_decls(rest, pv, Seq::empty(), Seq::empty()) {
                                            Ok(nested) => {
                                                lemma_enum_struct_decls_view(
                                                    va.drop_first(),
                                                    vb.drop_first(),
                                                    p,
                                                    d2,
                                                    decls + nested,
                                                    variants.push(
                                                        VariantV::Tuple(
                                                            vname,
                                                            FieldTypeV::Named(path_type_name(pv)),
                                                        ),
                                                    ),
                                                    arms2,
                                                );
                                            },
                                            Err(_) => {},
                                        }
                                    }
                                },
                                _ => {},
                            }
                        }
                    },
                    _ => {},
                }
            },
            _ => {},
        }
    }
}

proof fn lemma_enum_unique_decls_view(
    va: Seq<TypeDesc>,
    vb: Seq<TypeDesc>,
    p: Seq<Seq<char>>,
    decls: Seq<DeclV>,
    variants: Seq<VariantV>,
)
    requires
        same_descs(va, vb),
    ensures
        enum_unique_decls(va, p, decls, variants) == enum_unique_decls(vb, p, decls, variants),
    decreases va, 1nat,
{
    if va.len() > 0 {
        let t = va[0];
        let vname = kind_name(t);
        let pv = p.push(vname);
        lemma_same_shape(t, vb[0], pv);
        lemma_same_descs_rest(va, vb);
        assert(decreases_to!(va => va[0]));
        lemma_type_decls_view(t, vb[0], pv);
        let vt = match t {
            TypeDesc::Bool => FieldTypeV::Bool,
            TypeDesc::Int => FieldTypeV::I32,
            TypeDesc::Uint => FieldTypeV::U32,
            TypeDesc::Str => FieldTypeV::String,
            TypeDesc::Color => FieldTypeV::Color,
            _ => FieldTypeV::Named(path_type_name(pv)),
        };
        match type_decls(t, pv) {
            Ok(nested) => {
                lemma_enum_unique_decls_view(
                    va.drop_first(),
                    vb.drop_first(),
                    p,
                    decls + nested,
                    variants.push(VariantV::Tuple(vname, vt)),
                );
            },
            Err(_) => {},
        }
    }
}

/// The declarations of a configuration depend on its description's content alone.
pub proof fn lemma_config_decls_view(a: TypeDesc, b: TypeDesc)
    requires
        desc_view(a) == desc_view(b),
    ensures
        config_decls(a) == config_decls(b),
        view_config_decls(desc_view(a)) == config_decls(a),
{
    lemma_type_decls_view(a, b, seq![seq!['c', 'o', 'n', 'f', 'i', 'g']]);
    let c = choose|t: TypeDesc| desc_view(t) == desc_view(a);
    lemma_type_decls_view(a, c, seq![seq!['c', 'o', 'n', 'f', 'i', 'g']]);
}

fn copy_names(path: &Vec<String>) -> (r: Vec<String>)
    ensures
        names_view(r@) == names_view(path@),
{
    let mut r: Vec<String> = Vec::new();
    let mut i: usize = 0;
    while i < path.len()
        invariant
            i <= path.len(),
            names_view(r@) == names_view(path@.take(i as int)),
        decreases path.len() - i,
    {
        let ghost rb = r@;
        let x = path[i].clone();
        r.push(x);
        proof {
            lemma_names_push(rb, x);
            assert(path@.take(i + 1) =~= path@.take(i as int).push(path@[i as int]));
            lemma_names_push(path@.take(i as int), path@[i as int]);
        }
        i += 1;
    }
    proof {
        assert(path@.take(path.len() as int) =~= path@);
    }
    r
}

/// The path with `name` added at its end.
pub fn path_push(path: &Vec<String>, name: String) -> (r: Vec<String>)
    ensures
        names_view(r@) == names_view(path@).push(name@),
{
    let mut r = copy_names(path);
    let ghost before = r@;
    r.push(name);
    proof {
        assert(names_view(r@) =~= names_view(before).push(name@));
    }
    r
}

/// The names of a path joined by underscores, as `underscore_joined` says.
pub fn underscore_join(path: &Vec<String>) -> (r: String)
    ensures
        r@ == underscore_joined(names_view(path@)),
{
    let ghost names = names_view(path@);
    if path.len() == 0 {
        return String::new();
    }
    let mut r = path[0].clone();
    let mut i: usize = 1;
    proof {
        reveal_strlit("_");
        assert(names.take(1).len() == 1);
        assert(names.take(1)[0] == names[0]);
    }
    while i < path.len()
        invariant
            1 <= i <= path.len(),
            names == names_view(path@),
            r@ == underscore_joined(names.take(i as int)),
            "_"@ == seq!['_'],
        decreases path.len() - i,
    {
        r.append("_");
        r.append(path[i].as_str());
        proof {
            let t = names.take(i + 1);
            assert(t.drop_last() =~= names.take(i as int));
            assert(t.last() == names[i as int]);
        }
        i += 1;
    }
    proof {
        assert(names.take(path.len() as int) =~= names);
    }
    r
}

/// The type name of a path: its names joined by underscores, in camel case.
pub fn path_type_name_of(path: &Vec<String>) -> (r: String)
    ensures
        r@ == path_type_name(names_view(path@)),
{
    let joined = underscore_join(path);
    to_camel_case(joined.as_str())
}

/// A name without its trailing `s` characters.
pub fn trim_s_of(name: &String) -> (r: String)
    ensures
        r@ == trim_s(name@),
{
    let c = crate::text::chars_of(name.as_str());
    let mut n = c.len();
    proof {
        assert(name@.take(n as int) =~= name@);
    }
    while n > 0 && c[n - 1] == 's'
        invariant
            n <= c.len(),
            c@ == name@,
            trim_s(name@) == trim_s(name@.take(n as int)),
        decreases n,
    {
        proof {
            let t = name@.take(n as int);
            assert(t.last() == 's');
            assert(t.drop_last() =~= name@.take(n - 1));
        }
        n -= 1;
    }
    proof {
        let t = name@.take(n as int);
        if n > 0 {
            assert(t.last() == c@[n - 1]);
        }
    }
    crate::text::slice_string(name.as_str(), 0, n)
}

/// The path with its last name made singular, as `singular` says.
pub fn singular_of(path: &Vec<String>) -> (r: Vec<String>)
    ensures
        names_view(r@) == singular(names_view(path@)),
{
    if path.len() == 0 {
        return Vec::new();
    }
    let mut r: Vec<String> = Vec::new();
    let mut i: usize = 0;
    let last = path.len() - 1;
    while i < last
        invariant
            i <= last,
            last == path.len() - 1,
            names_view(r@) == names_view(path@.take(i as int)),
        decreases last - i,
    {
        let ghost rb = r@;
        let x = path[i].clone();
        r.push(x);
        proof {
            lemma_names_push(rb, x);
            assert(path@.take(i + 1) =~= path@.take(i as int).push(path@[i as int]));
            lemma_names_push(path@.take(i as int), path@[i as int]);
        }
        i += 1;
    }
    let ghost before = r@;
    let t = trim_s_of(&path[last]);
    r.push(t);
    proof {
        lemma_names_push(before, t);
        assert(path@.take(last as int) =~= path@.drop_last());
        assert(names_view(path@.drop_last()) =~= names_view(path@).drop_last());
        assert(names_view(r@) =~= singular(names_view(path@)));
    }
    r
}

/// The Rust type of a field, as `field_type` says.
pub fn field_type_of(t: &TypeDesc, path: &Vec<String>) -> (r: Result<FieldType, DescError>)
    ensures
        match r {
            Ok(ft) => field_type(*t, names_view(path@)) == Ok::<FieldTypeV, DescErrorV>(field_type_view(ft)),
            Err(e) => field_type(*t, names_view(path@)) == Err::<FieldTypeV, DescErrorV>(desc_error_view(e)),
        },
{
    match t {
        TypeDesc::Bool => Ok(FieldType::Bool),
        TypeDesc::Int => Ok(FieldType::I32),
        TypeDesc::Uint => Ok(FieldType::U32),
        TypeDesc::Str => Ok(FieldType::String),
        TypeDesc::Color => Ok(FieldType::Color),
        TypeDesc::LitStr(s) => Err(DescError::LitStrField(s.clone())),
        TypeDesc::Array(_) => {
            let sp = singular_of(path);
            proof {
                if path@.len() > 0 {
                    assert(names_view(path@).last() == path@.last()@);
                    assert(names_view(sp@).last() == sp@.last()@);
                }
            }
            if sp.len() > 0 && sp[sp.len() - 1].as_str().unicode_len() == 0 {
                Err(DescError::InvalidName(String::new()))
            } else {
                Ok(FieldType::Vec(path_type_name_of(&sp)))
            }
        },
        TypeDesc::Struct(_) => Ok(FieldType::Named(path_type_name_of(path))),
        TypeDesc::Enum(_) => Ok(FieldType::Named(path_type_name_of(path))),
    }
}

proof fn lemma_decls_append(a: Seq<TypeDecl>, b: Seq<TypeDecl>)
    ensures
        decls_view(a + b) == decls_view(a) + decls_view(b),
{
    assert(decls_view(a + b) =~= decls_view(a) + decls_view(b));
}

proof fn lemma_decls_push(a: Seq<TypeDecl>, d: TypeDecl)
    ensures
        decls_view(a.push(d)) == decls_view(a).push(decl_view(d)),
{
    assert(decls_view(a.push(d)) =~= decls_view(a).push(decl_view(d)));
}

proof fn lemma_names_push(a: Seq<String>, x: String)
    ensures
        names_view(a.push(x)) == names_view(a).push(x@),
{
    assert(names_view(a.push(x)) =~= names_view(a).push(x@));
}

proof fn lemma_variants_push(a: Seq<VariantDecl>, x: VariantDecl)
    ensures
        variants_view(a.push(x)) == variants_view(a).push(variant_view(x)),
{
    assert(variants_view(a.push(x)) =~= variants_view(a).push(variant_view(x)));
}

proof fn lemma_fields_push(a: Seq<FieldDecl>, x: FieldDecl)
    ensures
        field_decls_view(a.push(x)) == field_decls_view(a).push(field_decl_view(x)),
{
    assert(field_decls_view(a.push(x)) =~= field_decls_view(a).push(field_decl_view(x)));
}

proof fn lemma_arms_push(a: Seq<(String, String)>, x: (String, String))
    ensures
        arms_view(a.push(x)) == arms_view(a).push((x.0@, x.1@)),
{
    assert(arms_view(a.push(x)) =~= arms_view(a).push((x.0@, x.1@)));
}

proof fn lemma_lit_take(vs: Seq<TypeDesc>, i: int)
    requires
        0 <= i < vs.len(),
    ensures
        lit_variants(vs.take(i + 1)) == lit_variants(vs.take(i)).push(VariantV::Unit(camel_case(lit_text(vs[i])))),
        lit_arms(vs.take(i + 1)) == lit_arms(vs.take(i)).push((camel_case(lit_text(vs[i])), lit_text(vs[i]))),
        lit_names(vs.take(i + 1)) == lit_names(vs.take(i)).push(camel_case(lit_text(vs[i]))),
{
    assert(lit_variants(vs.take(i + 1)) =~= lit_variants(vs.take(i)).push(VariantV::Unit(camel_case(lit_text(vs[i])))));
    assert(lit_arms(vs.take(i + 1)) =~= lit_arms(vs.take(i)).push((camel_case(lit_text(vs[i])), lit_text(vs[i]))));
    assert(lit_names(vs.take(i + 1)) =~= lit_names(vs.take(i)).push(camel_case(lit_text(vs[i]))));
}

/// The declarations that the description `t` at `path` generates, as `type_decls` says.
pub fn emit_type_decls(t: &TypeDesc, path: &Vec<String>) -> (r: Result<Vec<TypeDecl>, DescError>)
    ensures
        match r {
            Ok(v) => type_decls(*t, names_view(path@)) == Ok::<Seq<DeclV>, DescErrorV>(decls_view(v@)),
            Err(e) => type_decls(*t, names_view(path@)) == Err::<Seq<DeclV>, DescErrorV>(desc_error_view(e)),
        },
    decreases *t, 2nat,
{
    match t {
        TypeDesc::Array(e) => {
            let sp = singular_of(path);
            emit_type_decls(&**e, &sp)
        },
        TypeDesc::Struct(fields) => {
            proof {
                assert(fields@.skip(0) =~= fields@);
            }
            emit_struct(t, fields, 0, path)
        },
        TypeDesc::Enum(vs) => emit_enum(t, vs, path),
        _ => {
            let v: Vec<TypeDecl> = Vec::new();
            proof {
                assert(decls_view(v@) =~= Seq::<DeclV>::empty());
            }
            Ok(v)
        },
    }
}

/// The declarations of the fields of `fields` from `from` on, then the struct at `path`, as
/// `struct_decls` says.
fn emit_struct(owner: &TypeDesc, fields: &Vec<FieldDesc>, from: usize, path: &Vec<String>) -> (r: Result<Vec<TypeDecl>, DescError>)
    requires
        from <= fields@.len(),
        *owner == TypeDesc::Struct(*fields),
    ensures
        match r {
            Ok(v) => struct_decls(fields@.skip(from as int), names_view(path@), Seq::empty(), Seq::empty())
                == Ok::<Seq<DeclV>, DescErrorV>(decls_view(v@)),
            Err(e) => struct_decls(fields@.skip(from as int), names_view(path@), Seq::empty(), Seq::empty())
                == Err::<Seq<DeclV>, DescErrorV>(desc_error_view(e)),
        },
    decreases *owner, 0nat,
{
    let ghost pv = names_view(path@);
    let ghost start = struct_decls(fields@.skip(from as int), pv, Seq::empty(), Seq::empty());
    let mut decls: Vec<TypeDecl> = Vec::new();
    let mut fs: Vec<FieldDecl> = Vec::new();
    let mut i: usize = from;
    proof {
        assert(decls_view(decls@) =~= Seq::<DeclV>::empty());
        assert(field_decls_view(fs@) =~= Seq::<FieldV>::empty());
    }
    while i < fields.len()
        invariant
            from <= i <= fields@.len(),
            *owner == TypeDesc::Struct(*fields),
            pv == names_view(path@),
            start == struct_decls(fields@.skip(from as int), pv, Seq::empty(), Seq::empty()),
            start == struct_decls(
                fields@.skip(i as int),
                pv,
                decls_view(decls@),
                field_decls_view(fs@),
            ),
        decreases fields@.len() - i,
    {
        let f = &fields[i];
        proof {
            assert(fields@.skip(i as int)[0] == fields@[i as int]);
            assert(fields@.skip(i as int).drop_first() =~= fields@.skip(i + 1));
            assert(decreases_to!(*owner => owner->Struct_0));
            assert(decreases_to!(owner->Struct_0 => fields@));
            assert(decreases_to!(fields@ => fields@[i as int]));
            assert(decreases_to!(fields@[i as int] => fields@[i as int].ty));
        }
        let pf = path_push(path, f.name.clone());
        let ft = match field_type_of(&f.ty, &pf) {
            Ok(ft) => ft,
            Err(e) => {
                return Err(e);
            },
        };
        let mut nested = match emit_type_decls(&f.ty, &pf) {
            Ok(v) => v,
            Err(e) => {
                return Err(e);
            },
        };
        let ghost before = decls@;
        let ghost nv = nested@;
        let ghost fs_before = fs@;
        decls.append(&mut nested);
        let fd = FieldDecl { name: f.name.clone(), ty: ft };
        fs.push(fd);
        proof {
            lemma_decls_append(before, nv);
            lemma_fields_push(fs_before, fd);
        }
        i += 1;
    }
    proof {
        assert(fields@.skip(i as int).len() == 0);
    }
    let ghost before = decls@;
    decls.push(TypeDecl::Struct(path_type_name_of(path), fs));
    proof {
        lemma_decls_push(before, decls@.last());
        assert(decls@ =~= before.push(decls@.last()));
    }
    Ok(decls)
}

fn all_lit_of(vs: &Vec<TypeDesc>) -> (r: bool)
    ensures
        r == all_lit(vs@),
{
    let mut i: usize = 0;
    while i < vs.len()
        invariant
            i <= vs.len(),
            forall|j: int| 0 <= j < i ==> #[trigger] vs@[j] is LitStr,
        decreases vs.len() - i,
    {
        match &vs[i] {
            TypeDesc::LitStr(_) => {},
            _ => {
                return false;
            },
        }
        i += 1;
    }
    true
}

fn all_struct_of(vs: &Vec<TypeDesc>) -> (r: bool)
    ensures
        r == all_struct(vs@),
{
    let mut i: usize = 0;
    while i < vs.len()
        invariant
            i <= vs.len(),
            forall|j: int| 0 <= j < i ==> #[trigger] vs@[j] is Struct,
        decreases vs.len() - i,
    {
        match &vs[i] {
            TypeDesc::Struct(_) => {},
            _ => {
                return false;
            },
        }
        i += 1;
    }
    true
}

fn all_plain_of(vs: &Vec<TypeDesc>) -> (r: bool)
    ensures
        r == all_plain(vs@),
{
    let mut i: usize = 0;
    while i < vs.len()
        invariant
            i <= vs.len(),
            forall|j: int| 0 <= j < i ==> !(#[trigger] vs@[j] is LitStr || vs@[j] is Array || vs@[j] is Enum),
        decreases vs.len() - i,
    {
        match &vs[i] {
            TypeDesc::LitStr(_) => {
                return false;
            },
            TypeDesc::Array(_) => {
                return false;
            },
            TypeDesc::Enum(_) => {
                return false;
            },
            _ => {},
        }
        i += 1;
    }
    true
}

/// Whether no two alternatives are of the same kind; an int and a uint count alike.
pub fn is_unique_types(vs: &Vec<TypeDesc>) -> (r: bool)
    requires
        all_plain(vs@),
    ensures
        r == unique_kinds(vs@),
{
    let mut seen_bool = false;
    let mut seen_int = false;
    let mut seen_str = false;
    let mut seen_color = false;
    let mut seen_struct = false;
    let mut i: usize = 0;
    while i < vs.len()
        invariant
            i <= vs.len(),
            all_plain(vs@),
            unique_kinds(vs@.take(i as int)),
            seen_bool == exists|j: int| 0 <= j < i && kind_class(#[trigger] vs@[j]) == 0,
            seen_int == exists|j: int| 0 <= j < i && kind_class(#[trigger] vs@[j]) == 1,
            seen_str == exists|j: int| 0 <= j < i && kind_class(#[trigger] vs@[j]) == 2,
            seen_color == exists|j: int| 0 <= j < i && kind_class(#[trigger] vs@[j]) == 3,
            seen_struct == exists|j: int| 0 <= j < i && kind_class(#[trigger] vs@[j]) == 4,
        decreases vs.len() - i,
    {
        let ghost c = kind_class(vs@[i as int]);
        let seen = match &vs[i] {
            TypeDesc::Bool => {
                let s = seen_bool;
                seen_bool = true;
                s
            },
            TypeDesc::Int => {
                let s = seen_int;
                seen_int = true;
                s
            },
            TypeDesc::Uint => {
                let s = seen_int;
                seen_int = true;
                s
            },
            TypeDesc::Str => {
                let s = seen_str;
                seen_str = true;
                s
            },
            TypeDesc::Color => {
                let s = seen_color;
                seen_color = true;
                s
            },
            _ => {
                let s = seen_struct;
                seen_struct = true;
                s
            },
        };
        if seen {
            proof {
                let j = choose|j: int| 0 <= j < i && kind_class(#[trigger] vs@[j]) == c;
                assert(kind_class(vs@[j]) == kind_class(vs@[i as int]));
            }
            return false;
        }
        proof {
            assert forall|a: int, b: int| 0 <= a < b < i + 1 implies kind_class(
                #[trigger] vs@.take(i + 1)[a],
            ) != kind_class(#[trigger] vs@.take(i + 1)[b]) by {
                if b < i {
                    assert(vs@.take(i + 1)[a] == vs@.take(i as int)[a]);
                    assert(vs@.take(i + 1)[b] == vs@.take(i as int)[b]);
                } else {
                    assert(vs@.take(i + 1)[a] == vs@[a]);
                    assert(vs@.take(i + 1)[b] == vs@[i as int]);
                }
            }
        }
        i += 1;
    }
    proof {
        assert(vs@.take(vs@.len() as int) =~= vs@);
    }
    true
}

fn kind_name_of(t: &TypeDesc) -> (r: String)
    ensures
        r@ == kind_name(*t),
{
    proof {
        reveal_strlit("Bool");
        reveal_strlit("Int");
        reveal_strlit("Uint");
        reveal_strlit("Str");
        reveal_strlit("Color");
        reveal_strlit("Struct");
        assert("Bool"@ == seq!['B', 'o', 'o', 'l']);
        assert("Int"@ == seq!['I', 'n', 't']);
        assert("Uint"@ == seq!['U', 'i', 'n', 't']);
        assert("Str"@ == seq!['S', 't', 'r']);
        assert("Color"@ == seq!['C', 'o', 'l', 'o', 'r']);
        assert("Struct"@ == seq!['S', 't', 'r', 'u', 'c', 't']);
    }
    match t {
        TypeDesc::Bool => "Bool".to_string(),
        TypeDesc::Int => "Int".to_string(),
        TypeDesc::Uint => "Uint".to_string(),
        TypeDesc::Str => "Str".to_string(),
        TypeDesc::Color => "Color".to_string(),
        _ => "Struct".to_string(),
    }
}

/// The declarations of an enum of literal strings at `path`: the enum, then its `name` and
/// `discrim` methods.
fn emit_enum_lit_str(vs: &Vec<TypeDesc>, path: &Vec<String>) -> (r: Result<Vec<TypeDecl>, DescError>)
    requires
        all_lit(vs@),
    ensures
        match r {
            Ok(v) => enum_decls(vs@, names_view(path@)) == Ok::<Seq<DeclV>, DescErrorV>(decls_view(v@)),
            Err(e) => enum_decls(vs@, names_view(path@)) == Err::<Seq<DeclV>, DescErrorV>(desc_error_view(e)),
        },
{
    let ghost pv = names_view(path@);
    let name = path_type_name_of(path);
    let mut variants: Vec<VariantDecl> = Vec::new();
    let mut arms: Vec<(String, String)> = Vec::new();
    let mut names: Vec<String> = Vec::new();
    let mut i: usize = 0;
    proof {
        assert(vs@.skip(0) =~= vs@);
    }
    while i < vs.len()
        invariant
            i <= vs.len(),
            all_lit(vs@),
            variants_view(variants@) == lit_variants(vs@.take(i as int)),
            arms_view(arms@) == lit_arms(vs@.take(i as int)),
            names_view(names@) == lit_names(vs@.take(i as int)),
            lit_name_error(vs@) == lit_name_error(vs@.skip(i as int)),
        decreases vs.len() - i,
    {
        assert(vs@[i as int] is LitStr);
        proof {
            assert(vs@.skip(i as int)[0] == vs@[i as int]);
            assert(vs@.skip(i as int).drop_first() =~= vs@.skip(i + 1));
        }
        match &vs[i] {
            TypeDesc::LitStr(lit) => {
                let vname = to_camel_case(lit.as_str());
                if !is_one_ident(vname.as_str()) {
                    return Err(DescError::InvalidName(vname));
                }
                let ghost vb = variants@;
                let ghost ab = arms@;
                let ghost nb = names@;
                let v = VariantDecl::Unit(vname.clone());
                let a = (vname.clone(), lit.clone());
                variants.push(v);
                arms.push(a);
                names.push(vname);
                proof {
                    lemma_variants_push(vb, v);
                    lemma_arms_push(ab, a);
                    lemma_names_push(nb, vname);
                    lemma_lit_take(vs@, i as int);
                }
            },
            _ => {},
        }
        i += 1;
    }
    proof {
        assert(vs@.take(vs@.len() as int) =~= vs@);
        assert(vs@.skip(i as int).len() == 0);
    }
    let mut fns: Vec<EnumFn> = Vec::new();
    fns.push(EnumFn::Name(arms));
    fns.push(EnumFn::Discrim(names));
    let mut decls: Vec<TypeDecl> = Vec::new();
    decls.push(TypeDecl::Enum(name.clone(), variants));
    decls.push(TypeDecl::Impl(name, fns));
    proof {
        let f0 = fns@[0];
        let f1 = fns@[1];
        assert(fns@.map_values(|f: EnumFn| enum_fn_view(f)) =~= seq![
            EnumFnV::Name(lit_arms(vs@)),
            EnumFnV::Discrim(lit_names(vs@)),
        ]);
        assert(decls_view(decls@) =~= seq![
            DeclV::Enum(path_type_name(pv), lit_variants(vs@)),
            DeclV::Impl(
                path_type_name(pv),
                seq![EnumFnV::Name(lit_arms(vs@)), EnumFnV::Discrim(lit_names(vs@))],
            ),
        ]);
    }
    Ok(decls)
}

/// The declarations of an enum of struct alternatives at `path`, as `enum_struct_decls` says:
/// each alternative's nested declarations, the enum, and the method that gives each variant's
/// first field.
fn emit_enum_struct(owner: &TypeDesc, vs: &Vec<TypeDesc>, path: &Vec<String>) -> (r: Result<Vec<TypeDecl>, DescError>)
    requires
        *owner == TypeDesc::Enum(*vs),
    ensures
        match r {
            Ok(v) => enum_struct_decls(vs@, names_view(path@), None, Seq::empty(), Seq::empty(), Seq::empty())
                == Ok::<Seq<DeclV>, DescErrorV>(decls_view(v@)),
            Err(e) => enum_struct_decls(vs@, names_view(path@), None, Seq::empty(), Seq::empty(), Seq::empty())
                == Err::<Seq<DeclV>, DescErrorV>(desc_error_view(e)),
        },
    decreases *owner, 0nat,
{
    let ghost pv = names_view(path@);
    let ghost start = enum_struct_decls(vs@, pv, None, Seq::empty(), Seq::empty(), Seq::empty());
    let mut dname: Option<String> = None;
    let mut decls: Vec<TypeDecl> = Vec::new();
    let mut variants: Vec<VariantDecl> = Vec::new();
    let mut arms: Vec<(String, String)> = Vec::new();
    let mut i: usize = 0;
    proof {
        assert(vs@.skip(0) =~= vs@);
        assert(decls_view(decls@) =~= Seq::<DeclV>::empty());
        assert(variants_view(variants@) =~= Seq::<VariantV>::empty());
        assert(arms_view(arms@) =~= Seq::<(Seq<char>, Seq<char>)>::empty());
    }
    while i < vs.len()
        invariant
            i <= vs.len(),
            *owner == TypeDesc::Enum(*vs),
            pv == names_view(path@),
            start == enum_struct_decls(vs@, pv, None, Seq::empty(), Seq::empty(), Seq::empty()),
            start == enum_struct_decls(
                vs@.skip(i as int),
                pv,
                match dname {
                    Some(d) => Some(d@),
                    None => None,
                },
                decls_view(decls@),
                variants_view(variants@),
                arms_view(arms@),
            ),
        decreases vs.len() - i,
    {
        proof {
            assert(vs@.skip(i as int)[0] == vs@[i as int]);
            assert(vs@.skip(i as int).drop_first() =~= vs@.skip(i + 1));
            assert(decreases_to!(*owner => owner->Enum_0));
            assert(decreases_to!(owner->Enum_0 => vs@));
            assert(decreases_to!(vs@ => vs@[i as int]));
        }
        let alt = &vs[i];
        match alt {
            TypeDesc::Struct(fields) => {
                if fields.len() == 0 {
                    return Err(DescError::MissingDiscrimField);
                }
                let first = &fields[0];
                match &dname {
                    Some(d) => {
                        if !crate::text::str_eq(first.name.as_str(), d.as_str()) {
                            return Err(DescError::DiscrimFieldName(first.name.clone()));
                        }
                    },
                    None => {},
                }
                match &first.ty {
                    TypeDesc::LitStr(lit) => {
                        let vname = to_camel_case(lit.as_str());
                        if !is_one_ident(vname.as_str()) {
                            return Err(DescError::InvalidName(vname));
                        }
                        let pvec = path_push(path, vname.clone());
                        let ghost vb = variants@;
                        let ghost db = decls@;
                        if fields.len() == 1 {
                            let v = VariantDecl::Unit(vname.clone());
                            variants.push(v);
                            proof {
                                assert(fields@.drop_first().len() == 0);
                                lemma_variants_push(vb, v);
                            }
                        } else {
                            proof {
                                assert(fields@.skip(1) =~= fields@.drop_first());
                                assert(decreases_to!(vs@[i as int] => vs@[i as int]->Struct_0));
                            }
                            let mut nested = match emit_struct(alt, fields, 1, &pvec) {
                                Ok(v) => v,
                                Err(e) => {
                                    return Err(e);
                                },
                            };
                            let ghost nv = nested@;
                            decls.append(&mut nested);
                            let v = VariantDecl::Tuple(vname.clone(), FieldType::Named(path_type_name_of(&pvec)));
                            variants.push(v);
                            proof {
                                lemma_decls_append(db, nv);
                                lemma_variants_push(vb, v);
                            }
                        }
                        let ghost ab = arms@;
                        let a = (vname, lit.clone());
                        arms.push(a);
                        dname = Some(first.name.clone());
                        proof {
                            lemma_arms_push(ab, a);
                        }
                    },
                    _ => {
                        return Err(DescError::DiscrimNotLitStr(first.name.clone()));
                    },
                }
            },
            _ => {
                return Err(DescError::BadEnum);
            },
        }
        i += 1;
    }
    proof {
        assert(vs@.skip(i as int).len() == 0);
    }
    let name = path_type_name_of(path);
    let ghost db = decls@;
    let ghost vv = variants_view(variants@);
    let ghost av = arms_view(arms@);
    match dname {
        Some(d) => {
            decls.push(TypeDecl::Enum(name.clone(), variants));
            let mut fns: Vec<EnumFn> = Vec::new();
            fns.push(EnumFn::Field(d, arms));
            proof {
                assert(fns@.map_values(|f: EnumFn| enum_fn_view(f)) =~= seq![EnumFnV::Field(d@, av)]);
            }
            decls.push(TypeDecl::Impl(name, fns));
            proof {
                assert(decl_view(decls@[db.len() as int]) == DeclV::Enum(name@, vv));
                assert(decl_view(decls@[db.len() + 1int]) == DeclV::Impl(name@, seq![EnumFnV::Field(d@, av)]));
                assert(decls_view(decls@) =~= decls_view(db) + seq![
                    DeclV::Enum(name@, vv),
                    DeclV::Impl(name@, seq![EnumFnV::Field(d@, av)]),
                ]);
            }
        },
        None => {
            decls.push(TypeDecl::Enum(name, variants));
            proof {
                lemma_decls_push(db, decls@.last());
                assert(decls@ =~= db.push(decls@.last()));
            }
        },
    }
    Ok(decls)
}

/// The declarations of an enum of alternatives of distinct kinds at `path`, as
/// `enum_unique_decls` says: each alternative's nested declarations, then the enum.
fn emit_enum_unique(owner: &TypeDesc, vs: &Vec<TypeDesc>, path: &Vec<String>) -> (r: Result<Vec<TypeDecl>, DescError>)
    requires
        *owner == TypeDesc::Enum(*vs),
    ensures
        match r {
            Ok(v) => enum_unique_decls(vs@, names_view(path@), Seq::empty(), Seq::empty())
                == Ok::<Seq<DeclV>, DescErrorV>(decls_view(v@)),
            Err(e) => enum_unique_decls(vs@, names_view(path@), Seq::empty(), Seq::empty())
                == Err::<Seq<DeclV>, DescErrorV>(desc_error_view(e)),
        },
    decreases *owner, 0nat,
{
    let ghost pv = names_view(path@);
    let ghost start = enum_unique_decls(vs@, pv, Seq::empty(), Seq::empty());
    let mut decls: Vec<TypeDecl> = Vec::new();
    let mut variants: Vec<VariantDecl> = Vec::new();
    let mut i: usize = 0;
    proof {
        assert(vs@.skip(0) =~= vs@);
        assert(decls_view(decls@) =~= Seq::<DeclV>::empty());
        assert(variants_view(variants@) =~= Seq::<VariantV>::empty());
    }
    while i < vs.len()
        invariant
            i <= vs.len(),
            *owner == TypeDesc::Enum(*vs),
            pv == names_view(path@),
            start == enum_unique_decls(vs@, pv, Seq::empty(), Seq::empty()),
            start == enum_unique_decls(
                vs@.skip(i as int),
                pv,
                decls_view(decls@),
                variants_view(variants@),
            ),
        decreases vs.len() - i,
    {
        proof {
            assert(vs@.skip(i as int)[0] == vs@[i as int]);
            assert(vs@.skip(i as int).drop_first() =~= vs@.skip(i + 1));
            assert(decreases_to!(*owner => owner->Enum_0));
            assert(decreases_to!(owner->Enum_0 => vs@));
            assert(decreases_to!(vs@ => vs@[i as int]));
        }
        let t = &vs[i];
        let vname = kind_name_of(t);
        let pvec = path_push(path, vname.clone());
        let vt = match t {
            TypeDesc::Bool => FieldType::Bool,
            TypeDesc::Int => FieldType::I32,
            TypeDesc::Uint => FieldType::U32,
            TypeDesc::Str => FieldType::String,
            TypeDesc::Color => FieldType::Color,
            _ => FieldType::Named(path_type_name_of(&pvec)),
        };
        let mut nested = match emit_type_decls(t, &pvec) {
            Ok(v) => v,
            Err(e) => {
                return Err(e);
            },
        };
        let ghost db = decls@;
        let ghost vb = variants@;
        let ghost nv = nested@;
        decls.append(&mut nested);
        let v = VariantDecl::Tuple(vname, vt);
        variants.push(v);
        proof {
            lemma_decls_append(db, nv);
            lemma_variants_push(vb, v);
        }
        i += 1;
    }
    proof {
        assert(vs@.skip(i as int).len() == 0);
    }
    let ghost db = decls@;
    decls.push(TypeDecl::Enum(path_type_name_of(path), variants));
    proof {
        lemma_decls_push(db, decls@.last());
        assert(decls@ =~= db.push(decls@.last()));
    }
    Ok(decls)
}

/// The declarations of the enum `owner` of alternatives `vs` at `path`, as `enum_decls` says.
fn emit_enum(owner: &TypeDesc, vs: &Vec<TypeDesc>, path: &Vec<String>) -> (r: Result<Vec<TypeDecl>, DescError>)
    requires
        *owner == TypeDesc::Enum(*vs),
    ensures
        match r {
            Ok(v) => enum_decls(vs@, names_view(path@)) == Ok::<Seq<DeclV>, DescErrorV>(decls_view(v@)),
            Err(e) => enum_decls(vs@, names_view(path@)) == Err::<Seq<DeclV>, DescErrorV>(desc_error_view(e)),
        },
    decreases *owner, 1nat,
{
    if all_lit_of(vs) {
        emit_enum_lit_str(vs, path)
    } else if all_struct_of(vs) {
        emit_enum_struct(owner, vs, path)
    } else if all_plain_of(vs) && is_unique_types(vs) {
        emit_enum_unique(owner, vs, path)
    } else {
        Err(DescError::BadEnum)
    }
}

/// The declarations that the description of a configuration generates, as `config_decls` says:
/// the type `Config` and all it holds.
pub fn config_type_decls(config: &TypeDesc) -> (r: Result<Vec<TypeDecl>, DescError>)
    ensures
        match r {
            Ok(v) => config_decls(*config) == Ok::<Seq<DeclV>, DescErrorV>(decls_view(v@)),
            Err(e) => config_decls(*config) == Err::<Seq<DeclV>, DescErrorV>(desc_error_view(e)),
        },
{
    let mut path: Vec<String> = Vec::new();
    path.push("config".to_string());
    proof {
        reveal_strlit("config");
        assert("config"@ == seq!['c', 'o', 'n', 'f', 'i', 'g']);
        assert(names_view(path@) =~= seq![seq!['c', 'o', 'n', 'f', 'i', 'g']]);
    }
    emit_type_decls(config, &path)
}

/// Why a configuration description, given as tokens, generates no declarations.
#[derive(Debug, PartialEq, Eq)]
pub enum ConfigTypesError {
    Syntax(SyntaxError),
    Desc(DescError),
}

/// The declarations that a configuration description, given as tokens, generates: its fields as
/// `parse_config` reads them, declared as `view_config_decls` says.
pub fn config_types(input: &Vec<TokenTree>) -> (r: Result<Vec<TypeDecl>, ConfigTypesError>)
    ensures
        match r {
            Ok(v) => parse_config(input@) matches Ok(tv) && view_config_decls(tv) == Ok::<
                Seq<DeclV>,
                DescErrorV,
            >(decls_view(v@)),
            Err(ConfigTypesError::Syntax(e)) => parse_config(input@) == Err::<TyV, SyntaxError>(e),
            Err(ConfigTypesError::Desc(e)) => parse_config(input@) matches Ok(tv) && view_config_decls(tv)
                == Err::<Seq<DeclV>, DescErrorV>(desc_error_view(e)),
        },
{
    let config = match parse_config_of(input) {
        Ok(c) => c,
        Err(e) => {
            return Err(ConfigTypesError::Syntax(e));
        },
    };
    proof {
        lemma_config_decls_view(config, config);
    }
    match config_type_decls(&config) {
        Ok(v) => Ok(v),
        Err(e) => Err(ConfigTypesError::Desc(e)),
    }
}

} // verus!
