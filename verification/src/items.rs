//! The entity model: every declaration kind that can appear in the symbol
//! table, each with a unique name, a dependency-reference capability and a
//! textual rendering. A `Specialization` is a graph node only: it never
//! reaches the emitted output.

use vstd::prelude::*;

use crate::text::dec_str;
use crate::ty::{Ty, TyModel, ty_names, tys_names, ty_render, names_view};

verus! {

// ---------------------------------------------------------------------
// models

pub struct EnumModel {
    pub name: Seq<char>,
    pub variants: Seq<(Seq<char>, u32)>,
}

pub struct StructModel {
    pub name: Seq<char>,
    pub fields: Seq<(Seq<char>, TyModel)>,
    pub generic_params: Seq<Seq<char>>,
}

pub struct OpaqueStructModel {
    pub name: Seq<char>,
}

pub struct TypedefModel {
    pub name: Seq<char>,
    pub aliased: TyModel,
}

pub struct SpecializationModel {
    pub name: Seq<char>,
    pub aliased: Seq<char>,
    pub generic_values: Seq<TyModel>,
}

pub struct PrebuiltModel {
    pub name: Seq<char>,
    pub source: Seq<char>,
}

pub struct FunctionModel {
    pub name: Seq<char>,
    pub ret: TyModel,
    pub args: Seq<(Seq<char>, TyModel)>,
    pub destructor_safe: bool,
}

pub enum PathValueModel {
    Enum(EnumModel),
    Struct(StructModel),
    OpaqueStruct(OpaqueStructModel),
    Typedef(TypedefModel),
    Specialization(SpecializationModel),
    Prebuilt(PrebuiltModel),
}

/// The name under which an entity stands in the symbol table.
pub open spec fn model_name(v: PathValueModel) -> Seq<char> {
    match v {
        PathValueModel::Enum(x) => x.name,
        PathValueModel::Struct(x) => x.name,
        PathValueModel::OpaqueStruct(x) => x.name,
        PathValueModel::Typedef(x) => x.name,
        PathValueModel::Specialization(x) => x.name,
        PathValueModel::Prebuilt(x) => x.name,
    }
}

// ---------------------------------------------------------------------
// exec entities and their views

/// The view of a field or argument list: names paired with type models.
pub open spec fn fields_view(fs: Seq<(String, Ty)>) -> Seq<(Seq<char>, TyModel)> {
    Seq::new(fs.len(), |i: int| (fs[i].0@, fs[i].1@))
}

/// The view of an enum variant list.
pub open spec fn variants_view(vs: Seq<(String, u32)>) -> Seq<(Seq<char>, u32)> {
    Seq::new(vs.len(), |i: int| (vs[i].0@, vs[i].1))
}

/// The type models of a field list, in field order.
pub open spec fn field_tys(fs: Seq<(Seq<char>, TyModel)>) -> Seq<TyModel> {
    Seq::new(fs.len(), |i: int| fs[i].1)
}

/// An enum with a fixed 32-bit representation and explicit values.
#[derive(Debug)]
pub struct Enum {
    pub name: String,
    pub variants: Vec<(String, u32)>,
}

impl View for Enum {
    type V = EnumModel;

    open spec fn view(&self) -> EnumModel {
        EnumModel { name: self.name@, variants: variants_view(self.variants@) }
    }
}

/// A struct with a fixed, foreign-compatible layout. A non-empty
/// parameter list makes it a template: a graph node, never emitted.
#[derive(Debug)]
pub struct Struct {
    pub name: String,
    pub fields: Vec<(String, Ty)>,
    pub generic_params: Vec<String>,
}

impl View for Struct {
    type V = StructModel;

    open spec fn view(&self) -> StructModel {
        StructModel {
            name: self.name@,
            fields: fields_view(self.fields@),
            generic_params: names_view(self.generic_params@),
        }
    }
}

/// A placeholder for a declaration whose layout is not representable.
#[derive(Debug)]
pub struct OpaqueStruct {
    pub name: String,
}

impl View for OpaqueStruct {
    type V = OpaqueStructModel;

    open spec fn view(&self) -> OpaqueStructModel {
        OpaqueStructModel { name: self.name@ }
    }
}

impl OpaqueStruct {
    pub fn new(name: String) -> (r: OpaqueStruct)
        ensures
            r@.name == name@,
    {
        OpaqueStruct { name }
    }
}

/// A non-parameterized alias for a type expression.
#[derive(Debug)]
pub struct Typedef {
    pub name: String,
    pub aliased: Ty,
}

impl View for Typedef {
    type V = TypedefModel;

    open spec fn view(&self) -> TypedefModel {
        TypedefModel { name: self.name@, aliased: self.aliased@ }
    }
}

/// An alias naming a template with concrete arguments; resolved away
/// during build.
#[derive(Debug)]
pub struct Specialization {
    pub name: String,
    pub aliased: String,
    pub generic_values: Vec<Ty>,
}

impl View for Specialization {
    type V = SpecializationModel;

    open spec fn view(&self) -> SpecializationModel {
        SpecializationModel {
            name: self.name@,
            aliased: self.aliased@,
            generic_values: crate::ty::tys_view(self.generic_values@),
        }
    }
}

/// A caller-supplied literal text that overrides any derived entity of
/// the same name.
#[derive(Debug)]
pub struct Prebuilt {
    pub name: String,
    pub source: String,
}

impl View for Prebuilt {
    type V = PrebuiltModel;

    open spec fn view(&self) -> PrebuiltModel {
        PrebuiltModel { name: self.name@, source: self.source@ }
    }
}

impl Prebuilt {
    pub fn new(name: String, source: String) -> (r: Prebuilt)
        ensures
            r@.name == name@,
            r@.source == source@,
    {
        Prebuilt { name, source }
    }
}

/// An exported function with a stable linkage name and a C-compatible
/// calling convention.
#[derive(Debug)]
pub struct Function {
    pub name: String,
    pub ret: Ty,
    pub args: Vec<(String, Ty)>,
    pub destructor_safe: bool,
}

impl View for Function {
    type V = FunctionModel;

    open spec fn view(&self) -> FunctionModel {
        FunctionModel {
            name: self.name@,
            ret: self.ret@,
            args: fields_view(self.args@),
            destructor_safe: self.destructor_safe,
        }
    }
}

/// Any entity the symbol table can hold, tagged by kind.
#[derive(Debug)]
pub enum PathValue {
    Enum(Enum),
    Struct(Struct),
    OpaqueStruct(OpaqueStruct),
    Typedef(Typedef),
    Specialization(Specialization),
    Prebuilt(Prebuilt),
}

impl View for PathValue {
    type V = PathValueModel;

    open spec fn view(&self) -> PathValueModel {
        match self {
            PathValue::Enum(x) => PathValueModel::Enum(x@),
            PathValue::Struct(x) => PathValueModel::Struct(x@),
            PathValue::OpaqueStruct(x) => PathValueModel::OpaqueStruct(x@),
            PathValue::Typedef(x) => PathValueModel::Typedef(x@),
            PathValue::Specialization(x) => PathValueModel::Specialization(x@),
            PathValue::Prebuilt(x) => PathValueModel::Prebuilt(x@),
        }
    }
}

// ---------------------------------------------------------------------
// dependency references

/// The names an entity refers to, in reference order. A specialization's
/// references are handled separately by the collector, which walks the
/// template's own dependencies instead; here it contributes the names
/// inside its concrete arguments.
pub open spec fn model_dep_names(v: PathValueModel) -> Seq<Seq<char>> {
    match v {
        PathValueModel::Enum(_) => Seq::empty(),
        PathValueModel::Struct(x) => tys_names(field_tys(x.fields)),
        PathValueModel::OpaqueStruct(_) => Seq::empty(),
        PathValueModel::Typedef(x) => ty_names(x.aliased),
        PathValueModel::Specialization(x) => tys_names(x.generic_values),
        PathValueModel::Prebuilt(_) => Seq::empty(),
    }
}

/// The names a function's parameter and return types refer to: the
/// return type's first, then each argument's in order.
pub open spec fn fn_dep_names(f: FunctionModel) -> Seq<Seq<char>> {
    ty_names(f.ret) + tys_names(field_tys(f.args))
}

// ---------------------------------------------------------------------
// deep copies

/// Copies a field or argument list; the view is unchanged.
pub fn dup_fields(fs: &Vec<(String, Ty)>) -> (r: Vec<(String, Ty)>)
    ensures
        fields_view(r@) =~= fields_view(fs@),
{
    let mut out: Vec<(String, Ty)> = Vec::new();
    let len = fs.len();
    let mut i: usize = 0;
    while i < len
        invariant
            i <= len,
            len == fs@.len(),
            out@.len() == i,
            forall|j: int| 0 <= j < i ==> out@[j].0@ == fs@[j].0@ && out@[j].1@ == fs@[j].1@,
        decreases len - i,
    {
        let name = fs[i].0.clone();
        let t = fs[i].1.dup();
        out.push((name, t));
        i = i + 1;
    }
    out
}

/// Copies a name list; the view is unchanged.
pub fn dup_names(ns: &Vec<String>) -> (r: Vec<String>)
    ensures
        names_view(r@) =~= names_view(ns@),
{
    let mut out: Vec<String> = Vec::new();
    let len = ns.len();
    let mut i: usize = 0;
    while i < len
        invariant
            i <= len,
            len == ns@.len(),
            out@.len() == i,
            forall|j: int| 0 <= j < i ==> out@[j]@ == ns@[j]@,
        decreases len - i,
    {
        out.push(ns[i].clone());
        i = i + 1;
    }
    out
}

/// Copies a variant list; the view is unchanged.
pub fn dup_variants(vs: &Vec<(String, u32)>) -> (r: Vec<(String, u32)>)
    ensures
        variants_view(r@) =~= variants_view(vs@),
{
    let mut out: Vec<(String, u32)> = Vec::new();
    let len = vs.len();
    let mut i: usize = 0;
    while i < len
        invariant
            i <= len,
            len == vs@.len(),
            out@.len() == i,
            forall|j: int| 0 <= j < i ==> out@[j].0@ == vs@[j].0@ && out@[j].1 == vs@[j].1,
        decreases len - i,
    {
        out.push((vs[i].0.clone(), vs[i].1));
        i = i + 1;
    }
    out
}

impl Enum {
    /// A structural copy whose model is the same.
    pub fn dup(&self) -> (r: Enum)
        ensures
            r@ == self@,
    {
        let r = Enum { name: self.name.clone(), variants: dup_variants(&self.variants) };
        proof {
            assert(r@.variants == self@.variants);
        }
        r
    }
}

impl Struct {
    /// A structural copy whose model is the same.
    pub fn dup(&self) -> (r: Struct)
        ensures
            r@ == self@,
    {
        let r = Struct {
            name: self.name.clone(),
            fields: dup_fields(&self.fields),
            generic_params: dup_names(&self.generic_params),
        };
        proof {
            assert(r@.fields == self@.fields);
            assert(r@.generic_params == self@.generic_params);
        }
        r
    }
}

impl Typedef {
    /// A structural copy whose model is the same.
    pub fn dup(&self) -> (r: Typedef)
        ensures
            r@ == self@,
    {
        Typedef { name: self.name.clone(), aliased: self.aliased.dup() }
    }
}

impl Specialization {
    /// A structural copy whose model is the same.
    pub fn dup(&self) -> (r: Specialization)
        ensures
            r@ == self@,
    {
        let mut vals: Vec<Ty> = Vec::new();
        let len = self.generic_values.len();
        let mut i: usize = 0;
        while i < len
            invariant
                i <= len,
                len == self.generic_values@.len(),
                vals@.len() == i,
                forall|j: int| 0 <= j < i ==> vals@[j]@ == self.generic_values@[j]@,
            decreases len - i,
        {
            let t = self.generic_values[i].dup();
            vals.push(t);
            i = i + 1;
        }
        let r = Specialization {
            name: self.name.clone(),
            aliased: self.aliased.clone(),
            generic_values: vals,
        };
        proof {
            crate::ty::lemma_tys_view(vals@);
            crate::ty::lemma_tys_view(self.generic_values@);
            assert(r@.generic_values =~= self@.generic_values);
        }
        r
    }
}

impl Prebuilt {
    /// A structural copy whose model is the same.
    pub fn dup(&self) -> (r: Prebuilt)
        ensures
            r@ == self@,
    {
        Prebuilt { name: self.name.clone(), source: self.source.clone() }
    }
}

impl Function {
    /// A structural copy whose model is the same.
    pub fn dup(&self) -> (r: Function)
        ensures
            r@ == self@,
    {
        let r = Function {
            name: self.name.clone(),
            ret: self.ret.dup(),
            args: dup_fields(&self.args),
            destructor_safe: self.destructor_safe,
        };
        proof {
            assert(r@.args == self@.args);
        }
        r
    }
}

impl PathValue {
    /// The entity's unique name.
    pub fn name(&self) -> (r: &String)
        ensures
            r@ == model_name(self@),
    {
        match self {
            PathValue::Enum(x) => &x.name,
            PathValue::Struct(x) => &x.name,
            PathValue::OpaqueStruct(x) => &x.name,
            PathValue::Typedef(x) => &x.name,
            PathValue::Specialization(x) => &x.name,
            PathValue::Prebuilt(x) => &x.name,
        }
    }

    /// A structural copy whose model is the same.
    pub fn dup(&self) -> (r: PathValue)
        ensures
            r@ == self@,
    {
        match self {
            PathValue::Enum(x) => PathValue::Enum(x.dup()),
            PathValue::Struct(x) => PathValue::Struct(x.dup()),
            PathValue::OpaqueStruct(x) => PathValue::OpaqueStruct(OpaqueStruct { name: x.name.clone() }),
            PathValue::Typedef(x) => PathValue::Typedef(x.dup()),
            PathValue::Specialization(x) => PathValue::Specialization(x.dup()),
            PathValue::Prebuilt(x) => PathValue::Prebuilt(x.dup()),
        }
    }
}

// ---------------------------------------------------------------------
// rendering

/// One rendered enum variant line: two spaces, name, ` = `, value, `,`.
pub open spec fn variant_line(v: (Seq<char>, u32)) -> Seq<char> {
    "  "@ + v.0 + " = "@ + dec_str(v.1 as nat) + ",\n"@
}

pub open spec fn variants_render(vs: Seq<(Seq<char>, u32)>) -> Seq<char>
    decreases vs,
{
    if vs.len() == 0 {
        Seq::empty()
    } else {
        variant_line(vs[0]) + variants_render(vs.drop_first())
    }
}

pub proof fn lemma_variants_render_snoc(vs: Seq<(Seq<char>, u32)>, x: (Seq<char>, u32))
    ensures
        variants_render(vs.push(x)) =~= variants_render(vs) + variant_line(x),
    decreases vs.len(),
{
    assert(vs.push(x)[0] == if vs.len() == 0 { x } else { vs[0] });
    if vs.len() == 0 {
        reveal_with_fuel(variants_render, 2);
        assert(vs.push(x).drop_first() =~= Seq::<(Seq<char>, u32)>::empty());
    } else {
        assert(vs.push(x).drop_first() =~= vs.drop_first().push(x));
        lemma_variants_render_snoc(vs.drop_first(), x);
    }
}

/// An enum renders as a block of variant lines with explicit values.
pub open spec fn enum_render(e: EnumModel) -> Seq<char> {
    "enum "@ + e.name + " {\n"@ + variants_render(e.variants) + "};"@
}

/// One rendered struct field line: two spaces, type, space, name, `;`.
pub open spec fn field_line(f: (Seq<char>, TyModel)) -> Seq<char> {
    "  "@ + ty_render(f.1) + " "@ + f.0 + ";\n"@
}

pub open spec fn struct_fields_render(fs: Seq<(Seq<char>, TyModel)>) -> Seq<char>
    decreases fs,
{
    if fs.len() == 0 {
        Seq::empty()
    } else {
        field_line(fs[0]) + struct_fields_render(fs.drop_first())
    }
}

pub proof fn lemma_struct_fields_render_snoc(fs: Seq<(Seq<char>, TyModel)>, x: (Seq<char>, TyModel))
    ensures
        struct_fields_render(fs.push(x)) =~= struct_fields_render(fs) + field_line(x),
    decreases fs.len(),
{
    assert(fs.push(x)[0] == if fs.len() == 0 { x } else { fs[0] });
    if fs.len() == 0 {
        reveal_with_fuel(struct_fields_render, 2);
        assert(fs.push(x).drop_first() =~= Seq::<(Seq<char>, TyModel)>::empty());
    } else {
        assert(fs.push(x).drop_first() =~= fs.drop_first().push(x));
        lemma_struct_fields_render_snoc(fs.drop_first(), x);
    }
}

/// A concrete struct renders as a block of field lines.
pub open spec fn struct_render(s: StructModel) -> Seq<char> {
    "struct "@ + s.name + " {\n"@ + struct_fields_render(s.fields) + "};"@
}

/// An opaque struct renders as an incomplete type.
pub open spec fn opaque_render(o: OpaqueStructModel) -> Seq<char> {
    "struct "@ + o.name + ";"@
}

/// A typedef renders as an alias of its underlying type.
pub open spec fn typedef_render(t: TypedefModel) -> Seq<char> {
    "typedef "@ + ty_render(t.aliased) + " "@ + t.name + ";"@
}

/// A prebuilt renders as its literal source, verbatim.
pub open spec fn prebuilt_render(p: PrebuiltModel) -> Seq<char> {
    p.source
}

/// A rendered function argument: type, space, name.
pub open spec fn arg_render(a: (Seq<char>, TyModel)) -> Seq<char> {
    ty_render(a.1) + " "@ + a.0
}

pub open spec fn args_render(fs: Seq<(Seq<char>, TyModel)>) -> Seq<char>
    decreases fs,
{
    if fs.len() == 0 {
        Seq::empty()
    } else {
        arg_render(fs[0]) + args_render_tail(fs.drop_first())
    }
}

pub open spec fn args_render_tail(fs: Seq<(Seq<char>, TyModel)>) -> Seq<char>
    decreases fs,
{
    if fs.len() == 0 {
        Seq::empty()
    } else {
        ", "@ + arg_render(fs[0]) + args_render_tail(fs.drop_first())
    }
}

pub proof fn lemma_args_render_tail_snoc(fs: Seq<(Seq<char>, TyModel)>, x: (Seq<char>, TyModel))
    ensures
        args_render_tail(fs.push(x)) =~= args_render_tail(fs) + ", "@ + arg_render(x),
    decreases fs.len(),
{
    assert(fs.push(x)[0] == if fs.len() == 0 { x } else { fs[0] });
    if fs.len() == 0 {
        reveal_with_fuel(args_render_tail, 2);
        assert(fs.push(x).drop_first() =~= Seq::<(Seq<char>, TyModel)>::empty());
    } else {
        assert(fs.push(x).drop_first() =~= fs.drop_first().push(x));
        lemma_args_render_tail_snoc(fs.drop_first(), x);
    }
}

/// A function renders as a prototype; a destructor-safe one carries the
/// marker that the consuming build system defines away.
pub open spec fn fn_render(f: FunctionModel) -> Seq<char> {
    ty_render(f.ret) + " "@ + f.name + "("@ + args_render(f.args)
        + (if f.destructor_safe { ") WR_DESTRUCTOR_SAFE_FUNC;"@ } else { ");"@ })
}


// ---------------------------------------------------------------------
// exec rendering and dependency extraction

impl Enum {
    /// Appends this enum's rendering to the output text.
    pub fn render(&self, out: &mut String)
        ensures
            final(out)@ == old(out)@ + enum_render(self@),
    {
        out.append("enum ");
        out.append(self.name.as_str());
        out.append(" {\n");
        let ghost base = out@;
        let ghost vv = variants_view(self.variants@);
        let len = self.variants.len();
        let mut i: usize = 0;
        while i < len
            invariant
                i <= len,
                len == self.variants@.len(),
                vv == variants_view(self.variants@),
                out@ =~= base + variants_render(vv.take(i as int)),
            decreases len - i,
        {
            out.append("  ");
            out.append(self.variants[i].0.as_str());
            out.append(" = ");
            crate::text::push_dec(self.variants[i].1, out);
            out.append(",\n");
            proof {
                assert(vv.take(i + 1) =~= vv.take(i as int).push(vv[i as int]));
                lemma_variants_render_snoc(vv.take(i as int), vv[i as int]);
                assert(vv[i as int] == (self.variants@[i as int].0@, self.variants@[i as int].1));
                assert(out@ =~= base + variants_render(vv.take(i + 1)));
            }
            i = i + 1;
        }
        out.append("};");
        proof {
            assert(vv.take(len as int) =~= vv);
            assert(out@ =~= old(out)@ + enum_render(self@));
        }
    }
}

impl Struct {
    /// Appends this struct's rendering to the output text.
    pub fn render(&self, out: &mut String)
        ensures
            final(out)@ == old(out)@ + struct_render(self@),
    {
        out.append("struct ");
        out.append(self.name.as_str());
        out.append(" {\n");
        let ghost base = out@;
        let ghost fv = fields_view(self.fields@);
        let len = self.fields.len();
        let mut i: usize = 0;
        while i < len
            invariant
                i <= len,
                len == self.fields@.len(),
                fv == fields_view(self.fields@),
                out@ =~= base + struct_fields_render(fv.take(i as int)),
            decreases len - i,
        {
            out.append("  ");
            self.fields[i].1.render(out);
            out.append(" ");
            out.append(self.fields[i].0.as_str());
            out.append(";\n");
            proof {
                assert(fv.take(i + 1) =~= fv.take(i as int).push(fv[i as int]));
                lemma_struct_fields_render_snoc(fv.take(i as int), fv[i as int]);
                assert(fv[i as int] == (self.fields@[i as int].0@, self.fields@[i as int].1@));
                assert(out@ =~= base + struct_fields_render(fv.take(i + 1)));
            }
            i = i + 1;
        }
        out.append("};");
        proof {
            assert(fv.take(len as int) =~= fv);
            assert(out@ =~= old(out)@ + struct_render(self@));
        }
    }

    /// Appends the names this struct's field types refer to.
    pub fn push_dep_names(&self, out: &mut Vec<String>)
        ensures
            names_view(final(out)@) =~= names_view(old(out)@)
                + model_dep_names(PathValueModel::Struct(self@)),
    {
        let ghost fv = fields_view(self.fields@);
        let ghost base = names_view(out@);
        let len = self.fields.len();
        let mut i: usize = 0;
        while i < len
            invariant
                i <= len,
                len == self.fields@.len(),
                fv == fields_view(self.fields@),
                names_view(out@) =~= base + tys_names(field_tys(fv).take(i as int)),
            decreases len - i,
        {
            self.fields[i].1.push_names(out);
            proof {
                let ts = field_tys(fv);
                assert(ts.take(i + 1) =~= ts.take(i as int).push(ts[i as int]));
                crate::ty::lemma_tys_names_snoc(ts.take(i as int), ts[i as int]);
                assert(ts[i as int] == self.fields@[i as int].1@);
                assert(names_view(out@) =~= base + tys_names(ts.take(i + 1)));
            }
            i = i + 1;
        }
        proof {
            assert(field_tys(fv).take(len as int) =~= field_tys(fv));
        }
    }
}

impl OpaqueStruct {
    /// Appends this placeholder's rendering to the output text.
    pub fn render(&self, out: &mut String)
        ensures
            final(out)@ == old(out)@ + opaque_render(self@),
    {
        out.append("struct ");
        out.append(self.name.as_str());
        out.append(";");
        proof {
            assert(out@ =~= old(out)@ + opaque_render(self@));
        }
    }
}

impl Typedef {
    /// Appends this alias's rendering to the output text.
    pub fn render(&self, out: &mut String)
        ensures
            final(out)@ == old(out)@ + typedef_render(self@),
    {
        out.append("typedef ");
        self.aliased.render(out);
        out.append(" ");
        out.append(self.name.as_str());
        out.append(";");
        proof {
            assert(out@ =~= old(out)@ + typedef_render(self@));
        }
    }

    /// Appends the names the aliased type refers to.
    pub fn push_dep_names(&self, out: &mut Vec<String>)
        ensures
            names_view(final(out)@) =~= names_view(old(out)@)
                + model_dep_names(PathValueModel::Typedef(self@)),
    {
        self.aliased.push_names(out);
    }
}

impl Specialization {
    /// Appends the names inside this alias's concrete arguments.
    pub fn push_dep_names(&self, out: &mut Vec<String>)
        ensures
            names_view(final(out)@) =~= names_view(old(out)@)
                + model_dep_names(PathValueModel::Specialization(self@)),
    {
        let ghost gv = crate::ty::tys_view(self.generic_values@);
        let ghost base = names_view(out@);
        let len = self.generic_values.len();
        let mut i: usize = 0;
        proof {
            crate::ty::lemma_tys_view(self.generic_values@);
        }
        while i < len
            invariant
                i <= len,
                len == self.generic_values@.len(),
                gv == crate::ty::tys_view(self.generic_values@),
                names_view(out@) =~= base + tys_names(gv.take(i as int)),
            decreases len - i,
        {
            self.generic_values[i].push_names(out);
            proof {
                crate::ty::lemma_tys_view(self.generic_values@);
                assert(gv.take(i + 1) =~= gv.take(i as int).push(gv[i as int]));
                crate::ty::lemma_tys_names_snoc(gv.take(i as int), gv[i as int]);
                assert(gv[i as int] == self.generic_values@[i as int]@);
                assert(names_view(out@) =~= base + tys_names(gv.take(i + 1)));
            }
            i = i + 1;
        }
        proof {
            assert(gv.take(len as int) =~= gv);
        }
    }
}

impl Prebuilt {
    /// Appends the literal prebuilt text, verbatim.
    pub fn render(&self, out: &mut String)
        ensures
            final(out)@ == old(out)@ + prebuilt_render(self@),
    {
        out.append(self.source.as_str());
    }
}

impl Function {
    /// Appends this function's prototype to the output text.
    pub fn render(&self, out: &mut String)
        ensures
            final(out)@ == old(out)@ + fn_render(self@),
    {
        self.ret.render(out);
        out.append(" ");
        out.append(self.name.as_str());
        out.append("(");
        let ghost av = fields_view(self.args@);
        let len = self.args.len();
        if len > 0 {
            self.args[0].1.render(out);
            out.append(" ");
            out.append(self.args[0].0.as_str());
            let ghost base = out@;
            proof {
                assert(base =~= old(out)@ + ty_render(self@.ret) + " "@ + self@.name + "("@ + arg_render(av[0]));
            }
            let mut i: usize = 1;
            while i < len
                invariant
                    1 <= i <= len,
                    len == self.args@.len(),
                    av == fields_view(self.args@),
                    out@ =~= base + args_render_tail(av.skip(1).take(i - 1)),
                decreases len - i,
            {
                out.append(", ");
                self.args[i].1.render(out);
                out.append(" ");
                out.append(self.args[i].0.as_str());
                proof {
                    let tl = av.skip(1);
                    assert(tl.take(i as int) =~= tl.take(i - 1).push(tl[i - 1]));
                    lemma_args_render_tail_snoc(tl.take(i - 1), tl[i - 1]);
                    assert(tl[i - 1] == av[i as int]);
                    assert(av[i as int] == (self.args@[i as int].0@, self.args@[i as int].1@));
                    assert(out@ =~= base + args_render_tail(tl.take(i as int)));
                }
                i = i + 1;
            }
            proof {
                let tl = av.skip(1);
                assert(tl.take(len - 1) =~= tl);
                assert(av.drop_first() =~= tl);
                assert(args_render(av) =~= arg_render(av[0]) + args_render_tail(tl));
            }
        } else {
            proof {
                assert(args_render(av) =~= Seq::<char>::empty());
            }
        }
        if self.destructor_safe {
            out.append(") WR_DESTRUCTOR_SAFE_FUNC;");
        } else {
            out.append(");");
        }
        proof {
            assert(out@ =~= old(out)@ + fn_render(self@));
        }
    }

    /// Appends the names this function's signature refers to: the return
    /// type's first, then each argument's.
    pub fn push_dep_names(&self, out: &mut Vec<String>)
        ensures
            names_view(final(out)@) =~= names_view(old(out)@) + fn_dep_names(self@),
    {
        self.ret.push_names(out);
        let ghost av = fields_view(self.args@);
        let ghost base = names_view(out@);
        let len = self.args.len();
        let mut i: usize = 0;
        while i < len
            invariant
                i <= len,
                len == self.args@.len(),
                av == fields_view(self.args@),
                names_view(out@) =~= base + tys_names(field_tys(av).take(i as int)),
            decreases len - i,
        {
            self.args[i].1.push_names(out);
            proof {
                let ts = field_tys(av);
                assert(ts.take(i + 1) =~= ts.take(i as int).push(ts[i as int]));
                crate::ty::lemma_tys_names_snoc(ts.take(i as int), ts[i as int]);
                assert(ts[i as int] == self.args@[i as int].1@);
                assert(names_view(out@) =~= base + tys_names(ts.take(i + 1)));
            }
            i = i + 1;
        }
        proof {
            assert(field_tys(av).take(len as int) =~= field_tys(av));
            assert(names_view(out@) =~= names_view(old(out)@) + fn_dep_names(self@));
        }
    }
}

} // verus!
