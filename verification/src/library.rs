//! The resolution-and-generation engine: a symbol table over classified
//! declarations, a transitive dependency collector rooted at the exported
//! functions, a specialization step for parameterized aliases, an ordering
//! pass that hoists enums, and a deterministic emitter.

use vstd::prelude::*;

use crate::name_map::NameMap;
use crate::items::{
    Enum, EnumModel, Struct, StructModel, OpaqueStruct, OpaqueStructModel, Typedef, TypedefModel,
    Specialization, SpecializationModel, Prebuilt, PrebuiltModel, Function, FunctionModel,
    PathValue, PathValueModel, model_name, model_dep_names, fields_view, variants_view,
};
use crate::ty::{Ty, TyModel, names_view, tys_view};

verus! {

pub type ConvertResult<T> = Result<T, String>;

pub type BuildResult<T> = Result<T, String>;

pub type PathRef = String;

// ---------------------------------------------------------------------
// configuration

/// What the emitter may inject: a header, an autogenerated-file warning
/// banner placed at three points, and a trailer. Nothing else.
#[derive(Debug)]
pub struct Config {
    pub file_header: Option<String>,
    pub file_autogen_warning: Option<String>,
    pub file_trailer: Option<String>,
}

pub struct ConfigModel {
    pub file_header: Option<Seq<char>>,
    pub file_autogen_warning: Option<Seq<char>>,
    pub file_trailer: Option<Seq<char>>,
}

pub open spec fn opt_text_view(o: Option<String>) -> Option<Seq<char>> {
    match o {
        Option::Some(s) => Option::Some(s@),
        Option::None => Option::None,
    }
}

impl View for Config {
    type V = ConfigModel;

    open spec fn view(&self) -> ConfigModel {
        ConfigModel {
            file_header: opt_text_view(self.file_header),
            file_autogen_warning: opt_text_view(self.file_autogen_warning),
            file_trailer: opt_text_view(self.file_trailer),
        }
    }
}

// ---------------------------------------------------------------------
// incoming declarations

/// A classified declaration record, as the external source walker hands
/// it over: plain flags for the annotations it saw, and the per-kind
/// converter's verdict (`None` when the construct is not representable).
#[derive(Debug)]
pub enum Decl {
    /// A function-shaped declaration.
    Fn {
        name: String,
        no_mangle: bool,
        abi_c: bool,
        destructor_safe: bool,
        sig: Option<(Vec<(String, Ty)>, Ty)>,
    },
    /// A struct-shaped declaration.
    Struct {
        name: String,
        repr_c: bool,
        generic_params: Vec<String>,
        fields: Option<Vec<(String, Ty)>>,
    },
    /// An enum-shaped declaration.
    Enum {
        name: String,
        has_generics: bool,
        repr_u32: bool,
        variants: Option<Vec<(String, u32)>>,
    },
    /// An alias-shaped declaration (`type X = ...`); `ty` is `None`
    /// when neither the specialization converter nor the typedef
    /// converter could represent the target.
    Alias { name: String, has_generics: bool, ty: Option<Ty> },
}

pub enum DeclModel {
    Fn {
        name: Seq<char>,
        no_mangle: bool,
        abi_c: bool,
        destructor_safe: bool,
        sig: Option<(Seq<(Seq<char>, TyModel)>, TyModel)>,
    },
    Struct {
        name: Seq<char>,
        repr_c: bool,
        generic_params: Seq<Seq<char>>,
        fields: Option<Seq<(Seq<char>, TyModel)>>,
    },
    Enum {
        name: Seq<char>,
        has_generics: bool,
        repr_u32: bool,
        variants: Option<Seq<(Seq<char>, u32)>>,
    },
    Alias { name: Seq<char>, has_generics: bool, ty: Option<TyModel> },
}

impl View for Decl {
    type V = DeclModel;

    open spec fn view(&self) -> DeclModel {
        match self {
            Decl::Fn { name, no_mangle, abi_c, destructor_safe, sig } => DeclModel::Fn {
                name: name@,
                no_mangle: *no_mangle,
                abi_c: *abi_c,
                destructor_safe: *destructor_safe,
                sig: match sig {
                    Option::Some(p) => Option::Some((fields_view(p.0@), p.1@)),
                    Option::None => Option::None,
                },
            },
            Decl::Struct { name, repr_c, generic_params, fields } => DeclModel::Struct {
                name: name@,
                repr_c: *repr_c,
                generic_params: names_view(generic_params@),
                fields: match fields {
                    Option::Some(f) => Option::Some(fields_view(f@)),
                    Option::None => Option::None,
                },
            },
            Decl::Enum { name, has_generics, repr_u32, variants } => DeclModel::Enum {
                name: name@,
                has_generics: *has_generics,
                repr_u32: *repr_u32,
                variants: match variants {
                    Option::Some(v) => Option::Some(variants_view(v@)),
                    Option::None => Option::None,
                },
            },
            Decl::Alias { name, has_generics, ty } => DeclModel::Alias {
                name: name@,
                has_generics: *has_generics,
                ty: match ty {
                    Option::Some(t) => Option::Some(t@),
                    Option::None => Option::None,
                },
            },
        }
    }
}

/// The name under which a declaration would be classified.
pub open spec fn decl_name(d: DeclModel) -> Seq<char> {
    match d {
        DeclModel::Fn { name, .. } => name,
        DeclModel::Struct { name, .. } => name,
        DeclModel::Enum { name, .. } => name,
        DeclModel::Alias { name, .. } => name,
    }
}

// ---------------------------------------------------------------------
// diagnostics

/// Why a declaration was skipped, demoted to opaque, or failed to
/// specialize.
#[derive(Debug, Clone, Copy, PartialEq, Eq, Structural)]
pub enum DiagReason {
    /// The signature mapper rejected a parameter or return type.
    SignatureUnsupported,
    /// The declaration carries generic or lifetime parameters.
    HasGenerics,
    /// The enum lacks the fixed 32-bit representation tag.
    NotReprU32,
    /// The variant converter rejected the enum's variants.
    VariantsUnsupported,
    /// The field-type mapper rejected a field.
    FieldsUnsupported,
    /// The struct is not tagged with a fixed, C-compatible layout.
    NotReprC,
    /// Neither the specialization converter nor the typedef converter
    /// could represent the alias's target: both failures in one record.
    AliasUnsupported,
}

/// One structured diagnostic record; a channel, never a result.
#[derive(Debug)]
pub enum Diag {
    /// A declaration entered the symbol table.
    Accepted { module: String, subject: String },
    /// A struct entered the table as an opaque placeholder.
    AcceptedOpaque { module: String, subject: String, reason: DiagReason },
    /// A declaration was dropped.
    Skipped { module: String, subject: String, reason: DiagReason },
    /// A referenced name did not resolve; the edge is simply absent.
    UnresolvedName { subject: String },
    /// A parameterized alias could not be specialized; it is omitted.
    SpecializeFailed { subject: String, message: String },
}

pub enum DiagModel {
    Accepted { module: Seq<char>, subject: Seq<char> },
    AcceptedOpaque { module: Seq<char>, subject: Seq<char>, reason: DiagReason },
    Skipped { module: Seq<char>, subject: Seq<char>, reason: DiagReason },
    UnresolvedName { subject: Seq<char> },
    SpecializeFailed { subject: Seq<char>, message: Seq<char> },
}

impl View for Diag {
    type V = DiagModel;

    open spec fn view(&self) -> DiagModel {
        match self {
            Diag::Accepted { module, subject } => DiagModel::Accepted { module: module@, subject: subject@ },
            Diag::AcceptedOpaque { module, subject, reason } => DiagModel::AcceptedOpaque {
                module: module@,
                subject: subject@,
                reason: *reason,
            },
            Diag::Skipped { module, subject, reason } => DiagModel::Skipped {
                module: module@,
                subject: subject@,
                reason: *reason,
            },
            Diag::UnresolvedName { subject } => DiagModel::UnresolvedName { subject: subject@ },
            Diag::SpecializeFailed { subject, message } => DiagModel::SpecializeFailed {
                subject: subject@,
                message: message@,
            },
        }
    }
}

pub open spec fn diags_view(ds: Seq<Diag>) -> Seq<DiagModel> {
    Seq::new(ds.len(), |i: int| ds[i]@)
}

/// Whether a warning for an unresolved name stands in the diagnostics.
pub open spec fn warned(ds: Seq<Diag>, n: Seq<char>) -> bool {
    exists|i: int|
        0 <= i < ds.len() && ds[i]@ == (DiagModel::UnresolvedName { subject: n })
}

/// Whether a record that the named alias failed to specialize stands in
/// the diagnostics.
pub open spec fn specialize_failure_recorded(ds: Seq<Diag>, n: Seq<char>) -> bool {
    exists|i: int|
        0 <= i < ds.len() && ds[i]@ is SpecializeFailed
            && ds[i]@->SpecializeFailed_subject == n
}

// ---------------------------------------------------------------------
// the symbol state and the classifier's meaning

/// The symbol table as a mathematical value: one name-keyed map per
/// entity kind, plus the exported functions.
#[verifier::ext_equal]
pub struct SymbolState {
    pub enums: Map<Seq<char>, EnumModel>,
    pub structs: Map<Seq<char>, StructModel>,
    pub opaque_structs: Map<Seq<char>, OpaqueStructModel>,
    pub typedefs: Map<Seq<char>, TypedefModel>,
    pub specializations: Map<Seq<char>, SpecializationModel>,
    pub prebuilts: Map<Seq<char>, PrebuiltModel>,
    pub functions: Map<Seq<char>, FunctionModel>,
}

pub open spec fn blank_sym() -> SymbolState {
    SymbolState {
        enums: Map::empty(),
        structs: Map::empty(),
        opaque_structs: Map::empty(),
        typedefs: Map::empty(),
        specializations: Map::empty(),
        prebuilts: Map::empty(),
        functions: Map::empty(),
    }
}

/// Which collection a declaration lands in, if any.
#[derive(PartialEq, Eq, Structural)]
pub enum Route {
    IntoFunctions,
    IntoStructs,
    IntoOpaqueStructs,
    IntoEnums,
    IntoSpecializations,
    IntoTypedefs,
    Dropped,
}

/// The classifier's routing decision for one declaration.
pub open spec fn route_of(d: DeclModel, ignore: Seq<Seq<char>>) -> Route {
    if ignore.contains(decl_name(d)) {
        Route::Dropped
    } else {
        match d {
            DeclModel::Fn { no_mangle, abi_c, sig, .. } => {
                if no_mangle && abi_c && sig is Some {
                    Route::IntoFunctions
                } else {
                    Route::Dropped
                }
            },
            DeclModel::Struct { repr_c, fields, .. } => {
                if repr_c && fields is Some {
                    Route::IntoStructs
                } else {
                    Route::IntoOpaqueStructs
                }
            },
            DeclModel::Enum { has_generics, repr_u32, variants, .. } => {
                if !has_generics && repr_u32 && variants is Some {
                    Route::IntoEnums
                } else {
                    Route::Dropped
                }
            },
            DeclModel::Alias { has_generics, ty, .. } => {
                if has_generics || ty is None {
                    Route::Dropped
                } else if ty->Some_0 is Path && ty->Some_0->Path_1.len() > 0 {
                    Route::IntoSpecializations
                } else {
                    Route::IntoTypedefs
                }
            },
        }
    }
}

/// What one classified declaration does to the symbol state: route it
/// into its collection (a later insertion with a duplicate name
/// overwrites the earlier one) or drop it.
pub open spec fn ingest_step(s: SymbolState, d: DeclModel, ignore: Seq<Seq<char>>) -> SymbolState {
    let n = decl_name(d);
    match route_of(d, ignore) {
        Route::Dropped => s,
        Route::IntoFunctions => SymbolState {
            functions: s.functions.insert(
                n,
                FunctionModel {
                    name: n,
                    ret: d->Fn_sig->Some_0.1,
                    args: d->Fn_sig->Some_0.0,
                    destructor_safe: d->Fn_destructor_safe,
                },
            ),
            ..s
        },
        Route::IntoStructs => SymbolState {
            structs: s.structs.insert(
                n,
                StructModel {
                    name: n,
                    fields: d->Struct_fields->Some_0,
                    generic_params: d->Struct_generic_params,
                },
            ),
            ..s
        },
        Route::IntoOpaqueStructs => SymbolState {
            opaque_structs: s.opaque_structs.insert(n, OpaqueStructModel { name: n }),
            ..s
        },
        Route::IntoEnums => SymbolState {
            enums: s.enums.insert(n, EnumModel { name: n, variants: d->Enum_variants->Some_0 }),
            ..s
        },
        Route::IntoSpecializations => SymbolState {
            specializations: s.specializations.insert(
                n,
                SpecializationModel {
                    name: n,
                    aliased: d->Alias_ty->Some_0->Path_0,
                    generic_values: d->Alias_ty->Some_0->Path_1,
                },
            ),
            ..s
        },
        Route::IntoTypedefs => SymbolState {
            typedefs: s.typedefs.insert(n, TypedefModel { name: n, aliased: d->Alias_ty->Some_0 }),
            ..s
        },
    }
}

/// The diagnostics one classified declaration produces.
pub open spec fn ingest_diags(m: Seq<char>, d: DeclModel, ignore: Seq<Seq<char>>) -> Seq<DiagModel> {
    let n = decl_name(d);
    if ignore.contains(n) {
        Seq::empty()
    } else {
        match d {
            DeclModel::Fn { no_mangle, abi_c, sig, .. } => {
                if !(no_mangle && abi_c) {
                    Seq::empty()
                } else if sig is Some {
                    seq![DiagModel::Accepted { module: m, subject: n }]
                } else {
                    seq![DiagModel::Skipped { module: m, subject: n, reason: DiagReason::SignatureUnsupported }]
                }
            },
            DeclModel::Struct { repr_c, fields, .. } => {
                if !repr_c {
                    seq![DiagModel::AcceptedOpaque { module: m, subject: n, reason: DiagReason::NotReprC }]
                } else if fields is Some {
                    seq![DiagModel::Accepted { module: m, subject: n }]
                } else {
                    seq![DiagModel::AcceptedOpaque { module: m, subject: n, reason: DiagReason::FieldsUnsupported }]
                }
            },
            DeclModel::Enum { has_generics, repr_u32, variants, .. } => {
                if has_generics {
                    seq![DiagModel::Skipped { module: m, subject: n, reason: DiagReason::HasGenerics }]
                } else if !repr_u32 {
                    seq![DiagModel::Skipped { module: m, subject: n, reason: DiagReason::NotReprU32 }]
                } else if variants is Some {
                    seq![DiagModel::Accepted { module: m, subject: n }]
                } else {
                    seq![DiagModel::Skipped { module: m, subject: n, reason: DiagReason::VariantsUnsupported }]
                }
            },
            DeclModel::Alias { has_generics, ty, .. } => {
                if has_generics {
                    seq![DiagModel::Skipped { module: m, subject: n, reason: DiagReason::HasGenerics }]
                } else if ty is None {
                    seq![DiagModel::Skipped { module: m, subject: n, reason: DiagReason::AliasUnsupported }]
                } else {
                    seq![DiagModel::Accepted { module: m, subject: n }]
                }
            },
        }
    }
}

/// Resolution precedence, first match wins: prebuilt, enum, struct,
/// opaque struct, typedef, specialization. Absence is a silent gap.
pub open spec fn resolve_model(s: SymbolState, p: Seq<char>) -> Option<PathValueModel> {
    if s.prebuilts.contains_key(p) {
        Option::Some(PathValueModel::Prebuilt(s.prebuilts[p]))
    } else if s.enums.contains_key(p) {
        Option::Some(PathValueModel::Enum(s.enums[p]))
    } else if s.structs.contains_key(p) {
        Option::Some(PathValueModel::Struct(s.structs[p]))
    } else if s.opaque_structs.contains_key(p) {
        Option::Some(PathValueModel::OpaqueStruct(s.opaque_structs[p]))
    } else if s.typedefs.contains_key(p) {
        Option::Some(PathValueModel::Typedef(s.typedefs[p]))
    } else if s.specializations.contains_key(p) {
        Option::Some(PathValueModel::Specialization(s.specializations[p]))
    } else {
        Option::None
    }
}

/// All names the symbol table holds, of any kind.
pub open spec fn sym_names(s: SymbolState) -> Set<Seq<char>> {
    s.prebuilts.dom()
        .union(s.enums.dom())
        .union(s.structs.dom())
        .union(s.opaque_structs.dom())
        .union(s.typedefs.dom())
        .union(s.specializations.dom())
        .union(s.functions.dom())
}

/// The view of a name-keyed mapping of entities.
pub open spec fn view_map<V: View>(m: Map<Seq<char>, V>) -> Map<Seq<char>, V::V> {
    Map::new(|k: Seq<char>| m.contains_key(k), |k: Seq<char>| m[k]@)
}

// ---------------------------------------------------------------------
// the library

/// A library collects everything needed to generate bindings: six
/// name-keyed entity collections and the exported functions. `build`
/// turns it into a `BuiltLibrary`, filtering out what the exported
/// surface does not touch.
pub struct Library {
    enums: NameMap<Enum>,
    structs: NameMap<Struct>,
    opaque_structs: NameMap<OpaqueStruct>,
    typedefs: NameMap<Typedef>,
    specializations: NameMap<Specialization>,
    prebuilts: NameMap<Prebuilt>,
    functions: NameMap<Function>,
}

impl Library {
    /// All mappings sorted and every entity stored under its own name.
    pub closed spec fn wf(&self) -> bool {
        &&& self.enums.wf()
        &&& self.structs.wf()
        &&& self.opaque_structs.wf()
        &&& self.typedefs.wf()
        &&& self.specializations.wf()
        &&& self.prebuilts.wf()
        &&& self.functions.wf()
        &&& forall|k: Seq<char>| #[trigger] self.enums.as_map().contains_key(k) ==> self.enums.as_map()[k]@.name == k
        &&& forall|k: Seq<char>| #[trigger] self.structs.as_map().contains_key(k) ==> self.structs.as_map()[k]@.name == k
        &&& forall|k: Seq<char>| #[trigger] self.opaque_structs.as_map().contains_key(k) ==> self.opaque_structs.as_map()[k]@.name == k
        &&& forall|k: Seq<char>| #[trigger] self.typedefs.as_map().contains_key(k) ==> self.typedefs.as_map()[k]@.name == k
        &&& forall|k: Seq<char>| #[trigger] self.specializations.as_map().contains_key(k) ==> self.specializations.as_map()[k]@.name == k
        &&& forall|k: Seq<char>| #[trigger] self.prebuilts.as_map().contains_key(k) ==> self.prebuilts.as_map()[k]@.name == k
        &&& forall|k: Seq<char>| #[trigger] self.functions.as_map().contains_key(k) ==> self.functions.as_map()[k]@.name == k
    }

    /// The symbol table as a mathematical value.
    pub closed spec fn sym(&self) -> SymbolState {
        SymbolState {
            enums: view_map(self.enums.as_map()),
            structs: view_map(self.structs.as_map()),
            opaque_structs: view_map(self.opaque_structs.as_map()),
            typedefs: view_map(self.typedefs.as_map()),
            specializations: view_map(self.specializations.as_map()),
            prebuilts: view_map(self.prebuilts.as_map()),
            functions: view_map(self.functions.as_map()),
        }
    }

    /// The exported functions, in ascending name order.
    pub closed spec fn fn_list(&self) -> Seq<FunctionModel> {
        Seq::new(self.functions.vals().len(), |i: int| self.functions.vals()[i]@)
    }

    /// The function list is the name-ordered contents of the function
    /// mapping.
    pub proof fn lemma_fn_list(&self)
        requires
            self.wf(),
        ensures
            forall|i: int| 0 <= i < self.fn_list().len()
                ==> self.sym().functions.contains_key(#[trigger] self.fn_list()[i].name)
                    && self.sym().functions[self.fn_list()[i].name] == self.fn_list()[i],
            forall|k: Seq<char>| #[trigger] self.sym().functions.contains_key(k)
                ==> exists|i: int| 0 <= i < self.fn_list().len() && self.fn_list()[i].name == k,
            crate::ty::names_sorted(Seq::new(self.fn_list().len(), |i: int| self.fn_list()[i].name)),
    {
        self.functions.lemma_entries_in_map();
        self.functions.lemma_len();
        assert forall|i: int| 0 <= i < self.fn_list().len()
            implies self.sym().functions.contains_key(#[trigger] self.fn_list()[i].name)
                && self.sym().functions[self.fn_list()[i].name] == self.fn_list()[i] by {
            assert(self.functions.as_map().contains_key(self.functions.keys()[i]));
            assert(self.functions.as_map()[self.functions.keys()[i]] == self.functions.vals()[i]);
            assert(self.functions.vals()[i]@.name == self.functions.keys()[i]);
        }
        assert forall|k: Seq<char>| #[trigger] self.sym().functions.contains_key(k)
            implies exists|i: int| 0 <= i < self.fn_list().len() && self.fn_list()[i].name == k by {
            crate::text::lemma_find_idx(self.functions.keys(), k);
            let f = crate::text::find_idx(self.functions.keys(), k);
            assert(self.functions.keys()[f] == k);
            assert(self.fn_list()[f].name == k);
        }
        let nseq = Seq::new(self.fn_list().len(), |q: int| self.fn_list()[q].name);
        assert forall|i: int, j: int| 0 <= i < j < nseq.len()
            implies #[trigger] crate::text::lex_lt(nseq[i], nseq[j]) by {
            assert(self.functions.vals()[i]@.name == self.functions.keys()[i]);
            assert(self.functions.vals()[j]@.name == self.functions.keys()[j]);
        }
        assert(crate::ty::names_sorted(nseq));
    }

    /// An empty library.
    pub fn blank() -> (r: Library)
        ensures
            r.wf(),
            r.sym() =~~= blank_sym(),
    {
        let r = Library {
            enums: NameMap::blank(),
            structs: NameMap::blank(),
            opaque_structs: NameMap::blank(),
            typedefs: NameMap::blank(),
            specializations: NameMap::blank(),
            prebuilts: NameMap::blank(),
            functions: NameMap::blank(),
        };
        proof {
            assert(r.sym().enums =~= Map::<Seq<char>, EnumModel>::empty());
            assert(r.sym().structs =~= Map::<Seq<char>, StructModel>::empty());
            assert(r.sym().opaque_structs =~= Map::<Seq<char>, OpaqueStructModel>::empty());
            assert(r.sym().typedefs =~= Map::<Seq<char>, TypedefModel>::empty());
            assert(r.sym().specializations =~= Map::<Seq<char>, SpecializationModel>::empty());
            assert(r.sym().prebuilts =~= Map::<Seq<char>, PrebuiltModel>::empty());
            assert(r.sym().functions =~= Map::<Seq<char>, FunctionModel>::empty());
        }
        r
    }

    /// Resolves a name with the fixed precedence. A missing name is the
    /// caller's warning, never an error.
    pub fn resolve_path(&self, p: &PathRef) -> (r: Option<PathValue>)
        requires
            self.wf(),
        ensures
            match r {
                Option::Some(v) => resolve_model(self.sym(), p@) == Option::Some(v@)
                    && model_name(v@) == p@,
                Option::None => resolve_model(self.sym(), p@) is None,
            },
    {
        // Search the prebuilts first: they override everything derived.
        if let Option::Some(x) = self.prebuilts.get(p) {
            return Option::Some(PathValue::Prebuilt(x.dup()));
        }
        if let Option::Some(x) = self.enums.get(p) {
            return Option::Some(PathValue::Enum(x.dup()));
        }
        if let Option::Some(x) = self.structs.get(p) {
            return Option::Some(PathValue::Struct(x.dup()));
        }
        if let Option::Some(x) = self.opaque_structs.get(p) {
            let r = PathValue::OpaqueStruct(OpaqueStruct { name: x.name.clone() });
            return Option::Some(r);
        }
        if let Option::Some(x) = self.typedefs.get(p) {
            return Option::Some(PathValue::Typedef(x.dup()));
        }
        if let Option::Some(x) = self.specializations.get(p) {
            return Option::Some(PathValue::Specialization(x.dup()));
        }
        Option::None
    }
}


// ---------------------------------------------------------------------
// ingestion

/// The views of a module/declaration stream.
pub open spec fn decl_pairs_view(ds: Seq<(String, Decl)>) -> Seq<(Seq<char>, DeclModel)> {
    Seq::new(ds.len(), |i: int| (ds[i].0@, ds[i].1@))
}

/// The views of the caller-supplied prebuilt entries.
pub open spec fn prebuilts_view(ps: Seq<Prebuilt>) -> Seq<PrebuiltModel> {
    Seq::new(ps.len(), |i: int| ps[i]@)
}

/// The symbol state after ingesting a stream of declarations in order.
pub open spec fn ingest_all(s: SymbolState, ds: Seq<(Seq<char>, DeclModel)>, ignore: Seq<Seq<char>>) -> SymbolState
    decreases ds.len(),
{
    if ds.len() == 0 {
        s
    } else {
        ingest_all(ingest_step(s, ds[0].1, ignore), ds.drop_first(), ignore)
    }
}

pub proof fn lemma_ingest_all_snoc(s: SymbolState, ds: Seq<(Seq<char>, DeclModel)>, x: (Seq<char>, DeclModel), ignore: Seq<Seq<char>>)
    ensures
        ingest_all(s, ds.push(x), ignore) == ingest_step(ingest_all(s, ds, ignore), x.1, ignore),
    decreases ds.len(),
{
    assert(ds.push(x)[0] == if ds.len() == 0 { x } else { ds[0] });
    if ds.len() == 0 {
        reveal_with_fuel(ingest_all, 2);
        assert(ds.push(x).drop_first() =~= Seq::<(Seq<char>, DeclModel)>::empty());
    } else {
        assert(ds.push(x).drop_first() =~= ds.drop_first().push(x));
        lemma_ingest_all_snoc(ingest_step(s, ds[0].1, ignore), ds.drop_first(), x, ignore);
    }
}

/// The diagnostics a stream of declarations produces, concatenated.
pub open spec fn ingest_all_diags(ds: Seq<(Seq<char>, DeclModel)>, ignore: Seq<Seq<char>>) -> Seq<DiagModel>
    decreases ds.len(),
{
    if ds.len() == 0 {
        Seq::empty()
    } else {
        ingest_diags(ds[0].0, ds[0].1, ignore) + ingest_all_diags(ds.drop_first(), ignore)
    }
}

pub proof fn lemma_ingest_all_diags_snoc(ds: Seq<(Seq<char>, DeclModel)>, x: (Seq<char>, DeclModel), ignore: Seq<Seq<char>>)
    ensures
        ingest_all_diags(ds.push(x), ignore) =~= ingest_all_diags(ds, ignore) + ingest_diags(x.0, x.1, ignore),
    decreases ds.len(),
{
    assert(ds.push(x)[0] == if ds.len() == 0 { x } else { ds[0] });
    if ds.len() == 0 {
        reveal_with_fuel(ingest_all_diags, 2);
        assert(ds.push(x).drop_first() =~= Seq::<(Seq<char>, DeclModel)>::empty());
    } else {
        assert(ds.push(x).drop_first() =~= ds.drop_first().push(x));
        lemma_ingest_all_diags_snoc(ds.drop_first(), x, ignore);
    }
}

/// The symbol state after the prebuilt entries are inserted, in order,
/// unconditionally.
pub open spec fn add_prebuilts(s: SymbolState, ps: Seq<PrebuiltModel>) -> SymbolState
    decreases ps.len(),
{
    if ps.len() == 0 {
        s
    } else {
        add_prebuilts(
            SymbolState { prebuilts: s.prebuilts.insert(ps[0].name, ps[0]), ..s },
            ps.drop_first(),
        )
    }
}

pub proof fn lemma_add_prebuilts_snoc(s: SymbolState, ps: Seq<PrebuiltModel>, x: PrebuiltModel)
    ensures
        add_prebuilts(s, ps.push(x)) == (SymbolState {
            prebuilts: add_prebuilts(s, ps).prebuilts.insert(x.name, x),
            ..add_prebuilts(s, ps)
        }),
    decreases ps.len(),
{
    assert(ps.push(x)[0] == if ps.len() == 0 { x } else { ps[0] });
    if ps.len() == 0 {
        reveal_with_fuel(add_prebuilts, 2);
        assert(ps.push(x).drop_first() =~= Seq::<PrebuiltModel>::empty());
    } else {
        assert(ps.push(x).drop_first() =~= ps.drop_first().push(x));
        lemma_add_prebuilts_snoc(SymbolState { prebuilts: s.prebuilts.insert(ps[0].name, ps[0]), ..s }, ps.drop_first(), x);
    }
}

/// Inserting into a mapping and taking views commute.
pub proof fn lemma_view_map_insert<V: View>(m: Map<Seq<char>, V>, k: Seq<char>, v: V)
    ensures
        view_map(m.insert(k, v)) =~= view_map(m).insert(k, v@),
{
}

/// Whether a name stands in a list of names.
pub fn contains_name_vec(v: &Vec<String>, n: &String) -> (r: bool)
    ensures
        r == names_view(v@).contains(n@),
{
    let len = v.len();
    let mut i: usize = 0;
    while i < len
        invariant
            i <= len,
            len == v@.len(),
            forall|j: int| 0 <= j < i ==> names_view(v@)[j] != n@,
        decreases len - i,
    {
        if v[i] == *n {
            proof {
                assert(names_view(v@)[i as int] == n@);
            }
            return true;
        }
        i = i + 1;
    }
    proof {
        if names_view(v@).contains(n@) {
            let j = choose|j: int| 0 <= j < names_view(v@).len() && names_view(v@)[j] == n@;
            assert(false);
        }
    }
    false
}

impl Library {
    /// Routes one classified declaration into its collection or drops
    /// it, with one diagnostic per decision. Ignored names change
    /// nothing; a later declaration overwrites an earlier one of the
    /// same name and collection.
    pub fn ingest(&mut self, module: &String, decl: Decl, ignore: &Vec<String>, diags: &mut Vec<Diag>)
        requires
            old(self).wf(),
        ensures
            final(self).wf(),
            final(self).sym() =~~= ingest_step(old(self).sym(), decl@, names_view(ignore@)),
            diags_view(final(diags)@) =~= diags_view(old(diags)@)
                + ingest_diags(module@, decl@, names_view(ignore@)),
    {
        let ghost dm = decl@;
        let ghost ign = names_view(ignore@);
        let ghost s0 = old(self).sym();
        match decl {
            Decl::Fn { name, no_mangle, abi_c, destructor_safe, sig } => {
                if contains_name_vec(ignore, &name) {
                    return;
                }
                if no_mangle && abi_c {
                    match sig {
                        Option::Some(parts) => {
                            let (args, ret) = parts;
                            diags.push(Diag::Accepted { module: module.clone(), subject: name.clone() });
                            let func = Function { name: name.clone(), ret, args, destructor_safe };
                            proof {
                                lemma_view_map_insert(old(self).functions.as_map(), name@, func);
                                assert(func@ == (FunctionModel {
                                    name: decl_name(dm),
                                    ret: dm->Fn_sig->Some_0.1,
                                    args: dm->Fn_sig->Some_0.0,
                                    destructor_safe: dm->Fn_destructor_safe,
                                }));
                            }
                            self.functions.insert(name, func);
                            proof {
                                assert(self.sym().functions =~= ingest_step(s0, dm, ign).functions);
                                assert(diags_view(diags@) =~= diags_view(old(diags)@) + ingest_diags(module@, dm, ign));
                            }
                        },
                        Option::None => {
                            diags.push(Diag::Skipped { module: module.clone(), subject: name, reason: DiagReason::SignatureUnsupported });
                            proof {
                                assert(diags_view(diags@) =~= diags_view(old(diags)@) + ingest_diags(module@, dm, ign));
                            }
                        },
                    }
                }
            },
            Decl::Struct { name, repr_c, generic_params, fields } => {
                if contains_name_vec(ignore, &name) {
                    return;
                }
                if repr_c {
                    match fields {
                        Option::Some(fs) => {
                            diags.push(Diag::Accepted { module: module.clone(), subject: name.clone() });
                            let st = Struct { name: name.clone(), fields: fs, generic_params };
                            proof {
                                lemma_view_map_insert(old(self).structs.as_map(), name@, st);
                            }
                            self.structs.insert(name, st);
                            proof {
                                assert(self.sym().structs =~= ingest_step(s0, dm, ign).structs);
                                assert(diags_view(diags@) =~= diags_view(old(diags)@) + ingest_diags(module@, dm, ign));
                            }
                        },
                        Option::None => {
                            diags.push(Diag::AcceptedOpaque { module: module.clone(), subject: name.clone(), reason: DiagReason::FieldsUnsupported });
                            let op = OpaqueStruct { name: name.clone() };
                            proof {
                                lemma_view_map_insert(old(self).opaque_structs.as_map(), name@, op);
                            }
                            self.opaque_structs.insert(name, op);
                            proof {
                                assert(self.sym().opaque_structs =~= ingest_step(s0, dm, ign).opaque_structs);
                                assert(diags_view(diags@) =~= diags_view(old(diags)@) + ingest_diags(module@, dm, ign));
                            }
                        },
                    }
                } else {
                    diags.push(Diag::AcceptedOpaque { module: module.clone(), subject: name.clone(), reason: DiagReason::NotReprC });
                    let op = OpaqueStruct { name: name.clone() };
                    proof {
                        lemma_view_map_insert(old(self).opaque_structs.as_map(), name@, op);
                    }
                    self.opaque_structs.insert(name, op);
                    proof {
                        assert(self.sym().opaque_structs =~= ingest_step(s0, dm, ign).opaque_structs);
                        assert(diags_view(diags@) =~= diags_view(old(diags)@) + ingest_diags(module@, dm, ign));
                    }
                }
            },
            Decl::Enum { name, has_generics, repr_u32, variants } => {
                if contains_name_vec(ignore, &name) {
                    return;
                }
                if has_generics {
                    diags.push(Diag::Skipped { module: module.clone(), subject: name, reason: DiagReason::HasGenerics });
                    proof {
                        assert(diags_view(diags@) =~= diags_view(old(diags)@) + ingest_diags(module@, dm, ign));
                    }
                } else if !repr_u32 {
                    diags.push(Diag::Skipped { module: module.clone(), subject: name, reason: DiagReason::NotReprU32 });
                    proof {
                        assert(diags_view(diags@) =~= diags_view(old(diags)@) + ingest_diags(module@, dm, ign));
                    }
                } else {
                    match variants {
                        Option::Some(vs) => {
                            diags.push(Diag::Accepted { module: module.clone(), subject: name.clone() });
                            let en = Enum { name: name.clone(), variants: vs };
                            proof {
                                lemma_view_map_insert(old(self).enums.as_map(), name@, en);
                            }
                            self.enums.insert(name, en);
                            proof {
                                assert(self.sym().enums =~= ingest_step(s0, dm, ign).enums);
                                assert(diags_view(diags@) =~= diags_view(old(diags)@) + ingest_diags(module@, dm, ign));
                            }
                        },
                        Option::None => {
                            diags.push(Diag::Skipped { module: module.clone(), subject: name, reason: DiagReason::VariantsUnsupported });
                            proof {
                                assert(diags_view(diags@) =~= diags_view(old(diags)@) + ingest_diags(module@, dm, ign));
                            }
                        },
                    }
                }
            },
            Decl::Alias { name, has_generics, ty } => {
                if contains_name_vec(ignore, &name) {
                    return;
                }
                if has_generics {
                    diags.push(Diag::Skipped { module: module.clone(), subject: name, reason: DiagReason::HasGenerics });
                    proof {
                        assert(diags_view(diags@) =~= diags_view(old(diags)@) + ingest_diags(module@, dm, ign));
                    }
                } else if ty.is_none() {
                    // Neither converter could represent the target: the
                    // alias is skipped, with the combined reason.
                    diags.push(Diag::Skipped { module: module.clone(), subject: name, reason: DiagReason::AliasUnsupported });
                    proof {
                        assert(diags_view(diags@) =~= diags_view(old(diags)@) + ingest_diags(module@, dm, ign));
                    }
                } else {
                    let ty = ty.unwrap();
                    // A parameterized path specializes; anything else is a
                    // plain typedef.
                    let is_spec = match &ty {
                        Ty::Path(_, args) => args.len() > 0,
                        _ => false,
                    };
                    proof {
                        assert(dm->Alias_ty == Option::Some(ty@));
                        if ty is Path {
                            crate::ty::lemma_path_view(ty);
                            crate::ty::lemma_tys_view(ty->Path_1@);
                            assert(is_spec == (dm->Alias_ty->Some_0 is Path && dm->Alias_ty->Some_0->Path_1.len() > 0));
                        } else {
                            assert(!(ty@ is Path));
                            assert(!is_spec);
                        }
                    }
                    diags.push(Diag::Accepted { module: module.clone(), subject: name.clone() });
                    if is_spec {
                        match ty {
                            Ty::Path(aliased, generic_values) => {
                                let sp = Specialization { name: name.clone(), aliased, generic_values };
                                proof {
                                    crate::ty::lemma_path_view(Ty::Path(sp.aliased, sp.generic_values));
                                    lemma_view_map_insert(old(self).specializations.as_map(), name@, sp);
                                    assert(sp@ == (SpecializationModel {
                                        name: decl_name(dm),
                                        aliased: dm->Alias_ty->Some_0->Path_0,
                                        generic_values: dm->Alias_ty->Some_0->Path_1,
                                    }));
                                }
                                self.specializations.insert(name, sp);
                                proof {
                                    assert(self.sym().specializations =~= ingest_step(s0, dm, ign).specializations);
                                    assert(diags_view(diags@) =~= diags_view(old(diags)@) + ingest_diags(module@, dm, ign));
                                }
                            },
                            _ => {
                                proof {
                                    assert(false);
                                }
                            },
                        }
                    } else {
                        let td = Typedef { name: name.clone(), aliased: ty };
                        proof {
                            lemma_view_map_insert(old(self).typedefs.as_map(), name@, td);
                        }
                        self.typedefs.insert(name, td);
                        proof {
                            assert(self.sym().typedefs =~= ingest_step(s0, dm, ign).typedefs);
                            assert(diags_view(diags@) =~= diags_view(old(diags)@) + ingest_diags(module@, dm, ign));
                        }
                    }
                }
            },
        }
    }

    /// Builds a library from a classified declaration stream: each
    /// declaration is routed or dropped, and the prebuilt entries are
    /// inserted afterwards, unconditionally.
    pub fn load(
        decls: Vec<(String, Decl)>,
        _config: &Config,
        prebuilts: Vec<Prebuilt>,
        ignore: Vec<String>,
        diags: &mut Vec<Diag>,
    ) -> (r: Library)
        ensures
            r.wf(),
            r.sym() =~~= add_prebuilts(
                ingest_all(blank_sym(), decl_pairs_view(decls@), names_view(ignore@)),
                prebuilts_view(prebuilts@),
            ),
            diags_view(final(diags)@) =~= diags_view(old(diags)@)
                + ingest_all_diags(decl_pairs_view(decls@), names_view(ignore@)),
    {
        let ghost dv = decl_pairs_view(decls@);
        let ghost pv = prebuilts_view(prebuilts@);
        let ghost ign = names_view(ignore@);
        let ghost diags0 = diags@;
        let mut library = Library::blank();
        let mut rest = decls;
        let ghost mut i: int = 0;
        proof {
            assert(dv.take(0) =~= Seq::<(Seq<char>, DeclModel)>::empty());
            assert(decl_pairs_view(rest@) =~= dv.skip(0));
        }
        while rest.len() > 0
            invariant
                library.wf(),
                0 <= i,
                i + rest@.len() == dv.len(),
                decl_pairs_view(rest@) =~= dv.skip(i as int),
                library.sym() =~~= ingest_all(blank_sym(), dv.take(i as int), ign),
                ign == names_view(ignore@),
                diags_view(diags@) =~= diags_view(diags0) + ingest_all_diags(dv.take(i as int), ign),
            decreases rest@.len(),
        {
            let ghost r0 = rest@;
            let pair = rest.remove(0);
            proof {
                assert(pair == r0[0]);
                assert(decl_pairs_view(r0)[0] == dv.skip(i as int)[0]);
                assert((pair.0@, pair.1@) == dv[i as int]);
                assert(decl_pairs_view(rest@) =~= dv.skip(i + 1)) by {
                    assert forall|q: int| 0 <= q < rest@.len()
                        implies decl_pairs_view(rest@)[q] == dv.skip(i + 1)[q] by {
                        assert(rest@[q] == r0[q + 1]);
                        assert(decl_pairs_view(r0)[q + 1] == dv.skip(i as int)[q + 1]);
                        assert(dv.skip(i as int)[q + 1] == dv[i + 1 + q]);
                        assert(dv.skip(i + 1)[q] == dv[i + 1 + q]);
                    }
                }
            }
            library.ingest(&pair.0, pair.1, &ignore, diags);
            proof {
                assert(dv.take(i + 1) =~= dv.take(i as int).push(dv[i as int]));
                lemma_ingest_all_snoc(blank_sym(), dv.take(i as int), dv[i as int], ign);
                lemma_ingest_all_diags_snoc(dv.take(i as int), dv[i as int], ign);
                assert(library.sym() =~~= ingest_all(blank_sym(), dv.take(i + 1), ign));
                assert(diags_view(diags@) =~= diags_view(diags0) + ingest_all_diags(dv.take(i + 1), ign));
                i = i + 1;
            }
        }
        proof {
            assert(dv.take(i as int) =~= dv);
        }
        let ghost ingested = library.sym();
        let mut prest = prebuilts;
        let ghost mut j: int = 0;
        proof {
            assert(pv.take(0) =~= Seq::<PrebuiltModel>::empty());
            assert(prebuilts_view(prest@) =~= pv.skip(0));
        }
        while prest.len() > 0
            invariant
                library.wf(),
                0 <= j,
                j + prest@.len() == pv.len(),
                prebuilts_view(prest@) =~= pv.skip(j as int),
                library.sym() =~~= add_prebuilts(ingested, pv.take(j as int)),
            decreases prest@.len(),
        {
            let ghost p0 = prest@;
            let p = prest.remove(0);
            proof {
                assert(p == p0[0]);
                assert(prebuilts_view(p0)[0] == pv.skip(j as int)[0]);
                assert(p@ == pv[j as int]);
                assert(prebuilts_view(prest@) =~= pv.skip(j + 1)) by {
                    assert forall|q: int| 0 <= q < prest@.len()
                        implies prebuilts_view(prest@)[q] == pv.skip(j + 1)[q] by {
                        assert(prest@[q] == p0[q + 1]);
                        assert(prebuilts_view(p0)[q + 1] == pv.skip(j as int)[q + 1]);
                        assert(pv.skip(j as int)[q + 1] == pv[j + 1 + q]);
                        assert(pv.skip(j + 1)[q] == pv[j + 1 + q]);
                    }
                }
                lemma_view_map_insert(library.prebuilts.as_map(), p.name@, p);
            }
            let key = p.name.clone();
            let ghost before = library.sym();
            library.prebuilts.insert(key, p);
            proof {
                assert(pv.take(j + 1) =~= pv.take(j as int).push(pv[j as int]));
                lemma_add_prebuilts_snoc(ingested, pv.take(j as int), pv[j as int]);
                assert(library.sym().prebuilts =~= add_prebuilts(ingested, pv.take(j + 1)).prebuilts);
                assert(library.sym() =~~= add_prebuilts(ingested, pv.take(j + 1)));
                j = j + 1;
            }
        }
        proof {
            assert(pv.take(j as int) =~= pv);
        }
        library
    }
}



// ---------------------------------------------------------------------
// the dependency collector

/// The names of the entities collected so far, in order.
pub open spec fn out_names(out: Seq<PathValue>) -> Seq<Seq<char>> {
    Seq::new(out.len(), |i: int| model_name(out[i]@))
}

/// A well-formed accumulator: every collected entity is what its name
/// resolves to, and no name appears twice.
pub open spec fn out_ok(s: SymbolState, out: Seq<PathValue>) -> bool {
    &&& forall|i: int| 0 <= i < out.len()
        ==> resolve_model(s, out_names(out)[i]) == Option::Some(#[trigger] out[i]@)
    &&& forall|i: int, j: int| 0 <= i < j < out.len() ==> out_names(out)[i] != out_names(out)[j]
}

/// Every recorded name resolves to an entity.
pub open spec fn marks_resolvable(s: SymbolState, marks: Seq<String>) -> bool {
    forall|n: Seq<char>| #[trigger] names_view(marks).contains(n) ==> resolve_model(s, n) is Some
}

/// Every resolvable name the entity refers to stands in `outn` or in
/// `extra`: the list is closed under references, up to names whose visit
/// is still under way.
pub open spec fn deps_present(
    s: SymbolState,
    v: PathValueModel,
    outn: Seq<Seq<char>>,
    extra: Seq<Seq<char>>,
) -> bool {
    forall|n: Seq<char>|
        #[trigger] model_dep_names(v).contains(n) && resolve_model(s, n) is Some
            ==> outn.contains(n) || extra.contains(n)
}

proof fn lemma_deps_present_weaken(
    s: SymbolState,
    v: PathValueModel,
    out1: Seq<Seq<char>>,
    ex1: Seq<Seq<char>>,
    out2: Seq<Seq<char>>,
    ex2: Seq<Seq<char>>,
)
    requires
        deps_present(s, v, out1, ex1),
        forall|n: Seq<char>| #[trigger] out1.contains(n) ==> out2.contains(n),
        forall|n: Seq<char>| #[trigger] ex1.contains(n) ==> out2.contains(n) || ex2.contains(n),
    ensures
        deps_present(s, v, out2, ex2),
{
}

/// One step of the reference graph: the names the collector follows out
/// of `m` — what the resolved entity references and, for a
/// specialization, also its template.
pub open spec fn edge_names(s: SymbolState, m: Seq<char>) -> Seq<Seq<char>> {
    match resolve_model(s, m) {
        Option::Some(v) => {
            if v is Specialization {
                seq![v->Specialization_0.aliased] + model_dep_names(v)
            } else {
                model_dep_names(v)
            }
        },
        Option::None => Seq::empty(),
    }
}

/// `n` lies within `fuel` reference steps of the root names.
pub open spec fn reaches(s: SymbolState, roots: Seq<Seq<char>>, n: Seq<char>, fuel: nat) -> bool
    decreases fuel,
{
    roots.contains(n) || (fuel > 0 && exists|m: Seq<char>|
        reaches(s, roots, m, (fuel - 1) as nat) && #[trigger] edge_names(s, m).contains(n))
}

/// `n` is transitively referenced from the root names.
pub open spec fn reachable(s: SymbolState, roots: Seq<Seq<char>>, n: Seq<char>) -> bool {
    exists|fuel: nat| reaches(s, roots, n, fuel)
}

pub proof fn lemma_reachable_root(s: SymbolState, roots: Seq<Seq<char>>, n: Seq<char>)
    requires
        roots.contains(n),
    ensures
        reachable(s, roots, n),
{
    assert(reaches(s, roots, n, 0));
}

pub proof fn lemma_reachable_step(s: SymbolState, roots: Seq<Seq<char>>, m: Seq<char>, n: Seq<char>)
    requires
        reachable(s, roots, m),
        edge_names(s, m).contains(n),
    ensures
        reachable(s, roots, n),
{
    let fuel = choose|fuel: nat| reaches(s, roots, m, fuel);
    assert(reaches(s, roots, n, fuel + 1));
}

proof fn lemma_reaches_lift(s: SymbolState, r1: Seq<Seq<char>>, r2: Seq<Seq<char>>, n: Seq<char>, fuel: nat)
    requires
        reaches(s, r1, n, fuel),
        forall|m: Seq<char>| #[trigger] r1.contains(m) ==> reachable(s, r2, m),
    ensures
        reachable(s, r2, n),
    decreases fuel,
{
    if r1.contains(n) {
    } else {
        let m = choose|m: Seq<char>|
            reaches(s, r1, m, (fuel - 1) as nat) && #[trigger] edge_names(s, m).contains(n);
        lemma_reaches_lift(s, r1, r2, m, (fuel - 1) as nat);
        lemma_reachable_step(s, r2, m, n);
    }
}

/// Reachability composes: what is reachable from roots that are all
/// themselves reachable is reachable.
pub proof fn lemma_reachable_lift(s: SymbolState, r1: Seq<Seq<char>>, r2: Seq<Seq<char>>, n: Seq<char>)
    requires
        reachable(s, r1, n),
        forall|m: Seq<char>| #[trigger] r1.contains(m) ==> reachable(s, r2, m),
    ensures
        reachable(s, r2, n),
{
    let fuel = choose|fuel: nat| reaches(s, r1, n, fuel);
    lemma_reaches_lift(s, r1, r2, n, fuel);
}

/// The singleton root reaches itself and, in one step, every name on
/// its edges.
proof fn lemma_reachable_self(s: SymbolState, p: Seq<char>)
    ensures
        reachable(s, seq![p], p),
{
    assert(seq![p][0] == p);
    assert(seq![p].contains(p));
    lemma_reachable_root(s, seq![p], p);
}

/// The names not yet marked: the collector's termination measure.
pub open spec fn avail(s: SymbolState, marked: Seq<Seq<char>>) -> Set<Seq<char>> {
    sym_names(s).difference(marked.to_set())
}

proof fn lemma_avail_finite(s: SymbolState, marked: Seq<Seq<char>>)
    requires
        sym_names(s).finite(),
    ensures
        avail(s, marked).len() <= sym_names(s).len(),
        avail(s, marked).finite(),
{
    broadcast use vstd::set::group_set_axioms;

    vstd::set_lib::lemma_len_subset(avail(s, marked), sym_names(s));
}

proof fn lemma_avail_shrinks(s: SymbolState, marked: Seq<Seq<char>>, n: Seq<char>)
    requires
        sym_names(s).finite(),
        sym_names(s).contains(n),
        !marked.contains(n),
    ensures
        avail(s, marked.push(n)).len() < avail(s, marked).len(),
        avail(s, marked.push(n)).finite(),
{
    broadcast use vstd::set::group_set_axioms;

    lemma_avail_finite(s, marked);
    lemma_avail_finite(s, marked.push(n));
    assert forall|m: Seq<char>| #[trigger] marked.push(n).contains(m)
        implies marked.contains(m) || m == n by {
        let w = choose|w: int| 0 <= w < marked.push(n).len() && marked.push(n)[w] == m;
        if w < marked.len() {
            assert(marked[w] == m);
        }
    }
    assert forall|m: Seq<char>| #[trigger] marked.contains(m)
        implies marked.push(n).contains(m) by {
        let w = choose|w: int| 0 <= w < marked.len() && marked[w] == m;
        assert(marked.push(n)[w] == m);
    }
    assert(marked.push(n)[marked.len() as int] == n);
    assert(marked.push(n).contains(n));
    assert(avail(s, marked.push(n)) =~= avail(s, marked).remove(n));
    assert(avail(s, marked).contains(n));
    vstd::set_lib::lemma_len_subset(avail(s, marked).remove(n), avail(s, marked));
    assert(avail(s, marked).remove(n).len() < avail(s, marked).len()) by {
        assert(avail(s, marked).remove(n).insert(n) =~= avail(s, marked));
    }
}

proof fn lemma_avail_monotone(s: SymbolState, m1: Seq<Seq<char>>, m2: Seq<Seq<char>>)
    requires
        sym_names(s).finite(),
        forall|n: Seq<char>| #[trigger] m1.contains(n) ==> m2.contains(n),
    ensures
        avail(s, m2).len() <= avail(s, m1).len(),
{
    broadcast use vstd::set::group_set_axioms;

    lemma_avail_finite(s, m1);
    lemma_avail_finite(s, m2);
    assert(avail(s, m2).subset_of(avail(s, m1)));
    vstd::set_lib::lemma_len_subset(avail(s, m2), avail(s, m1));
}

/// A name the resolver answers for stands in the symbol table.
proof fn lemma_resolvable_in_sym(s: SymbolState, n: Seq<char>)
    requires
        resolve_model(s, n) is Some,
    ensures
        sym_names(s).contains(n),
{
    broadcast use vstd::set::group_set_axioms;
}

/// A name present in a prefix stays present in the longer list.
proof fn lemma_out_contains_monotone(a: Seq<PathValue>, b: Seq<PathValue>, n: Seq<char>)
    requires
        b.len() >= a.len(),
        b.take(a.len() as int) == a,
        out_names(a).contains(n),
    ensures
        out_names(b).contains(n),
{
    let w = choose|w: int| 0 <= w < a.len() && out_names(a)[w] == n;
    assert(b.take(a.len() as int)[w] == b[w]);
    assert(out_names(b)[w] == n);
}

/// Whether an entity with this name was collected already.
pub fn contains_pv_name(out: &Vec<PathValue>, n: &String) -> (r: bool)
    ensures
        r == out_names(out@).contains(n@),
{
    let len = out.len();
    let mut i: usize = 0;
    while i < len
        invariant
            i <= len,
            len == out@.len(),
            forall|j: int| 0 <= j < i ==> out_names(out@)[j] != n@,
        decreases len - i,
    {
        if *out[i].name() == *n {
            proof {
                assert(out_names(out@)[i as int] == n@);
            }
            return true;
        }
        i = i + 1;
    }
    proof {
        if out_names(out@).contains(n@) {
            let j = choose|j: int| 0 <= j < out_names(out@).len() && out_names(out@)[j] == n@;
            assert(false);
        }
    }
    false
}

impl Library {
    /// Every name the symbol table holds forms a finite set.
    proof fn lemma_sym_names_finite(&self)
        ensures
            sym_names(self.sym()).finite(),
    {
        broadcast use vstd::seq_lib::seq_to_set_is_finite;
        broadcast use vstd::set::group_set_axioms;

        assert(self.sym().prebuilts.dom() =~= self.prebuilts.keys().to_set());
        assert(self.sym().enums.dom() =~= self.enums.keys().to_set());
        assert(self.sym().structs.dom() =~= self.structs.keys().to_set());
        assert(self.sym().opaque_structs.dom() =~= self.opaque_structs.keys().to_set());
        assert(self.sym().typedefs.dom() =~= self.typedefs.keys().to_set());
        assert(self.sym().specializations.dom() =~= self.specializations.keys().to_set());
        assert(self.sym().functions.dom() =~= self.functions.keys().to_set());
    }

    /// Collects the dependencies of `p` and then `p`'s entity itself,
    /// depth first, deduplicated by name. A name already being visited
    /// (a cycle) or already collected is not revisited; its entity is
    /// appended by the visit already under way.
    fn collect_rec(
        &self,
        p: &PathRef,
        out: &mut Vec<PathValue>,
        started: &mut Vec<String>,
        walked: &mut Vec<String>,
        diags: &mut Vec<Diag>,
    )
        requires
            self.wf(),
            out_ok(self.sym(), old(out)@),
            marks_resolvable(self.sym(), old(started)@),
            marks_resolvable(self.sym(), old(walked)@),
        ensures
            out_ok(self.sym(), final(out)@),
            marks_resolvable(self.sym(), final(started)@),
            marks_resolvable(self.sym(), final(walked)@),
            final(out)@.len() >= old(out)@.len(),
            final(out)@.take(old(out)@.len() as int) == old(out)@,
            forall|n: Seq<char>| #[trigger] names_view(old(started)@).contains(n)
                ==> names_view(final(started)@).contains(n),
            forall|n: Seq<char>| #[trigger] names_view(old(walked)@).contains(n)
                ==> names_view(final(walked)@).contains(n),
            resolve_model(self.sym(), p@) is Some
                ==> out_names(final(out)@).contains(p@)
                    || names_view(old(started)@).contains(p@),
            resolve_model(self.sym(), p@) is None ==> warned(final(diags)@, p@)
                && final(out)@ == old(out)@,
            out_names(old(out)@).contains(p@) ==> final(out)@ == old(out)@
                && final(started)@ == old(started)@ && final(walked)@ == old(walked)@
                && final(diags)@ == old(diags)@,
            names_view(old(started)@).contains(p@) ==> final(out)@ == old(out)@
                && final(started)@ == old(started)@ && final(walked)@ == old(walked)@
                && final(diags)@ == old(diags)@,
            resolve_model(self.sym(), p@) is Some && !out_names(old(out)@).contains(p@)
                && !names_view(old(started)@).contains(p@)
                ==> final(out)@.len() > old(out)@.len()
                    && final(out)@.last()@ == resolve_model(self.sym(), p@)->Some_0,
            forall|idx: int|
                old(out)@.len() <= idx < final(out)@.len()
                    ==> deps_present(self.sym(), #[trigger] final(out)@[idx]@,
                            out_names(final(out)@), names_view(old(started)@))
                        && !names_view(old(started)@).contains(model_name(final(out)@[idx]@)),
            forall|idx: int|
                old(out)@.len() <= idx < final(out)@.len()
                    ==> reachable(self.sym(), seq![p@], model_name(#[trigger] final(out)@[idx]@)),
            forall|n: Seq<char>| #[trigger] names_view(final(started)@).contains(n)
                ==> names_view(old(started)@).contains(n) || out_names(final(out)@).contains(n),
            final(diags)@.len() >= old(diags)@.len(),
            final(diags)@.take(old(diags)@.len() as int) == old(diags)@,
        decreases avail(self.sym(), names_view(old(started)@)).len() + avail(self.sym(), names_view(old(walked)@)).len(), 0int,
    {
        let ghost s = self.sym();
        if contains_pv_name(out, p) {
            proof {
                let w = choose|w: int| 0 <= w < out@.len() && out_names(out@)[w] == p@;
                assert(resolve_model(s, out_names(out@)[w]) is Some);
            }
            return;
        }
        if contains_name_vec(started, p) {
            return;
        }
        match self.resolve_path(p) {
            Option::None => {
                diags.push(Diag::UnresolvedName { subject: p.clone() });
                proof {
                    assert(diags@[diags@.len() - 1]@ == (DiagModel::UnresolvedName { subject: p@ }));
                    assert(warned(diags@, p@));
                    assert(diags@.take(old(diags)@.len() as int) == old(diags)@);
                }
            },
            Option::Some(v) => {
                proof {
                    lemma_resolvable_in_sym(s, p@);
                    self.lemma_sym_names_finite();
                    lemma_avail_shrinks(s, names_view(started@), p@);
                }
                let ghost started0 = started@;
                started.push(p.clone());
                let ghost started1 = started@;
                proof {
                    assert(names_view(started1) =~= names_view(started0).push(p@));
                    assert forall|n: Seq<char>| #[trigger] names_view(started0).contains(n)
                        implies names_view(started1).contains(n) by {
                        let w = choose|w: int| 0 <= w < names_view(started0).len() && names_view(started0)[w] == n;
                        assert(names_view(started1)[w] == n);
                    }
                    assert forall|n: Seq<char>| #[trigger] names_view(started1).contains(n)
                        implies resolve_model(s, n) is Some by {
                        let w = choose|w: int| 0 <= w < names_view(started1).len() && names_view(started1)[w] == n;
                        if w < started0.len() {
                            assert(names_view(started0)[w] == n);
                            assert(names_view(started0).contains(n));
                        } else {
                            assert(n == p@);
                        }
                    }
                }
                let ghost out1 = out@;
                match &v {
                    PathValue::Specialization(sp) => {
                        self.collect_deps_rec(&sp.aliased, out, started, walked, diags);
                        let ghost out_d = out@;
                        let ghost started_d = started@;
                        let mut names: Vec<String> = Vec::new();
                        sp.push_dep_names(&mut names);
                        proof {
                            lemma_avail_monotone(s, names_view(started1), names_view(started@));
                            lemma_avail_monotone(s, names_view(old(walked)@), names_view(walked@));
                        }
                        let ghost names_v = names@;
                        self.collect_names(&names, out, started, walked, diags);
                        proof {
                            assert forall|n: Seq<char>| #[trigger] names_view(started@).contains(n)
                                implies names_view(started1).contains(n) || out_names(out@).contains(n) by {
                                if names_view(started_d).contains(n) {
                                    if !names_view(started1).contains(n) {
                                        lemma_out_contains_monotone(out_d, out@, n);
                                    }
                                }
                            }
                            assert(names_view(names_v) =~= model_dep_names(v@));
                            assert(out@.take(out_d.len() as int) =~= out_d);
                            assert forall|n: Seq<char>| #[trigger] out_names(out_d).contains(n)
                                implies out_names(out@).contains(n) by {
                                lemma_out_contains_monotone(out_d, out@, n);
                            }
                            // the entity's own references are settled
                            assert forall|n: Seq<char>|
                                #[trigger] model_dep_names(v@).contains(n) && resolve_model(s, n) is Some
                                implies out_names(out@).contains(n) || names_view(started1).contains(n) by {
                                let q = choose|q: int| 0 <= q < names_view(names_v).len()
                                    && names_view(names_v)[q] == n;
                                if names_view(started_d).contains(n) && !names_view(started1).contains(n) {
                                    lemma_out_contains_monotone(out_d, out@, n);
                                }
                            }
                            assert(deps_present(s, v@, out_names(out@), names_view(started1)));
                            // everything appended so far is closed and fresh
                            assert forall|idx: int| out1.len() <= idx < out@.len()
                                implies deps_present(s, #[trigger] out@[idx]@, out_names(out@), names_view(started1))
                                    && !names_view(started1).contains(model_name(out@[idx]@)) by {
                                if idx < out_d.len() {
                                    assert(out@[idx] == out_d[idx]) by {
                                        assert(out@.take(out_d.len() as int)[idx] == out@[idx]);
                                    }
                                    lemma_deps_present_weaken(s, out@[idx]@, out_names(out_d), names_view(started1), out_names(out@), names_view(started1));
                                } else {
                                    assert forall|n: Seq<char>| #[trigger] names_view(started_d).contains(n)
                                        implies out_names(out@).contains(n) || names_view(started1).contains(n) by {
                                        if !names_view(started1).contains(n) {
                                            lemma_out_contains_monotone(out_d, out@, n);
                                        }
                                    }
                                    lemma_deps_present_weaken(s, out@[idx]@, out_names(out@), names_view(started_d), out_names(out@), names_view(started1));
                                    assert(names_view(started1).contains(model_name(out@[idx]@))
                                        ==> names_view(started_d).contains(model_name(out@[idx]@)));
                                }
                            }
                            // everything appended is reached from `p`
                            lemma_reachable_self(s, p@);
                            assert((seq![v@->Specialization_0.aliased] + model_dep_names(v@))[0] == sp.aliased@);
                            assert(edge_names(s, p@).contains(sp.aliased@));
                            lemma_reachable_step(s, seq![p@], p@, sp.aliased@);
                            assert forall|q: Seq<char>| #[trigger] names_view(names_v).contains(q)
                                implies reachable(s, seq![p@], q) by {
                                let w = choose|w: int| 0 <= w < names_view(names_v).len()
                                    && names_view(names_v)[w] == q;
                                assert(model_dep_names(v@)[w] == q);
                                assert((seq![v@->Specialization_0.aliased] + model_dep_names(v@))[1 + w] == q);
                                assert(edge_names(s, p@).contains(q));
                                lemma_reachable_step(s, seq![p@], p@, q);
                            }
                            assert forall|idx: int| out1.len() <= idx < out@.len()
                                implies reachable(s, seq![p@], model_name(#[trigger] out@[idx]@)) by {
                                if idx < out_d.len() {
                                    assert(out@[idx] == out_d[idx]);
                                    assert forall|m: Seq<char>| #[trigger] (seq![sp.aliased@]).contains(m)
                                        implies reachable(s, seq![p@], m) by {
                                        assert((seq![sp.aliased@])[0] == sp.aliased@);
                                    }
                                    lemma_reachable_lift(s, seq![sp.aliased@], seq![p@], model_name(out@[idx]@));
                                } else {
                                    lemma_reachable_lift(s, names_view(names_v), seq![p@], model_name(out@[idx]@));
                                }
                            }
                        }
                    },
                    PathValue::Struct(st) => {
                        let mut names: Vec<String> = Vec::new();
                        st.push_dep_names(&mut names);
                        proof {
                            lemma_avail_monotone(s, names_view(started1), names_view(started@));
                            lemma_avail_monotone(s, names_view(old(walked)@), names_view(walked@));
                        }
                        let ghost names_v = names@;
                        self.collect_names(&names, out, started, walked, diags);
                        proof {
                            assert(names_view(names_v) =~= model_dep_names(v@));
                            assert forall|n: Seq<char>|
                                #[trigger] model_dep_names(v@).contains(n) && resolve_model(s, n) is Some
                                implies out_names(out@).contains(n) || names_view(started1).contains(n) by {
                                let q = choose|q: int| 0 <= q < names_view(names_v).len()
                                    && names_view(names_v)[q] == n;
                            }
                            assert(deps_present(s, v@, out_names(out@), names_view(started1)));
                            lemma_reachable_self(s, p@);
                            assert(edge_names(s, p@) == model_dep_names(v@));
                            assert forall|q: Seq<char>| #[trigger] names_view(names_v).contains(q)
                                implies reachable(s, seq![p@], q) by {
                                lemma_reachable_step(s, seq![p@], p@, q);
                            }
                            assert forall|idx: int| out1.len() <= idx < out@.len()
                                implies reachable(s, seq![p@], model_name(#[trigger] out@[idx]@)) by {
                                lemma_reachable_lift(s, names_view(names_v), seq![p@], model_name(out@[idx]@));
                            }
                        }
                    },
                    PathValue::Typedef(td) => {
                        let mut names: Vec<String> = Vec::new();
                        td.push_dep_names(&mut names);
                        proof {
                            lemma_avail_monotone(s, names_view(started1), names_view(started@));
                            lemma_avail_monotone(s, names_view(old(walked)@), names_view(walked@));
                        }
                        let ghost names_v = names@;
                        self.collect_names(&names, out, started, walked, diags);
                        proof {
                            assert(names_view(names_v) =~= model_dep_names(v@));
                            assert forall|n: Seq<char>|
                                #[trigger] model_dep_names(v@).contains(n) && resolve_model(s, n) is Some
                                implies out_names(out@).contains(n) || names_view(started1).contains(n) by {
                                let q = choose|q: int| 0 <= q < names_view(names_v).len()
                                    && names_view(names_v)[q] == n;
                            }
                            assert(deps_present(s, v@, out_names(out@), names_view(started1)));
                            lemma_reachable_self(s, p@);
                            assert(edge_names(s, p@) == model_dep_names(v@));
                            assert forall|q: Seq<char>| #[trigger] names_view(names_v).contains(q)
                                implies reachable(s, seq![p@], q) by {
                                lemma_reachable_step(s, seq![p@], p@, q);
                            }
                            assert forall|idx: int| out1.len() <= idx < out@.len()
                                implies reachable(s, seq![p@], model_name(#[trigger] out@[idx]@)) by {
                                lemma_reachable_lift(s, names_view(names_v), seq![p@], model_name(out@[idx]@));
                            }
                        }
                    },
                    _ => {
                        proof {
                            assert(model_dep_names(v@).len() == 0);
                            assert(deps_present(s, v@, out_names(out@), names_view(started1)));
                        }
                    },
                }
                let ghost out2 = out@;
                let ghost started2 = started@;
                proof {
                    // the combined closure fact over everything appended
                    assert(deps_present(s, v@, out_names(out2), names_view(started1)));
                    assert forall|idx: int| out1.len() <= idx < out2.len()
                        implies deps_present(s, #[trigger] out2[idx]@, out_names(out2), names_view(started1))
                            && !names_view(started1).contains(model_name(out2[idx]@)) by {}
                    // `p` is still absent: it was absent at entry, and every
                    // appended name avoids the set being visited, which
                    // holds `p`.
                    assert(names_view(started1)[started0.len() as int] == p@);
                    assert(names_view(started1).contains(p@));
                    assert(!out_names(out2).contains(p@)) by {
                        if out_names(out2).contains(p@) {
                            let w = choose|w: int| 0 <= w < out2.len() && out_names(out2)[w] == p@;
                            if w < out1.len() {
                                assert(out2.take(out1.len() as int) == out1);
                                assert(out2.take(out1.len() as int)[w] == out2[w]);
                                assert(out_names(out1)[w] == p@);
                            } else {
                                assert(!names_view(started1).contains(model_name(out2[w]@)));
                            }
                        }
                    }
                }
                if !contains_pv_name(out, p) {
                    let ghost out0 = out@;
                    out.push(v);
                    proof {
                        assert(out@.take(old(out)@.len() as int) =~= out0.take(old(out)@.len() as int));
                        assert(out_names(out@)[out0.len() as int] == p@);
                        assert forall|i: int, j: int| 0 <= i < j < out@.len()
                            implies out_names(out@)[i] != out_names(out@)[j] by {
                            if j == out0.len() {
                                assert(out_names(out0)[i] == out_names(out@)[i]);
                                assert(!out_names(out0).contains(p@));
                            } else {
                                assert(out_names(out0)[i] == out_names(out@)[i]);
                                assert(out_names(out0)[j] == out_names(out@)[j]);
                            }
                        }
                        assert(out_names(out@).contains(p@));
                    }
                } else {
                    proof {
                        assert(false);
                    }
                }
                proof {
                    assert(out_names(out@).contains(p@));
                    assert(out@ == out2.push(v));
                    assert(out@.last() == v);
                    lemma_out_names_grow(out2, out@);
                    // the final closure-and-freshness clause
                    assert forall|idx: int| out1.len() <= idx < out@.len()
                        implies deps_present(s, #[trigger] out@[idx]@, out_names(out@), names_view(started0))
                            && !names_view(started0).contains(model_name(out@[idx]@)) by {
                        let dp = if idx < out2.len() { out2[idx]@ } else { v@ };
                        if idx < out2.len() {
                            assert(out@[idx] == out2[idx]);
                        }
                        assert(deps_present(s, dp, out_names(out2), names_view(started1)));
                        assert forall|n: Seq<char>| #[trigger] names_view(started1).contains(n)
                            implies out_names(out@).contains(n) || names_view(started0).contains(n) by {
                            let w = choose|w: int| 0 <= w < names_view(started1).len()
                                && names_view(started1)[w] == n;
                            if w < started0.len() {
                                assert(names_view(started0)[w] == n);
                            } else {
                                assert(n == p@);
                            }
                        }
                        lemma_deps_present_weaken(s, dp, out_names(out2), names_view(started1), out_names(out@), names_view(started0));
                        if idx < out2.len() {
                            assert(!names_view(started1).contains(model_name(dp)));
                            assert(names_view(started0).contains(model_name(dp))
                                ==> names_view(started1).contains(model_name(dp)));
                        } else {
                            assert(model_name(dp) == p@);
                        }
                    }
                    lemma_reachable_self(s, p@);
                    assert forall|idx: int| out1.len() <= idx < out@.len()
                        implies reachable(s, seq![p@], model_name(#[trigger] out@[idx]@)) by {
                        if idx < out2.len() {
                            assert(out@[idx] == out2[idx]);
                        } else {
                            assert(model_name(out@[idx]@) == p@);
                        }
                    }
                    assert forall|n: Seq<char>| #[trigger] names_view(started@).contains(n)
                        implies names_view(old(started)@).contains(n) || out_names(out@).contains(n) by {
                        assert(names_view(started2).contains(n));
                        if names_view(started1).contains(n) {
                            let w = choose|w: int| 0 <= w < names_view(started1).len()
                                && names_view(started1)[w] == n;
                            if w < started0.len() {
                                assert(names_view(started0)[w] == n);
                            } else {
                                assert(n == p@);
                            }
                        } else {
                            assert(out@.take(out2.len() as int) =~= out2);
                            lemma_out_contains_monotone(out2, out@, n);
                        }
                    }
                }
            },
        }
    }

    /// Collects, for each name in the list in order, its dependencies
    /// and its entity.
    fn collect_names(
        &self,
        names: &Vec<String>,
        out: &mut Vec<PathValue>,
        started: &mut Vec<String>,
        walked: &mut Vec<String>,
        diags: &mut Vec<Diag>,
    )
        requires
            self.wf(),
            out_ok(self.sym(), old(out)@),
            marks_resolvable(self.sym(), old(started)@),
            marks_resolvable(self.sym(), old(walked)@),
        ensures
            out_ok(self.sym(), final(out)@),
            marks_resolvable(self.sym(), final(started)@),
            marks_resolvable(self.sym(), final(walked)@),
            final(out)@.len() >= old(out)@.len(),
            final(out)@.take(old(out)@.len() as int) == old(out)@,
            forall|n: Seq<char>| #[trigger] names_view(old(started)@).contains(n)
                ==> names_view(final(started)@).contains(n),
            forall|n: Seq<char>| #[trigger] names_view(old(walked)@).contains(n)
                ==> names_view(final(walked)@).contains(n),
            final(diags)@.len() >= old(diags)@.len(),
            final(diags)@.take(old(diags)@.len() as int) == old(diags)@,
            forall|q: int| 0 <= q < names@.len()
                && resolve_model(self.sym(), #[trigger] names_view(names@)[q]) is Some
                ==> out_names(final(out)@).contains(names_view(names@)[q])
                    || names_view(old(started)@).contains(names_view(names@)[q]),
            forall|n: Seq<char>| #[trigger] names_view(final(started)@).contains(n)
                ==> names_view(old(started)@).contains(n) || out_names(final(out)@).contains(n),
            forall|idx: int|
                old(out)@.len() <= idx < final(out)@.len()
                    ==> deps_present(self.sym(), #[trigger] final(out)@[idx]@,
                            out_names(final(out)@), names_view(old(started)@))
                        && !names_view(old(started)@).contains(model_name(final(out)@[idx]@)),
            forall|idx: int|
                old(out)@.len() <= idx < final(out)@.len()
                    ==> reachable(self.sym(), names_view(names@), model_name(#[trigger] final(out)@[idx]@)),
            names@.len() == 0 ==> final(out)@ == old(out)@ && final(diags)@ == old(diags)@,
        decreases avail(self.sym(), names_view(old(started)@)).len() + avail(self.sym(), names_view(old(walked)@)).len(), 1int,
    {
        let ghost s = self.sym();
        let len = names.len();
        let mut i: usize = 0;
        proof {
            self.lemma_sym_names_finite();
        }
        while i < len
            invariant
                self.wf(),
                s == self.sym(),
                i <= len,
                len == names@.len(),
                out_ok(s, out@),
                marks_resolvable(s, started@),
                marks_resolvable(s, walked@),
                out@.len() >= old(out)@.len(),
                out@.take(old(out)@.len() as int) == old(out)@,
                forall|n: Seq<char>| #[trigger] names_view(old(started)@).contains(n)
                    ==> names_view(started@).contains(n),
                forall|n: Seq<char>| #[trigger] names_view(old(walked)@).contains(n)
                    ==> names_view(walked@).contains(n),
                diags@.len() >= old(diags)@.len(),
                diags@.take(old(diags)@.len() as int) == old(diags)@,
                forall|q: int| 0 <= q < i
                    && resolve_model(s, #[trigger] names_view(names@)[q]) is Some
                    ==> out_names(out@).contains(names_view(names@)[q])
                        || names_view(old(started)@).contains(names_view(names@)[q]),
                forall|n: Seq<char>| #[trigger] names_view(started@).contains(n)
                    ==> names_view(old(started)@).contains(n) || out_names(out@).contains(n),
                forall|idx: int|
                    old(out)@.len() <= idx < out@.len()
                        ==> deps_present(s, #[trigger] out@[idx]@,
                                out_names(out@), names_view(old(started)@))
                            && !names_view(old(started)@).contains(model_name(out@[idx]@)),
                forall|idx: int|
                    old(out)@.len() <= idx < out@.len()
                        ==> reachable(s, names_view(names@), model_name(#[trigger] out@[idx]@)),
                i == 0 ==> out@ == old(out)@ && diags@ == old(diags)@,
            decreases len - i,
        {
            proof {
                self.lemma_sym_names_finite();
                lemma_avail_monotone(s, names_view(old(started)@), names_view(started@));
                lemma_avail_monotone(s, names_view(old(walked)@), names_view(walked@));
            }
            let ghost out_b = out@;
            let ghost started_b = started@;
            let ghost diags_b = diags@;
            self.collect_rec(&names[i], out, started, walked, diags);
            proof {
                assert(out@.take(old(out)@.len() as int) =~= out_b.take(old(out)@.len() as int));
                assert(diags@.take(old(diags)@.len() as int) =~= diags_b.take(old(diags)@.len() as int));
                assert(names_view(names@)[i as int] == names@[i as int]@);
                assert forall|n: Seq<char>| #[trigger] names_view(started@).contains(n)
                    implies names_view(old(started)@).contains(n) || out_names(out@).contains(n) by {
                    if names_view(started_b).contains(n) {
                        if !names_view(old(started)@).contains(n) {
                            lemma_out_contains_monotone(out_b, out@, n);
                        }
                    }
                }
                assert forall|q: int| 0 <= q < i + 1
                    && resolve_model(s, #[trigger] names_view(names@)[q]) is Some
                    implies out_names(out@).contains(names_view(names@)[q])
                        || names_view(old(started)@).contains(names_view(names@)[q]) by {
                    let m = names_view(names@)[q];
                    if q < i {
                        if out_names(out_b).contains(m) {
                            lemma_out_contains_monotone(out_b, out@, m);
                        }
                    } else {
                        if names_view(started_b).contains(m) && !names_view(old(started)@).contains(m) {
                            lemma_out_contains_monotone(out_b, out@, m);
                        }
                    }
                }
                assert(out@.take(out_b.len() as int) =~= out_b);
                assert forall|n: Seq<char>| #[trigger] out_names(out_b).contains(n)
                    implies out_names(out@).contains(n) by {
                    lemma_out_contains_monotone(out_b, out@, n);
                }
                assert forall|idx: int| old(out)@.len() <= idx < out@.len()
                    implies deps_present(s, #[trigger] out@[idx]@,
                            out_names(out@), names_view(old(started)@))
                        && !names_view(old(started)@).contains(model_name(out@[idx]@)) by {
                    if idx < out_b.len() {
                        assert(out@[idx] == out_b[idx]) by {
                            assert(out@.take(out_b.len() as int)[idx] == out@[idx]);
                        }
                        lemma_deps_present_weaken(s, out@[idx]@, out_names(out_b), names_view(old(started)@), out_names(out@), names_view(old(started)@));
                    } else {
                        assert forall|n: Seq<char>| #[trigger] names_view(started_b).contains(n)
                            implies out_names(out@).contains(n) || names_view(old(started)@).contains(n) by {
                            if !names_view(old(started)@).contains(n) {
                                lemma_out_contains_monotone(out_b, out@, n);
                            }
                        }
                        lemma_deps_present_weaken(s, out@[idx]@, out_names(out@), names_view(started_b), out_names(out@), names_view(old(started)@));
                        assert(names_view(old(started)@).contains(model_name(out@[idx]@))
                            ==> names_view(started_b).contains(model_name(out@[idx]@)));
                    }
                }
                assert(names_view(names@).contains(names@[i as int]@)) by {
                    assert(names_view(names@)[i as int] == names@[i as int]@);
                }
                lemma_reachable_root(s, names_view(names@), names@[i as int]@);
                assert forall|idx: int| old(out)@.len() <= idx < out@.len()
                    implies reachable(s, names_view(names@), model_name(#[trigger] out@[idx]@)) by {
                    if idx < out_b.len() {
                        assert(out@[idx] == out_b[idx]);
                    } else {
                        assert forall|m: Seq<char>| #[trigger] (seq![names@[i as int]@]).contains(m)
                            implies reachable(s, names_view(names@), m) by {
                            assert((seq![names@[i as int]@])[0] == names@[i as int]@);
                        }
                        lemma_reachable_lift(s, seq![names@[i as int]@], names_view(names@), model_name(out@[idx]@));
                    }
                }
            }
            i = i + 1;
        }
    }

    /// Collects the dependencies of `p` without appending `p`'s own
    /// entity: how a specialization pulls in what its template needs
    /// while the template itself stays out of the output.
    fn collect_deps_rec(
        &self,
        p: &PathRef,
        out: &mut Vec<PathValue>,
        started: &mut Vec<String>,
        walked: &mut Vec<String>,
        diags: &mut Vec<Diag>,
    )
        requires
            self.wf(),
            out_ok(self.sym(), old(out)@),
            marks_resolvable(self.sym(), old(started)@),
            marks_resolvable(self.sym(), old(walked)@),
        ensures
            out_ok(self.sym(), final(out)@),
            marks_resolvable(self.sym(), final(started)@),
            marks_resolvable(self.sym(), final(walked)@),
            final(out)@.len() >= old(out)@.len(),
            final(out)@.take(old(out)@.len() as int) == old(out)@,
            forall|n: Seq<char>| #[trigger] names_view(old(started)@).contains(n)
                ==> names_view(final(started)@).contains(n),
            forall|n: Seq<char>| #[trigger] names_view(old(walked)@).contains(n)
                ==> names_view(final(walked)@).contains(n),
            final(diags)@.len() >= old(diags)@.len(),
            final(diags)@.take(old(diags)@.len() as int) == old(diags)@,
            forall|n: Seq<char>| #[trigger] names_view(final(started)@).contains(n)
                ==> names_view(old(started)@).contains(n) || out_names(final(out)@).contains(n),
            resolve_model(self.sym(), p@) is None ==> warned(final(diags)@, p@)
                && final(out)@ == old(out)@,
            names_view(old(walked)@).contains(p@) ==> final(out)@ == old(out)@
                && final(started)@ == old(started)@ && final(walked)@ == old(walked)@
                && final(diags)@ == old(diags)@,
            resolve_model(self.sym(), p@) is Some
                && !(resolve_model(self.sym(), p@)->Some_0 is Struct)
                && !(resolve_model(self.sym(), p@)->Some_0 is Typedef)
                && !(resolve_model(self.sym(), p@)->Some_0 is Specialization)
                ==> final(out)@ == old(out)@,
            resolve_model(self.sym(), p@) is Some && !names_view(old(walked)@).contains(p@)
                ==> deps_present(self.sym(), resolve_model(self.sym(), p@)->Some_0,
                        out_names(final(out)@), names_view(old(started)@)),
            forall|idx: int|
                old(out)@.len() <= idx < final(out)@.len()
                    ==> deps_present(self.sym(), #[trigger] final(out)@[idx]@,
                            out_names(final(out)@), names_view(old(started)@))
                        && !names_view(old(started)@).contains(model_name(final(out)@[idx]@)),
            forall|idx: int|
                old(out)@.len() <= idx < final(out)@.len()
                    ==> reachable(self.sym(), seq![p@], model_name(#[trigger] final(out)@[idx]@)),
        decreases avail(self.sym(), names_view(old(started)@)).len() + avail(self.sym(), names_view(old(walked)@)).len(), 0int,
    {
        let ghost s = self.sym();
        if contains_name_vec(walked, p) {
            proof {
                assert(names_view(old(walked)@).contains(p@));
                assert(resolve_model(s, p@) is Some);
            }
            return;
        }
        match self.resolve_path(p) {
            Option::None => {
                diags.push(Diag::UnresolvedName { subject: p.clone() });
                proof {
                    assert(diags@[diags@.len() - 1]@ == (DiagModel::UnresolvedName { subject: p@ }));
                    assert(warned(diags@, p@));
                    assert(diags@.take(old(diags)@.len() as int) == old(diags)@);
                }
            },
            Option::Some(v) => {
                proof {
                    lemma_resolvable_in_sym(s, p@);
                    self.lemma_sym_names_finite();
                    lemma_avail_shrinks(s, names_view(walked@), p@);
                }
                let ghost walked0 = walked@;
                walked.push(p.clone());
                let ghost walked1 = walked@;
                proof {
                    assert(names_view(walked1) =~= names_view(walked0).push(p@));
                    assert forall|n: Seq<char>| #[trigger] names_view(walked0).contains(n)
                        implies names_view(walked1).contains(n) by {
                        let w = choose|w: int| 0 <= w < names_view(walked0).len() && names_view(walked0)[w] == n;
                        assert(names_view(walked1)[w] == n);
                    }
                    assert forall|n: Seq<char>| #[trigger] names_view(walked1).contains(n)
                        implies resolve_model(s, n) is Some by {
                        let w = choose|w: int| 0 <= w < names_view(walked1).len() && names_view(walked1)[w] == n;
                        if w < walked0.len() {
                            assert(names_view(walked0)[w] == n);
                            assert(names_view(walked0).contains(n));
                        } else {
                            assert(n == p@);
                        }
                    }
                }
                let ghost out1 = out@;
                match &v {
                    PathValue::Specialization(sp) => {
                        self.collect_deps_rec(&sp.aliased, out, started, walked, diags);
                        let ghost out_d = out@;
                        let ghost started_d = started@;
                        let mut names: Vec<String> = Vec::new();
                        sp.push_dep_names(&mut names);
                        proof {
                            lemma_avail_monotone(s, names_view(walked1), names_view(walked@));
                            lemma_avail_monotone(s, names_view(old(started)@), names_view(started@));
                        }
                        let ghost names_v = names@;
                        self.collect_names(&names, out, started, walked, diags);
                        proof {
                            assert(names_view(names_v) =~= model_dep_names(v@));
                            assert(out@.take(out_d.len() as int) =~= out_d);
                            assert forall|n: Seq<char>| #[trigger] out_names(out_d).contains(n)
                                implies out_names(out@).contains(n) by {
                                lemma_out_contains_monotone(out_d, out@, n);
                            }
                            assert forall|n: Seq<char>|
                                #[trigger] model_dep_names(v@).contains(n) && resolve_model(s, n) is Some
                                implies out_names(out@).contains(n) || names_view(old(started)@).contains(n) by {
                                let q = choose|q: int| 0 <= q < names_view(names_v).len()
                                    && names_view(names_v)[q] == n;
                                if names_view(started_d).contains(n) && !names_view(old(started)@).contains(n) {
                                    lemma_out_contains_monotone(out_d, out@, n);
                                }
                            }
                            assert(deps_present(s, v@, out_names(out@), names_view(old(started)@)));
                            assert forall|idx: int| out1.len() <= idx < out@.len()
                                implies deps_present(s, #[trigger] out@[idx]@, out_names(out@), names_view(old(started)@))
                                    && !names_view(old(started)@).contains(model_name(out@[idx]@)) by {
                                if idx < out_d.len() {
                                    assert(out@[idx] == out_d[idx]) by {
                                        assert(out@.take(out_d.len() as int)[idx] == out@[idx]);
                                    }
                                    lemma_deps_present_weaken(s, out@[idx]@, out_names(out_d), names_view(old(started)@), out_names(out@), names_view(old(started)@));
                                } else {
                                    assert forall|n: Seq<char>| #[trigger] names_view(started_d).contains(n)
                                        implies out_names(out@).contains(n) || names_view(old(started)@).contains(n) by {
                                        if !names_view(old(started)@).contains(n) {
                                            lemma_out_contains_monotone(out_d, out@, n);
                                        }
                                    }
                                    lemma_deps_present_weaken(s, out@[idx]@, out_names(out@), names_view(started_d), out_names(out@), names_view(old(started)@));
                                    assert(names_view(old(started)@).contains(model_name(out@[idx]@))
                                        ==> names_view(started_d).contains(model_name(out@[idx]@)));
                                }
                            }
                            lemma_reachable_self(s, p@);
                            assert((seq![v@->Specialization_0.aliased] + model_dep_names(v@))[0] == sp.aliased@);
                            assert(edge_names(s, p@).contains(sp.aliased@));
                            lemma_reachable_step(s, seq![p@], p@, sp.aliased@);
                            assert forall|q: Seq<char>| #[trigger] names_view(names_v).contains(q)
                                implies reachable(s, seq![p@], q) by {
                                let w = choose|w: int| 0 <= w < names_view(names_v).len()
                                    && names_view(names_v)[w] == q;
                                assert(model_dep_names(v@)[w] == q);
                                assert((seq![v@->Specialization_0.aliased] + model_dep_names(v@))[1 + w] == q);
                                assert(edge_names(s, p@).contains(q));
                                lemma_reachable_step(s, seq![p@], p@, q);
                            }
                            assert forall|idx: int| out1.len() <= idx < out@.len()
                                implies reachable(s, seq![p@], model_name(#[trigger] out@[idx]@)) by {
                                if idx < out_d.len() {
                                    assert(out@[idx] == out_d[idx]);
                                    assert forall|m: Seq<char>| #[trigger] (seq![sp.aliased@]).contains(m)
                                        implies reachable(s, seq![p@], m) by {
                                        assert((seq![sp.aliased@])[0] == sp.aliased@);
                                    }
                                    lemma_reachable_lift(s, seq![sp.aliased@], seq![p@], model_name(out@[idx]@));
                                } else {
                                    lemma_reachable_lift(s, names_view(names_v), seq![p@], model_name(out@[idx]@));
                                }
                            }
                        }
                    },
                    PathValue::Struct(st) => {
                        let mut names: Vec<String> = Vec::new();
                        st.push_dep_names(&mut names);
                        proof {
                            lemma_avail_monotone(s, names_view(walked1), names_view(walked@));
                            lemma_avail_monotone(s, names_view(old(started)@), names_view(started@));
                        }
                        let ghost names_v = names@;
                        self.collect_names(&names, out, started, walked, diags);
                        proof {
                            assert(names_view(names_v) =~= model_dep_names(v@));
                            assert forall|n: Seq<char>|
                                #[trigger] model_dep_names(v@).contains(n) && resolve_model(s, n) is Some
                                implies out_names(out@).contains(n) || names_view(old(started)@).contains(n) by {
                                let q = choose|q: int| 0 <= q < names_view(names_v).len()
                                    && names_view(names_v)[q] == n;
                            }
                            assert(deps_present(s, v@, out_names(out@), names_view(old(started)@)));
                            lemma_reachable_self(s, p@);
                            assert(edge_names(s, p@) == model_dep_names(v@));
                            assert forall|q: Seq<char>| #[trigger] names_view(names_v).contains(q)
                                implies reachable(s, seq![p@], q) by {
                                lemma_reachable_step(s, seq![p@], p@, q);
                            }
                            assert forall|idx: int| out1.len() <= idx < out@.len()
                                implies reachable(s, seq![p@], model_name(#[trigger] out@[idx]@)) by {
                                lemma_reachable_lift(s, names_view(names_v), seq![p@], model_name(out@[idx]@));
                            }
                        }
                    },
                    PathValue::Typedef(td) => {
                        let mut names: Vec<String> = Vec::new();
                        td.push_dep_names(&mut names);
                        proof {
                            lemma_avail_monotone(s, names_view(walked1), names_view(walked@));
                            lemma_avail_monotone(s, names_view(old(started)@), names_view(started@));
                        }
                        let ghost names_v = names@;
                        self.collect_names(&names, out, started, walked, diags);
                        proof {
                            assert(names_view(names_v) =~= model_dep_names(v@));
                            assert forall|n: Seq<char>|
                                #[trigger] model_dep_names(v@).contains(n) && resolve_model(s, n) is Some
                                implies out_names(out@).contains(n) || names_view(old(started)@).contains(n) by {
                                let q = choose|q: int| 0 <= q < names_view(names_v).len()
                                    && names_view(names_v)[q] == n;
                            }
                            assert(deps_present(s, v@, out_names(out@), names_view(old(started)@)));
                            lemma_reachable_self(s, p@);
                            assert(edge_names(s, p@) == model_dep_names(v@));
                            assert forall|q: Seq<char>| #[trigger] names_view(names_v).contains(q)
                                implies reachable(s, seq![p@], q) by {
                                lemma_reachable_step(s, seq![p@], p@, q);
                            }
                            assert forall|idx: int| out1.len() <= idx < out@.len()
                                implies reachable(s, seq![p@], model_name(#[trigger] out@[idx]@)) by {
                                lemma_reachable_lift(s, names_view(names_v), seq![p@], model_name(out@[idx]@));
                            }
                        }
                    },
                    _ => {
                        proof {
                            assert(model_dep_names(v@).len() == 0);
                            assert(deps_present(s, v@, out_names(out@), names_view(old(started)@)));
                        }
                    },
                }
            },
        }
    }
}


// ---------------------------------------------------------------------
// public collection entry points

impl PathValue {
    /// Appends the entities this entity's references pull in,
    /// transitively, dependencies first; the entity itself is not
    /// appended. A kind with no references (enum, opaque struct,
    /// prebuilt) changes nothing. A specialization pulls in its
    /// template's dependencies and the entities its arguments name.
    pub fn add_deps(&self, library: &Library, out: &mut Vec<PathValue>, diags: &mut Vec<Diag>)
        requires
            library.wf(),
            out_ok(library.sym(), old(out)@),
        ensures
            out_ok(library.sym(), final(out)@),
            final(out)@.len() >= old(out)@.len(),
            final(out)@.take(old(out)@.len() as int) == old(out)@,
            self@ is Enum || self@ is OpaqueStruct || self@ is Prebuilt
                ==> final(out)@ == old(out)@ && final(diags)@ == old(diags)@,
            forall|n: Seq<char>|
                #[trigger] model_dep_names(self@).contains(n)
                    && resolve_model(library.sym(), n) is Some
                    ==> out_names(final(out)@).contains(n),
            forall|idx: int|
                old(out)@.len() <= idx < final(out)@.len()
                    ==> deps_present(library.sym(), #[trigger] final(out)@[idx]@,
                            out_names(final(out)@), Seq::empty()),
            final(diags)@.len() >= old(diags)@.len(),
            final(diags)@.take(old(diags)@.len() as int) == old(diags)@,
    {
        let ghost s = library.sym();
        let mut started: Vec<String> = Vec::new();
        let mut walked: Vec<String> = Vec::new();
        proof {
            assert(names_view(started@) =~= Seq::<Seq<char>>::empty());
            assert(names_view(walked@) =~= Seq::<Seq<char>>::empty());
        }
        let ghost no_names: Seq<Seq<char>> = names_view(started@);
        match self {
            PathValue::Specialization(sp) => {
                library.collect_deps_rec(&sp.aliased, out, &mut started, &mut walked, diags);
                let ghost out_d = out@;
                let ghost started_d = started@;
                let ghost diags_d = diags@;
                let mut names: Vec<String> = Vec::new();
                sp.push_dep_names(&mut names);
                let ghost names_v = names@;
                library.collect_names(&names, out, &mut started, &mut walked, diags);
                proof {
                    assert(out@.take(old(out)@.len() as int) =~= out_d.take(old(out)@.len() as int));
                    assert(diags@.take(old(diags)@.len() as int) =~= diags_d.take(old(diags)@.len() as int));
                    assert(names_view(names_v) =~= model_dep_names(self@));
                    assert(out@.take(out_d.len() as int) =~= out_d);
                    assert forall|n: Seq<char>| #[trigger] out_names(out_d).contains(n)
                        implies out_names(out@).contains(n) by {
                        lemma_out_contains_monotone(out_d, out@, n);
                    }
                    assert forall|n: Seq<char>|
                        #[trigger] model_dep_names(self@).contains(n) && resolve_model(s, n) is Some
                        implies out_names(out@).contains(n) by {
                        let q = choose|q: int| 0 <= q < names_view(names_v).len()
                            && names_view(names_v)[q] == n;
                        if names_view(started_d).contains(n) && !no_names.contains(n) {
                            lemma_out_contains_monotone(out_d, out@, n);
                        }
                    }
                    assert forall|idx: int| old(out)@.len() <= idx < out@.len()
                        implies deps_present(s, #[trigger] out@[idx]@, out_names(out@), Seq::empty()) by {
                        if idx < out_d.len() {
                            assert(out@[idx] == out_d[idx]) by {
                                assert(out@.take(out_d.len() as int)[idx] == out@[idx]);
                            }
                            lemma_deps_present_weaken(s, out@[idx]@, out_names(out_d), no_names, out_names(out@), Seq::empty());
                        } else {
                            assert forall|n: Seq<char>| #[trigger] names_view(started_d).contains(n)
                                implies out_names(out@).contains(n) by {
                                if !no_names.contains(n) {
                                    lemma_out_contains_monotone(out_d, out@, n);
                                }
                            }
                            lemma_deps_present_weaken(s, out@[idx]@, out_names(out@), names_view(started_d), out_names(out@), Seq::empty());
                        }
                    }
                }
            },
            PathValue::Struct(st) => {
                let mut names: Vec<String> = Vec::new();
                st.push_dep_names(&mut names);
                let ghost names_v = names@;
                library.collect_names(&names, out, &mut started, &mut walked, diags);
                proof {
                    assert(names_view(names_v) =~= model_dep_names(self@));
                    assert forall|n: Seq<char>|
                        #[trigger] model_dep_names(self@).contains(n) && resolve_model(s, n) is Some
                        implies out_names(out@).contains(n) by {
                        let q = choose|q: int| 0 <= q < names_view(names_v).len()
                            && names_view(names_v)[q] == n;
                    }
                    assert forall|idx: int| old(out)@.len() <= idx < out@.len()
                        implies deps_present(s, #[trigger] out@[idx]@, out_names(out@), Seq::empty()) by {
                        lemma_deps_present_weaken(s, out@[idx]@, out_names(out@), no_names, out_names(out@), Seq::empty());
                    }
                }
            },
            PathValue::Typedef(td) => {
                let mut names: Vec<String> = Vec::new();
                td.push_dep_names(&mut names);
                let ghost names_v = names@;
                library.collect_names(&names, out, &mut started, &mut walked, diags);
                proof {
                    assert(names_view(names_v) =~= model_dep_names(self@));
                    assert forall|n: Seq<char>|
                        #[trigger] model_dep_names(self@).contains(n) && resolve_model(s, n) is Some
                        implies out_names(out@).contains(n) by {
                        let q = choose|q: int| 0 <= q < names_view(names_v).len()
                            && names_view(names_v)[q] == n;
                    }
                    assert forall|idx: int| old(out)@.len() <= idx < out@.len()
                        implies deps_present(s, #[trigger] out@[idx]@, out_names(out@), Seq::empty()) by {
                        lemma_deps_present_weaken(s, out@[idx]@, out_names(out@), no_names, out_names(out@), Seq::empty());
                    }
                }
            },
            _ => {
                proof {
                    assert(model_dep_names(self@).len() == 0);
                }
            },
        }
    }
}

impl Library {
    /// Collects the named entity's dependencies and then the entity:
    /// afterwards the list holds `p`'s entity, holds every entity it
    /// transitively references that resolves, and is closed under
    /// resolvable references, still deduplicated. A missing name warns
    /// and changes nothing; a name already collected changes nothing.
    pub fn add_deps_for_path(&self, p: &PathRef, out: &mut Vec<PathValue>, diags: &mut Vec<Diag>)
        requires
            self.wf(),
            out_ok(self.sym(), old(out)@),
        ensures
            out_ok(self.sym(), final(out)@),
            final(out)@.len() >= old(out)@.len(),
            final(out)@.take(old(out)@.len() as int) == old(out)@,
            resolve_model(self.sym(), p@) is Some ==> out_names(final(out)@).contains(p@),
            resolve_model(self.sym(), p@) is None ==> warned(final(diags)@, p@)
                && final(out)@ == old(out)@,
            out_names(old(out)@).contains(p@) ==> final(out)@ == old(out)@
                && final(diags)@ == old(diags)@,
            resolve_model(self.sym(), p@) is Some && !out_names(old(out)@).contains(p@)
                ==> final(out)@.len() > old(out)@.len()
                    && final(out)@.last()@ == resolve_model(self.sym(), p@)->Some_0,
            forall|idx: int|
                old(out)@.len() <= idx < final(out)@.len()
                    ==> deps_present(self.sym(), #[trigger] final(out)@[idx]@,
                            out_names(final(out)@), Seq::empty()),
            forall|idx: int|
                old(out)@.len() <= idx < final(out)@.len()
                    ==> reachable(self.sym(), seq![p@], model_name(#[trigger] final(out)@[idx]@)),
            final(diags)@.len() >= old(diags)@.len(),
            final(diags)@.take(old(diags)@.len() as int) == old(diags)@,
    {
        let ghost s = self.sym();
        let mut started: Vec<String> = Vec::new();
        let mut walked: Vec<String> = Vec::new();
        proof {
            assert(names_view(started@) =~= Seq::<Seq<char>>::empty());
            assert(names_view(walked@) =~= Seq::<Seq<char>>::empty());
        }
        let ghost no_names: Seq<Seq<char>> = names_view(started@);
        self.collect_rec(p, out, &mut started, &mut walked, diags);
        proof {
            assert forall|idx: int| old(out)@.len() <= idx < out@.len()
                implies deps_present(s, #[trigger] out@[idx]@, out_names(out@), Seq::empty()) by {
                lemma_deps_present_weaken(s, out@[idx]@, out_names(out@), no_names, out_names(out@), Seq::empty());
            }
        }
    }

    /// Collects only the named entity's dependencies: what a
    /// specialization needs from its template without emitting the
    /// template itself. Every entity the named one references that
    /// resolves is collected, and the appended part is closed under
    /// resolvable references. A kind with no references changes
    /// nothing; a missing name warns and changes nothing.
    pub fn add_deps_for_path_deps(&self, p: &PathRef, out: &mut Vec<PathValue>, diags: &mut Vec<Diag>)
        requires
            self.wf(),
            out_ok(self.sym(), old(out)@),
        ensures
            out_ok(self.sym(), final(out)@),
            final(out)@.len() >= old(out)@.len(),
            final(out)@.take(old(out)@.len() as int) == old(out)@,
            resolve_model(self.sym(), p@) is None ==> warned(final(diags)@, p@)
                && final(out)@ == old(out)@,
            resolve_model(self.sym(), p@) is Some
                && !(resolve_model(self.sym(), p@)->Some_0 is Struct)
                && !(resolve_model(self.sym(), p@)->Some_0 is Typedef)
                && !(resolve_model(self.sym(), p@)->Some_0 is Specialization)
                ==> final(out)@ == old(out)@,
            resolve_model(self.sym(), p@) is Some
                ==> deps_present(self.sym(), resolve_model(self.sym(), p@)->Some_0,
                        out_names(final(out)@), Seq::empty()),
            forall|idx: int|
                old(out)@.len() <= idx < final(out)@.len()
                    ==> deps_present(self.sym(), #[trigger] final(out)@[idx]@,
                            out_names(final(out)@), Seq::empty()),
            forall|idx: int|
                old(out)@.len() <= idx < final(out)@.len()
                    ==> reachable(self.sym(), seq![p@], model_name(#[trigger] final(out)@[idx]@)),
            final(diags)@.len() >= old(diags)@.len(),
            final(diags)@.take(old(diags)@.len() as int) == old(diags)@,
    {
        let ghost s = self.sym();
        let mut started: Vec<String> = Vec::new();
        let mut walked: Vec<String> = Vec::new();
        proof {
            assert(names_view(started@) =~= Seq::<Seq<char>>::empty());
            assert(names_view(walked@) =~= Seq::<Seq<char>>::empty());
        }
        let ghost no_names: Seq<Seq<char>> = names_view(started@);
        self.collect_deps_rec(p, out, &mut started, &mut walked, diags);
        proof {
            if resolve_model(s, p@) is Some {
                lemma_deps_present_weaken(s, resolve_model(s, p@)->Some_0, out_names(out@), no_names, out_names(out@), Seq::empty());
            }
            assert forall|idx: int| old(out)@.len() <= idx < out@.len()
                implies deps_present(s, #[trigger] out@[idx]@, out_names(out@), Seq::empty()) by {
                lemma_deps_present_weaken(s, out@[idx]@, out_names(out@), no_names, out_names(out@), Seq::empty());
            }
        }
    }
}

// ---------------------------------------------------------------------
// specialization

/// Substitution applied to every field's type; field names are kept.
pub open spec fn subst_fields(
    fs: Seq<(Seq<char>, TyModel)>,
    params: Seq<Seq<char>>,
    args: Seq<TyModel>,
) -> Seq<(Seq<char>, TyModel)> {
    Seq::new(fs.len(), |i: int| (fs[i].0, crate::ty::ty_subst(fs[i].1, params, args)))
}

/// What a parameterized alias resolves to: the template looked up and
/// instantiated, under the alias's own name. `None` when the template is
/// missing, is not a struct or enum, or the argument count is wrong.
pub open spec fn specialize_model(s: SymbolState, sp: SpecializationModel) -> Option<PathValueModel> {
    match resolve_model(s, sp.aliased) {
        Option::Some(PathValueModel::Struct(t)) => {
            if t.generic_params.len() == sp.generic_values.len() {
                Option::Some(PathValueModel::Struct(StructModel {
                    name: sp.name,
                    fields: subst_fields(t.fields, t.generic_params, sp.generic_values),
                    generic_params: Seq::empty(),
                }))
            } else {
                Option::None
            }
        },
        Option::Some(PathValueModel::Enum(e)) => {
            if sp.generic_values.len() == 0 {
                Option::Some(PathValueModel::Enum(EnumModel { name: sp.name, variants: e.variants }))
            } else {
                Option::None
            }
        },
        _ => Option::None,
    }
}

impl Specialization {
    /// Resolves this alias against its template: substitutes the concrete
    /// arguments into the template's fields and takes the alias's name.
    /// Fails, with a description, when the template is missing, is not a
    /// struct or enum, or the argument count differs.
    pub fn specialize(&self, library: &Library) -> (r: ConvertResult<PathValue>)
        requires
            library.wf(),
        ensures
            match r {
                Result::Ok(v) => specialize_model(library.sym(), self@) == Option::Some(v@)
                    && model_name(v@) == self@.name,
                Result::Err(_) => specialize_model(library.sym(), self@) is None,
            },
    {
        let ghost s = library.sym();
        proof {
            crate::ty::lemma_tys_view(self.generic_values@);
            assert(self@.generic_values.len() == self.generic_values@.len());
        }
        match library.resolve_path(&self.aliased) {
            Option::Some(PathValue::Struct(t)) => {
                if t.generic_params.len() != self.generic_values.len() {
                    return Result::Err(String::from_str(
                        "argument count differs from the template's parameter count",
                    ));
                }
                let mut fields: Vec<(String, Ty)> = Vec::new();
                let len = t.fields.len();
                let mut i: usize = 0;
                let ghost tf = fields_view(t.fields@);
                let ghost pv = names_view(t.generic_params@);
                let ghost av = tys_view(self.generic_values@);
                while i < len
                    invariant
                        i <= len,
                        len == t.fields@.len(),
                        tf == fields_view(t.fields@),
                        pv == names_view(t.generic_params@),
                        av == tys_view(self.generic_values@),
                        t.generic_params@.len() == self.generic_values@.len(),
                        fields@.len() == i,
                        forall|j: int| 0 <= j < i
                            ==> fields_view(fields@)[j]
                                == (tf[j].0, crate::ty::ty_subst(tf[j].1, pv, av)),
                    decreases len - i,
                {
                    let fname = t.fields[i].0.clone();
                    let fty = t.fields[i].1.subst(&t.generic_params, &self.generic_values);
                    let ghost fields0 = fields@;
                    fields.push((fname, fty));
                    proof {
                        assert(fields_view(fields@)[i as int]
                            == (tf[i as int].0, crate::ty::ty_subst(tf[i as int].1, pv, av)));
                        assert forall|j: int| 0 <= j < i
                            implies fields_view(fields@)[j]
                                == (tf[j].0, crate::ty::ty_subst(tf[j].1, pv, av)) by {
                            assert(fields@[j] == fields0[j]);
                            assert(fields_view(fields@)[j] == fields_view(fields0)[j]);
                        }
                    }
                    i = i + 1;
                }
                let r = PathValue::Struct(Struct {
                    name: self.name.clone(),
                    fields,
                    generic_params: Vec::new(),
                });
                proof {
                    assert(r@->Struct_0.fields =~= subst_fields(tf, pv, av));
                    assert(r@->Struct_0.generic_params =~= Seq::<Seq<char>>::empty());
                }
                Result::Ok(r)
            },
            Option::Some(PathValue::Enum(e)) => {
                if self.generic_values.len() > 0 {
                    return Result::Err(String::from_str(
                        "an enum template takes no type arguments",
                    ));
                }
                let r = PathValue::Enum(Enum { name: self.name.clone(), variants: e.variants });
                Result::Ok(r)
            },
            Option::Some(_) => Result::Err(String::from_str(
                "the aliased name is not a struct or enum template",
            )),
            Option::None => Result::Err(String::from_str("the aliased template was not found")),
        }
    }
}

// ---------------------------------------------------------------------
// build

/// What the final item list holds for a name: the resolved entity, with
/// an unspecialized template dropped and a specialization replaced by its
/// result.
pub open spec fn emits(s: SymbolState, n: Seq<char>) -> Option<PathValueModel> {
    match resolve_model(s, n) {
        Option::None => Option::None,
        Option::Some(PathValueModel::Struct(st)) => {
            if st.generic_params.len() > 0 {
                Option::None
            } else {
                Option::Some(PathValueModel::Struct(st))
            }
        },
        Option::Some(PathValueModel::Specialization(sp)) => specialize_model(s, sp),
        Option::Some(v) => Option::Some(v),
    }
}

/// The dependency names of a function list, in order.
pub open spec fn fns_dep_names(fs: Seq<FunctionModel>) -> Seq<Seq<char>>
    decreases fs.len(),
{
    if fs.len() == 0 {
        Seq::empty()
    } else {
        crate::items::fn_dep_names(fs[0]) + fns_dep_names(fs.drop_first())
    }
}

pub proof fn lemma_fns_dep_names_snoc(fs: Seq<FunctionModel>, x: FunctionModel)
    ensures
        fns_dep_names(fs.push(x)) =~= fns_dep_names(fs) + crate::items::fn_dep_names(x),
    decreases fs.len(),
{
    assert(fs.push(x)[0] == if fs.len() == 0 { x } else { fs[0] });
    if fs.len() == 0 {
        reveal_with_fuel(fns_dep_names, 2);
        assert(fs.push(x).drop_first() =~= Seq::<FunctionModel>::empty());
    } else {
        assert(fs.push(x).drop_first() =~= fs.drop_first().push(x));
        lemma_fns_dep_names_snoc(fs.drop_first(), x);
    }
}

/// Every function's own dependency names stand in the combined list.
pub proof fn lemma_fns_dep_names_contains(fs: Seq<FunctionModel>, fi: int, n: Seq<char>)
    requires
        0 <= fi < fs.len(),
        crate::items::fn_dep_names(fs[fi]).contains(n),
    ensures
        fns_dep_names(fs).contains(n),
    decreases fs.len(),
{
    let head = crate::items::fn_dep_names(fs[0]);
    let tail = fns_dep_names(fs.drop_first());
    if fi == 0 {
        let w = choose|w: int| 0 <= w < head.len() && head[w] == n;
        assert((head + tail)[w] == n);
    } else {
        assert(fs.drop_first()[fi - 1] == fs[fi]);
        lemma_fns_dep_names_contains(fs.drop_first(), fi - 1, n);
        let w = choose|w: int| 0 <= w < tail.len() && tail[w] == n;
        assert((head + tail)[head.len() + w] == n);
    }
}

/// Enums stand first, sorted by name; nothing after them is an enum.
pub open spec fn enum_hoisted(items: Seq<PathValueModel>) -> bool {
    &&& forall|i: int, j: int|
        0 <= i < j < items.len() && items[j] is Enum ==> items[i] is Enum
    &&& forall|i: int, j: int|
        0 <= i < j < items.len() && items[i] is Enum && items[j] is Enum
            ==> crate::text::lex_lt(model_name(items[i]), model_name(items[j]))
}

proof fn lemma_out_names_grow(a: Seq<PathValue>, b: Seq<PathValue>)
    requires
        b.len() == a.len() + 1,
        forall|i: int| 0 <= i < a.len() ==> b[i] == a[i],
    ensures
        forall|n: Seq<char>| #[trigger] out_names(a).contains(n) ==> out_names(b).contains(n),
{
    assert forall|n: Seq<char>| #[trigger] out_names(a).contains(n)
        implies out_names(b).contains(n) by {
        let w = choose|w: int| 0 <= w < a.len() && out_names(a)[w] == n;
        assert(out_names(b)[w] == n);
    }
}

proof fn lemma_take_grow(ns: Seq<Seq<char>>, k: int, n: Seq<char>)
    requires
        0 <= k < ns.len(),
        ns.take(k).contains(n),
    ensures
        ns.take(k + 1).contains(n),
{
    let w = choose|w: int| 0 <= w < k && ns.take(k)[w] == n;
    assert(ns.take(k + 1)[w] == n);
}

/// Inserts an enum entity into a name-sorted run of enum entities.
fn insert_enum_sorted(v: &mut Vec<PathValue>, e: PathValue)
    requires
        e@ is Enum,
        forall|i: int| 0 <= i < old(v)@.len() ==> (#[trigger] old(v)@[i]@) is Enum,
        forall|i: int, j: int| 0 <= i < j < old(v)@.len()
            ==> crate::text::lex_lt(out_names(old(v)@)[i], out_names(old(v)@)[j]),
        !out_names(old(v)@).contains(model_name(e@)),
    ensures
        final(v)@.len() == old(v)@.len() + 1,
        forall|i: int| 0 <= i < final(v)@.len() ==> (#[trigger] final(v)@[i]@) is Enum,
        forall|i: int, j: int| 0 <= i < j < final(v)@.len()
            ==> crate::text::lex_lt(out_names(final(v)@)[i], out_names(final(v)@)[j]),
        forall|i: int| 0 <= i < final(v)@.len()
            ==> final(v)@[i] == e || old(v)@.contains(#[trigger] final(v)@[i]),
        forall|n: Seq<char>| #[trigger] out_names(final(v)@).contains(n)
            <==> out_names(old(v)@).contains(n) || n == model_name(e@),
{
    let ghost en = model_name(e@);
    let ghost oldnames = out_names(old(v)@);
    let n = v.len();
    let mut i: usize = 0;
    loop
        invariant
            *v == *old(v),
            i <= n,
            n == v@.len(),
            en == model_name(e@),
            forall|j: int| 0 <= j < i ==> crate::text::lex_lt(out_names(v@)[j], en),
        ensures
            *v == *old(v),
            i <= n,
            forall|j: int| 0 <= j < i ==> crate::text::lex_lt(out_names(v@)[j], en),
            i < n ==> !crate::text::lex_lt(out_names(v@)[i as int], en),
        decreases n - i,
    {
        if i == n {
            break;
        }
        let cur = v[i].name();
        let en_str = e.name();
        proof {
            assert(en_str@ == en);
        }
        let below = crate::text::str_lt(cur.as_str(), en_str.as_str());
        proof {
            assert(cur@ == out_names(v@)[i as int]);
            assert(below == crate::text::lex_lt(out_names(v@)[i as int], en));
        }
        if !below {
            break;
        }
        proof {
            assert(crate::text::lex_lt(out_names(v@)[i as int], en));
        }
        i = i + 1;
    }
    proof {
        if i < n {
            crate::text::lemma_lex_connected(oldnames[i as int], en);
            assert(oldnames[i as int] != en) by {
                if oldnames[i as int] == en {
                    assert(oldnames.contains(en));
                }
            }
            assert(crate::text::lex_lt(en, oldnames[i as int]));
        }
    }
    v.insert(i, e);
    proof {
        assert(v@ =~= old(v)@.insert(i as int, e));
        let newnames = out_names(v@);
        assert forall|j: int| 0 <= j < v@.len() implies (#[trigger] v@[j]@) is Enum by {
            if j < i {
                assert(v@[j] == old(v)@[j]);
            } else if j == i {
            } else {
                assert(v@[j] == old(v)@[j - 1]);
            }
        }
        assert forall|p: int, q: int| 0 <= p < q < v@.len()
            implies crate::text::lex_lt(newnames[p], newnames[q]) by {
            let np = if p < i { oldnames[p] } else if p == i { en } else { oldnames[p - 1] };
            let nq = if q < i { oldnames[q] } else if q == i { en } else { oldnames[q - 1] };
            assert(newnames[p] == np);
            assert(newnames[q] == nq);
            if q < i {
            } else if q == i {
            } else if p < i {
                if q - 1 == i as int {
                    crate::text::lemma_lex_transitive(oldnames[p], en, oldnames[q - 1]);
                } else if q - 1 > i as int && p < q - 1 {
                } else {
                }
            } else if p == i {
                if q - 1 > i as int {
                    crate::text::lemma_lex_transitive(en, oldnames[i as int], oldnames[q - 1]);
                }
            } else {
            }
        }
        assert forall|j: int| 0 <= j < v@.len()
            implies v@[j] == e || old(v)@.contains(#[trigger] v@[j]) by {
            if j < i {
                assert(old(v)@[j] == v@[j]);
            } else if j > i {
                assert(old(v)@[j - 1] == v@[j]);
            }
        }
        assert forall|m: Seq<char>| #[trigger] newnames.contains(m)
            implies oldnames.contains(m) || m == en by {
            let w = choose|w: int| 0 <= w < newnames.len() && newnames[w] == m;
            if w < i {
                assert(oldnames[w] == m);
            } else if w > i {
                assert(oldnames[w - 1] == m);
            }
        }
        assert forall|m: Seq<char>| oldnames.contains(m) || m == en
            implies #[trigger] newnames.contains(m) by {
            if oldnames.contains(m) {
                let w = choose|w: int| 0 <= w < oldnames.len() && oldnames[w] == m;
                if w < i {
                    assert(newnames[w] == m);
                } else {
                    assert(newnames[w + 1] == m);
                }
            } else {
                assert(newnames[i as int] == en);
            }
        }
    }
}


// ---------------------------------------------------------------------
// the built library and the emitter

/// A completed bindings unit, ready to print: the ordered item list
/// (never a specialization, never an unresolved template) and the
/// exported functions in name order. Write-once, read-once.
#[derive(Debug)]
pub struct BuiltLibrary {
    items: Vec<PathValue>,
    functions: Vec<Function>,
}

/// The rendering of one final item. A specialization has none: it never
/// reaches the emitter.
pub open spec fn item_render(v: PathValueModel) -> Seq<char> {
    match v {
        PathValueModel::Enum(x) => crate::items::enum_render(x),
        PathValueModel::Struct(x) => crate::items::struct_render(x),
        PathValueModel::OpaqueStruct(x) => crate::items::opaque_render(x),
        PathValueModel::Typedef(x) => crate::items::typedef_render(x),
        PathValueModel::Specialization(_) => Seq::empty(),
        PathValueModel::Prebuilt(x) => crate::items::prebuilt_render(x),
    }
}

pub open spec fn items_emit(items: Seq<PathValueModel>) -> Seq<char>
    decreases items.len(),
{
    if items.len() == 0 {
        Seq::empty()
    } else {
        "\n"@ + item_render(items[0]) + "\n"@ + items_emit(items.drop_first())
    }
}

pub proof fn lemma_items_emit_snoc(items: Seq<PathValueModel>, x: PathValueModel)
    ensures
        items_emit(items.push(x)) =~= items_emit(items) + "\n"@ + item_render(x) + "\n"@,
    decreases items.len(),
{
    assert(items.push(x)[0] == if items.len() == 0 { x } else { items[0] });
    if items.len() == 0 {
        reveal_with_fuel(items_emit, 2);
        assert(items.push(x).drop_first() =~= Seq::<PathValueModel>::empty());
    } else {
        assert(items.push(x).drop_first() =~= items.drop_first().push(x));
        lemma_items_emit_snoc(items.drop_first(), x);
    }
}

pub open spec fn fns_emit(fs: Seq<FunctionModel>) -> Seq<char>
    decreases fs.len(),
{
    if fs.len() == 0 {
        Seq::empty()
    } else {
        "\n"@ + crate::items::fn_render(fs[0]) + "\n"@ + fns_emit(fs.drop_first())
    }
}

pub proof fn lemma_fns_emit_snoc(fs: Seq<FunctionModel>, x: FunctionModel)
    ensures
        fns_emit(fs.push(x)) =~= fns_emit(fs) + "\n"@ + crate::items::fn_render(x) + "\n"@,
    decreases fs.len(),
{
    assert(fs.push(x)[0] == if fs.len() == 0 { x } else { fs[0] });
    if fs.len() == 0 {
        reveal_with_fuel(fns_emit, 2);
        assert(fs.push(x).drop_first() =~= Seq::<FunctionModel>::empty());
    } else {
        assert(fs.push(x).drop_first() =~= fs.drop_first().push(x));
        lemma_fns_emit_snoc(fs.drop_first(), x);
    }
}

/// The header block: the text and a newline, or nothing.
pub open spec fn header_block(o: Option<Seq<char>>) -> Seq<char> {
    match o {
        Option::Some(t) => t + "\n"@,
        Option::None => Seq::empty(),
    }
}

/// A banner or trailer block: a blank line, the text and a newline, or
/// nothing.
pub open spec fn banner_block(o: Option<Seq<char>>) -> Seq<char> {
    match o {
        Option::Some(t) => "\n"@ + t + "\n"@,
        Option::None => Seq::empty(),
    }
}

/// The whole emitted text: header, banner, items, banner, functions,
/// banner, trailer.
pub open spec fn emit_model(items: Seq<PathValueModel>, fs: Seq<FunctionModel>, c: ConfigModel) -> Seq<char> {
    header_block(c.file_header) + banner_block(c.file_autogen_warning) + items_emit(items)
        + banner_block(c.file_autogen_warning) + fns_emit(fs)
        + banner_block(c.file_autogen_warning) + banner_block(c.file_trailer)
}

impl BuiltLibrary {
    /// The final item list, as models.
    pub closed spec fn items_model(&self) -> Seq<PathValueModel> {
        Seq::new(self.items@.len(), |i: int| self.items@[i]@)
    }

    /// The exported functions, as models, in name order.
    pub closed spec fn funs_model(&self) -> Seq<FunctionModel> {
        Seq::new(self.functions@.len(), |i: int| self.functions@[i]@)
    }

    /// No specialization and no unresolved template reaches the output.
    pub open spec fn wf(&self) -> bool {
        forall|i: int| 0 <= i < self.items_model().len() ==> {
            &&& !((#[trigger] self.items_model()[i]) is Specialization)
            &&& (self.items_model()[i] is Struct
                ==> self.items_model()[i]->Struct_0.generic_params.len() == 0)
        }
    }

    /// Borrows the final item list.
    pub fn items(&self) -> (r: &Vec<PathValue>)
        ensures
            r@.len() == self.items_model().len(),
            forall|i: int| 0 <= i < r@.len() ==> r@[i]@ == self.items_model()[i],
    {
        &self.items
    }

    /// Borrows the exported function list.
    pub fn functions(&self) -> (r: &Vec<Function>)
        ensures
            r@.len() == self.funs_model().len(),
            forall|i: int| 0 <= i < r@.len() ==> r@[i]@ == self.funs_model()[i],
    {
        &self.functions
    }

    /// Serializes the whole unit, deterministically: optional header,
    /// then each item and each function between blank lines, with the
    /// autogenerated-file banner at its three points and the optional
    /// trailer.
    #[verifier::rlimit(60)]
    pub fn write(&self, config: &Config) -> (out: String)
        requires
            self.wf(),
        ensures
            out@ == emit_model(self.items_model(), self.funs_model(), config@),
    {
        let mut out = String::new();
        if let Option::Some(f) = &config.file_header {
            out.append(f.as_str());
            out.append("\n");
        }
        if let Option::Some(f) = &config.file_autogen_warning {
            out.append("\n");
            out.append(f.as_str());
            out.append("\n");
        }
        proof {
            assert(out@ =~= header_block(config@.file_header) + banner_block(config@.file_autogen_warning));
        }
        let ghost base = out@;
        let ilen = self.items.len();
        let mut i: usize = 0;
        while i < ilen
            invariant
                self.wf(),
                i <= ilen,
                ilen == self.items@.len(),
                out@ =~= base + items_emit(self.items_model().take(i as int)),
            decreases ilen - i,
        {
            out.append("\n");
            match &self.items[i] {
                PathValue::Enum(x) => x.render(&mut out),
                PathValue::Struct(x) => x.render(&mut out),
                PathValue::OpaqueStruct(x) => x.render(&mut out),
                PathValue::Typedef(x) => x.render(&mut out),
                PathValue::Specialization(_) => {
                    proof {
                        assert(self.items_model()[i as int] is Specialization);
                        assert(false);
                    }
                },
                PathValue::Prebuilt(x) => x.render(&mut out),
            }
            out.append("\n");
            proof {
                let im = self.items_model();
                assert(im.take(i + 1) =~= im.take(i as int).push(im[i as int]));
                lemma_items_emit_snoc(im.take(i as int), im[i as int]);
                assert(out@ =~= base + items_emit(im.take(i + 1)));
            }
            i = i + 1;
        }
        proof {
            assert(self.items_model().take(ilen as int) =~= self.items_model());
        }
        if let Option::Some(f) = &config.file_autogen_warning {
            out.append("\n");
            out.append(f.as_str());
            out.append("\n");
        }
        let ghost base2 = out@;
        proof {
            assert(base2 =~= header_block(config@.file_header)
                + banner_block(config@.file_autogen_warning)
                + items_emit(self.items_model())
                + banner_block(config@.file_autogen_warning));
        }
        let flen = self.functions.len();
        let mut j: usize = 0;
        while j < flen
            invariant
                j <= flen,
                flen == self.functions@.len(),
                out@ =~= base2 + fns_emit(self.funs_model().take(j as int)),
            decreases flen - j,
        {
            out.append("\n");
            self.functions[j].render(&mut out);
            out.append("\n");
            proof {
                let fm = self.funs_model();
                assert(fm.take(j + 1) =~= fm.take(j as int).push(fm[j as int]));
                lemma_fns_emit_snoc(fm.take(j as int), fm[j as int]);
                assert(out@ =~= base2 + fns_emit(fm.take(j + 1)));
            }
            j = j + 1;
        }
        proof {
            assert(self.funs_model().take(flen as int) =~= self.funs_model());
        }
        if let Option::Some(f) = &config.file_autogen_warning {
            out.append("\n");
            out.append(f.as_str());
            out.append("\n");
        }
        if let Option::Some(f) = &config.file_trailer {
            out.append("\n");
            out.append(f.as_str());
            out.append("\n");
        }
        proof {
            assert(out@ =~= emit_model(self.items_model(), self.funs_model(), config@));
        }
        out
    }
}

impl Library {
    /// Derives the finished bindings: collects everything the exported
    /// functions reach, drops unresolved templates, resolves every
    /// specialization (a failing one is omitted with a diagnostic), and
    /// hoists the enums, sorted by name, above everything else.
    pub fn build(&self, _config: &Config, diags: &mut Vec<Diag>) -> (r: BuildResult<BuiltLibrary>)
        requires
            self.wf(),
        ensures
            r is Ok,
            (r->Ok_0).wf(),
            enum_hoisted((r->Ok_0).items_model()),
            (r->Ok_0).funs_model() =~= self.fn_list(),
            forall|i: int| 0 <= i < (r->Ok_0).items_model().len()
                ==> emits(self.sym(), model_name(#[trigger] (r->Ok_0).items_model()[i]))
                    == Option::Some((r->Ok_0).items_model()[i]),
            forall|i: int, j: int| 0 <= i < j < (r->Ok_0).items_model().len()
                ==> model_name((r->Ok_0).items_model()[i]) != model_name((r->Ok_0).items_model()[j]),
            forall|fi: int, n: Seq<char>|
                0 <= fi < self.fn_list().len()
                    && #[trigger] crate::items::fn_dep_names(self.fn_list()[fi]).contains(n)
                    && emits(self.sym(), n) is Some
                    ==> exists|i: int| 0 <= i < (r->Ok_0).items_model().len()
                        && model_name(#[trigger] (r->Ok_0).items_model()[i]) == n,
            forall|i: int, n: Seq<char>|
                0 <= i < (r->Ok_0).items_model().len()
                    && resolve_model(self.sym(), model_name((r->Ok_0).items_model()[i]))
                        == Option::Some((r->Ok_0).items_model()[i])
                    && #[trigger] model_dep_names((r->Ok_0).items_model()[i]).contains(n)
                    && emits(self.sym(), n) is Some
                    ==> exists|j: int| 0 <= j < (r->Ok_0).items_model().len()
                        && model_name(#[trigger] (r->Ok_0).items_model()[j]) == n,
            self.fn_list().len() == 0 ==> (r->Ok_0).items_model().len() == 0,
            forall|i: int| 0 <= i < (r->Ok_0).items_model().len()
                ==> reachable(self.sym(), fns_dep_names(self.fn_list()),
                        model_name(#[trigger] (r->Ok_0).items_model()[i])),
            forall|fi: int, n: Seq<char>|
                0 <= fi < self.fn_list().len()
                    && #[trigger] crate::items::fn_dep_names(self.fn_list()[fi]).contains(n)
                    && resolve_model(self.sym(), n) is Some
                    && resolve_model(self.sym(), n)->Some_0 is Specialization
                    && specialize_model(self.sym(), resolve_model(self.sym(), n)->Some_0->Specialization_0) is None
                    ==> specialize_failure_recorded(final(diags)@, n),
            final(diags)@.len() >= old(diags)@.len(),
            final(diags)@.take(old(diags)@.len() as int) == old(diags)@,
    {
        let ghost s = self.sym();

        // Gather only the items that the exported surface touches.
        let mut names: Vec<String> = Vec::new();
        let flen = self.functions.len();
        let mut fi: usize = 0;
        proof {
            self.functions.lemma_len();
            assert(names_view(names@) =~= fns_dep_names(self.fn_list().take(0)));
        }
        while fi < flen
            invariant
                self.wf(),
                s == self.sym(),
                fi <= flen,
                flen == self.functions.spec_len(),
                flen == self.fn_list().len(),
                names_view(names@) =~= fns_dep_names(self.fn_list().take(fi as int)),
            decreases flen - fi,
        {
            proof {
                self.functions.lemma_len();
            }
            let entry = self.functions.entry_at(fi);
            entry.1.push_dep_names(&mut names);
            proof {
                let fl = self.fn_list();
                assert(fl[fi as int] == self.functions.vals()[fi as int]@);
                assert(fl.take(fi + 1) =~= fl.take(fi as int).push(fl[fi as int]));
                lemma_fns_dep_names_snoc(fl.take(fi as int), fl[fi as int]);
                assert(names_view(names@) =~= fns_dep_names(fl.take(fi + 1)));
            }
            fi = fi + 1;
        }
        proof {
            assert(self.fn_list().take(flen as int) =~= self.fn_list());
        }

        let mut deps: Vec<PathValue> = Vec::new();
        let mut started: Vec<String> = Vec::new();
        let mut walked: Vec<String> = Vec::new();
        proof {
            assert(names_view(started@) =~= Seq::<Seq<char>>::empty());
            assert(names_view(walked@) =~= Seq::<Seq<char>>::empty());
        }
        let ghost no_names: Seq<Seq<char>> = names_view(started@);
        let ghost diags_c = diags@;
        self.collect_names(&names, &mut deps, &mut started, &mut walked, diags);
        proof {
            assert forall|q: int|
                0 <= q < names@.len() && resolve_model(s, #[trigger] names_view(names@)[q]) is Some
                implies out_names(deps@).contains(names_view(names@)[q]) by {
                if names_view(started@).contains(names_view(names@)[q]) {
                }
            }
            assert forall|idx: int| 0 <= idx < deps@.len()
                implies deps_present(s, #[trigger] deps@[idx]@, out_names(deps@), Seq::empty()) by {
                lemma_deps_present_weaken(s, deps@[idx]@, out_names(deps@), no_names, out_names(deps@), Seq::empty());
            }
        }

        // Copy the collected items over in dependency order, dropping
        // templates and resolving specializations; hoist the enums to
        // the front, sorted by name.
        let ghost deps0 = deps@;
        let mut hoisted: Vec<PathValue> = Vec::new();
        let mut rest: Vec<PathValue> = Vec::new();
        let mut drest = deps;
        let ghost mut k: int = 0;
        proof {
            assert(deps0.skip(0) =~= deps0);
        }
        while drest.len() > 0
            invariant
                self.wf(),
                s == self.sym(),
                0 <= k,
                k + drest@.len() == deps0.len(),
                drest@ =~= deps0.skip(k),
                out_ok(s, deps0),
                forall|i: int| 0 <= i < hoisted@.len() ==> (#[trigger] hoisted@[i]@) is Enum,
                forall|i: int, j: int| 0 <= i < j < hoisted@.len()
                    ==> crate::text::lex_lt(out_names(hoisted@)[i], out_names(hoisted@)[j]),
                forall|i: int| 0 <= i < hoisted@.len()
                    ==> emits(s, model_name(#[trigger] hoisted@[i]@)) == Option::Some(hoisted@[i]@)
                        && out_names(deps0).take(k).contains(model_name(hoisted@[i]@)),
                forall|i: int| 0 <= i < rest@.len()
                    ==> !((#[trigger] rest@[i]@) is Enum)
                        && emits(s, model_name(rest@[i]@)) == Option::Some(rest@[i]@)
                        && out_names(deps0).take(k).contains(model_name(rest@[i]@)),
                forall|i: int, j: int| 0 <= i < j < rest@.len()
                    ==> model_name(rest@[i]@) != model_name(rest@[j]@),
                forall|n: Seq<char>|
                    out_names(deps0).take(k).contains(n) && emits(s, n) is Some
                    ==> out_names(hoisted@).contains(n) || #[trigger] out_names(rest@).contains(n),
                forall|i: int, j: int|
                    0 <= i < hoisted@.len() && 0 <= j < rest@.len()
                        ==> model_name(hoisted@[i]@) != model_name(rest@[j]@),
                hoisted@.len() + rest@.len() <= k,
                diags@.len() >= old(diags)@.len(),
                diags@.take(old(diags)@.len() as int) == old(diags)@,
                forall|n: Seq<char>|
                    #[trigger] out_names(deps0).take(k).contains(n)
                        && resolve_model(s, n) is Some
                        && resolve_model(s, n)->Some_0 is Specialization
                        && specialize_model(s, resolve_model(s, n)->Some_0->Specialization_0) is None
                        ==> specialize_failure_recorded(diags@, n),
            decreases drest@.len(),
        {
            let ghost d0 = drest@;
            let ghost diags_b = diags@;
            let dep = drest.remove(0);
            proof {
                assert(dep == d0[0]);
                assert(deps0.skip(k)[0] == deps0[k]);
                assert(dep == deps0[k]);
                assert(drest@ =~= deps0.skip(k + 1)) by {
                    assert forall|q: int| 0 <= q < drest@.len()
                        implies drest@[q] == deps0.skip(k + 1)[q] by {
                        assert(drest@[q] == d0[q + 1]);
                        assert(deps0.skip(k)[q + 1] == deps0[k + 1 + q]);
                        assert(deps0.skip(k + 1)[q] == deps0[k + 1 + q]);
                    }
                }
                assert(out_names(deps0)[k] == model_name(deps0[k]@));
                assert(resolve_model(s, out_names(deps0)[k]) == Option::Some(deps0[k]@));
            }
            let ghost dn = model_name(dep@);
            let ghost hoisted_b = hoisted@;
            let ghost rest_b = rest@;
            proof {
                // `dn` has not been placed yet: the collected names are
                // unique and every placed name came from an earlier index.
                if out_names(hoisted_b).contains(dn) {
                    let w = choose|w: int| 0 <= w < hoisted_b.len() && out_names(hoisted_b)[w] == dn;
                    assert(out_names(deps0).take(k).contains(dn));
                    let w2 = choose|w2: int| 0 <= w2 < k && out_names(deps0).take(k)[w2] == dn;
                    assert(out_names(deps0)[w2] == dn);
                    assert(false);
                }
                if out_names(rest_b).contains(dn) {
                    assert(out_names(deps0).take(k).contains(dn));
                    let w2 = choose|w2: int| 0 <= w2 < k && out_names(deps0).take(k)[w2] == dn;
                    assert(out_names(deps0)[w2] == dn);
                    assert(false);
                }
            }
            match dep {
                PathValue::Struct(st) => {
                    if st.generic_params.len() > 0 {
                        proof {
                            assert(st@.generic_params.len() > 0);
                            assert(emits(s, dn) is None);
                        }
                    } else {
                        proof {
                            assert(st@.generic_params.len() == 0);
                            assert(emits(s, dn) == Option::Some(PathValueModel::Struct(st@)));
                        }
                        rest.push(PathValue::Struct(st));
                        proof {
                            lemma_out_names_grow(rest_b, rest@);
                            assert(out_names(rest@)[rest_b.len() as int] == dn);
                        }
                    }
                },
                PathValue::Specialization(sp) => {
                    let subject = sp.name.clone();
                    match sp.specialize(self) {
                        Result::Ok(v) => {
                            proof {
                                assert(emits(s, dn) == Option::Some(v@));
                                assert(model_name(v@) == dn);
                            }
                            let is_enum = match &v {
                                PathValue::Enum(_) => true,
                                _ => false,
                            };
                            if is_enum {
                                insert_enum_sorted(&mut hoisted, v);
                            } else {
                                rest.push(v);
                                proof {
                                    lemma_out_names_grow(rest_b, rest@);
                                    assert(out_names(rest@)[rest_b.len() as int] == dn);
                                }
                            }
                        },
                        Result::Err(msg) => {
                            diags.push(Diag::SpecializeFailed { subject, message: msg });
                            proof {
                                assert(emits(s, dn) is None);
                                assert(diags@[diags@.len() - 1]@ is SpecializeFailed);
                                assert(diags@[diags@.len() - 1]@->SpecializeFailed_subject == dn);
                                assert(specialize_failure_recorded(diags@, dn));
                            }
                        },
                    }
                },
                PathValue::Enum(e) => {
                    proof {
                        assert(emits(s, dn) == Option::Some(PathValueModel::Enum(e@)));
                    }
                    insert_enum_sorted(&mut hoisted, PathValue::Enum(e));
                },
                PathValue::OpaqueStruct(o) => {
                    proof {
                        assert(emits(s, dn) == Option::Some(PathValueModel::OpaqueStruct(o@)));
                    }
                    rest.push(PathValue::OpaqueStruct(o));
                    proof {
                        lemma_out_names_grow(rest_b, rest@);
                        assert(out_names(rest@)[rest_b.len() as int] == dn);
                    }
                },
                PathValue::Typedef(td) => {
                    proof {
                        assert(emits(s, dn) == Option::Some(PathValueModel::Typedef(td@)));
                    }
                    rest.push(PathValue::Typedef(td));
                    proof {
                        lemma_out_names_grow(rest_b, rest@);
                        assert(out_names(rest@)[rest_b.len() as int] == dn);
                    }
                },
                PathValue::Prebuilt(p) => {
                    proof {
                        assert(emits(s, dn) == Option::Some(PathValueModel::Prebuilt(p@)));
                    }
                    rest.push(PathValue::Prebuilt(p));
                    proof {
                        lemma_out_names_grow(rest_b, rest@);
                        assert(out_names(rest@)[rest_b.len() as int] == dn);
                    }
                },
            }
            proof {
                assert(out_names(deps0).take(k + 1) =~= out_names(deps0).take(k).push(out_names(deps0)[k]));
                assert forall|i: int| 0 <= i < hoisted@.len()
                    implies (#[trigger] hoisted@[i]@) is Enum
                        && emits(s, model_name(hoisted@[i]@)) == Option::Some(hoisted@[i]@)
                        && out_names(deps0).take(k + 1).contains(model_name(hoisted@[i]@)) by {
                    if hoisted_b.contains(hoisted@[i]) {
                        let w = choose|w: int| 0 <= w < hoisted_b.len() && hoisted_b[w] == hoisted@[i];
                        assert(emits(s, model_name(hoisted_b[w]@)) == Option::Some(hoisted_b[w]@));
                        assert(out_names(deps0).take(k).contains(model_name(hoisted_b[w]@)));
                        lemma_take_grow(out_names(deps0), k, model_name(hoisted@[i]@));
                    } else {
                        assert(model_name(hoisted@[i]@) == dn);
                        assert(out_names(deps0).take(k + 1)[k] == dn);
                    }
                }
                assert forall|i: int| 0 <= i < rest@.len()
                    implies !((#[trigger] rest@[i]@) is Enum)
                        && emits(s, model_name(rest@[i]@)) == Option::Some(rest@[i]@)
                        && out_names(deps0).take(k + 1).contains(model_name(rest@[i]@)) by {
                    if i < rest_b.len() {
                        assert(rest@[i] == rest_b[i]);
                        lemma_take_grow(out_names(deps0), k, model_name(rest@[i]@));
                    } else {
                        assert(model_name(rest@[i]@) == dn);
                        assert(out_names(deps0).take(k + 1)[k] == dn);
                    }
                }
                assert forall|i: int, j: int| 0 <= i < j < rest@.len()
                    implies model_name(rest@[i]@) != model_name(rest@[j]@) by {
                    if j < rest_b.len() {
                        assert(rest@[i] == rest_b[i] && rest@[j] == rest_b[j]);
                    } else {
                        assert(rest@[i] == rest_b[i]);
                        assert(model_name(rest@[j]@) == dn);
                        assert(out_names(rest_b)[i] == model_name(rest_b[i]@));
                        assert(!out_names(rest_b).contains(dn));
                    }
                }
                assert forall|i: int, j: int|
                    0 <= i < hoisted@.len() && 0 <= j < rest@.len()
                    implies model_name(hoisted@[i]@) != model_name(rest@[j]@) by {
                    let hb = hoisted_b.contains(hoisted@[i]);
                    if hb && j < rest_b.len() {
                        let w = choose|w: int| 0 <= w < hoisted_b.len() && hoisted_b[w] == hoisted@[i];
                        assert(out_names(hoisted_b)[w] == model_name(hoisted_b[w]@));
                        assert(rest@[j] == rest_b[j]);
                    } else if hb {
                        let w = choose|w: int| 0 <= w < hoisted_b.len() && hoisted_b[w] == hoisted@[i];
                        assert(out_names(hoisted_b)[w] == model_name(hoisted_b[w]@));
                        assert(model_name(rest@[j]@) == dn);
                        assert(!out_names(hoisted_b).contains(dn));
                    } else {
                        assert(model_name(hoisted@[i]@) == dn);
                        if j < rest_b.len() {
                            assert(rest@[j] == rest_b[j]);
                            assert(out_names(rest_b)[j] == model_name(rest_b[j]@));
                            assert(!out_names(rest_b).contains(dn));
                        } else {
                            // both new: impossible, one arm changes one list
                            assert(model_name(rest@[j]@) == dn);
                            assert(false);
                        }
                    }
                }
                assert(diags@.take(diags_b.len() as int) =~= diags_b);
                assert(diags@.take(old(diags)@.len() as int) =~= diags_b.take(old(diags)@.len() as int));
                assert forall|n: Seq<char>|
                    #[trigger] out_names(deps0).take(k + 1).contains(n)
                        && resolve_model(s, n) is Some
                        && resolve_model(s, n)->Some_0 is Specialization
                        && specialize_model(s, resolve_model(s, n)->Some_0->Specialization_0) is None
                    implies specialize_failure_recorded(diags@, n) by {
                    if out_names(deps0).take(k).contains(n) {
                        let w = choose|w: int| 0 <= w < diags_b.len() && diags_b[w]@ is SpecializeFailed
                            && diags_b[w]@->SpecializeFailed_subject == n;
                        assert(diags@[w] == diags_b[w]) by {
                            assert(diags@.take(diags_b.len() as int)[w] == diags@[w]);
                        }
                    } else {
                        let w2 = choose|w2: int| 0 <= w2 < k + 1 && #[trigger] out_names(deps0).take(k + 1)[w2] == n;
                        assert(w2 == k) by {
                            if w2 < k {
                                assert(out_names(deps0).take(k)[w2] == n);
                            }
                        }
                        assert(n == dn);
                    }
                }
                assert forall|n: Seq<char>|
                    out_names(deps0).take(k + 1).contains(n) && emits(s, n) is Some
                    implies out_names(hoisted@).contains(n) || #[trigger] out_names(rest@).contains(n) by {
                    if out_names(deps0).take(k).contains(n) {
                        if out_names(hoisted_b).contains(n) {
                            if hoisted@.len() == hoisted_b.len() {
                                assert(hoisted@ == hoisted_b);
                            }
                        } else {
                            assert(out_names(rest_b).contains(n));
                            if rest@.len() == rest_b.len() {
                                assert(rest@ == rest_b);
                            } else {
                                let w = choose|w: int| 0 <= w < rest_b.len() && out_names(rest_b)[w] == n;
                                assert(rest@[w] == rest_b[w]);
                                assert(out_names(rest@)[w] == n);
                            }
                        }
                    } else {
                        let w = choose|w: int| 0 <= w < k + 1 && #[trigger] out_names(deps0).take(k + 1)[w] == n;
                        assert(w == k) by {
                            if w < k {
                                assert(out_names(deps0).take(k)[w] == n);
                            }
                        }
                        assert(n == dn);
                    }
                }
                k = k + 1;
            }
        }
        proof {
            assert(out_names(deps0).take(k) =~= out_names(deps0));
        }

        let ghost hseq = hoisted@;
        let ghost rseq = rest@;
        let mut items = hoisted;
        let mut rest2 = rest;
        items.append(&mut rest2);
        proof {
            assert(items@ == hseq + rseq);
        }

        // The exported functions, in the mapping's name order.
        let mut funcs: Vec<Function> = Vec::new();
        let mut gi: usize = 0;
        proof {
            self.functions.lemma_len();
        }
        while gi < flen
            invariant
                self.wf(),
                s == self.sym(),
                gi <= flen,
                flen == self.functions.spec_len(),
                flen == self.fn_list().len(),
                funcs@.len() == gi,
                forall|q: int| 0 <= q < gi ==> funcs@[q]@ == self.fn_list()[q],
            decreases flen - gi,
        {
            proof {
                self.functions.lemma_len();
            }
            let entry = self.functions.entry_at(gi);
            let f = entry.1.dup();
            funcs.push(f);
            gi = gi + 1;
        }

        let b = BuiltLibrary { items, functions: funcs };
        proof {
            assert(b.funs_model() =~= self.fn_list());
            let im = b.items_model();
            let hn = hseq.len() as int;
            assert(im.len() == hseq.len() + rseq.len());
            assert forall|i: int| 0 <= i < im.len()
                implies #[trigger] im[i] == (if i < hn { hseq[i]@ } else { rseq[i - hn]@ }) by {
                if i < hn {
                    assert((hseq + rseq)[i] == hseq[i]);
                } else {
                    assert((hseq + rseq)[i] == rseq[i - hn]);
                }
            }
            // every item is exactly what its name emits, and is no
            // specialization and no template
            assert forall|i: int| 0 <= i < im.len()
                implies emits(s, model_name(#[trigger] im[i])) == Option::Some(im[i])
                    && !(im[i] is Specialization)
                    && (im[i] is Struct ==> im[i]->Struct_0.generic_params.len() == 0) by {
                let n = model_name(im[i]);
                assert(emits(s, n) == Option::Some(im[i]));
                match resolve_model(s, n) {
                    Option::Some(PathValueModel::Specialization(sp2)) => {
                        match resolve_model(s, sp2.aliased) {
                            Option::Some(PathValueModel::Struct(_)) => {},
                            Option::Some(PathValueModel::Enum(_)) => {},
                            _ => {},
                        }
                    },
                    _ => {},
                }
            }
            assert(b.wf());
            // names unique across the whole list
            assert forall|i: int, j: int| 0 <= i < j < im.len()
                implies model_name(im[i]) != model_name(im[j]) by {
                if j < hn {
                    assert(out_names(hseq)[i] == model_name(hseq[i]@));
                    assert(out_names(hseq)[j] == model_name(hseq[j]@));
                    crate::text::lemma_lex_irreflexive(out_names(hseq)[i]);
                } else if i < hn {
                    assert(out_names(hseq)[i] == model_name(hseq[i]@));
                } else {
                }
            }
            // enums first, sorted
            assert(enum_hoisted(im)) by {
                assert forall|i: int, j: int|
                    0 <= i < j < im.len() && im[j] is Enum implies im[i] is Enum by {
                    assert(j < hn) by {
                        if j >= hn {
                            assert(!(rseq[j - hn]@ is Enum));
                        }
                    }
                }
                assert forall|i: int, j: int|
                    0 <= i < j < im.len() && im[i] is Enum && im[j] is Enum
                    implies crate::text::lex_lt(model_name(im[i]), model_name(im[j])) by {
                    assert(j < hn) by {
                        if j >= hn {
                            assert(!(rseq[j - hn]@ is Enum));
                        }
                    }
                    assert(out_names(hseq)[i] == model_name(hseq[i]@));
                    assert(out_names(hseq)[j] == model_name(hseq[j]@));
                }
            }
            // closure completeness for the exported functions
            assert forall|fi2: int, n: Seq<char>|
                0 <= fi2 < self.fn_list().len()
                    && #[trigger] crate::items::fn_dep_names(self.fn_list()[fi2]).contains(n)
                    && emits(s, n) is Some
                implies exists|i: int| 0 <= i < im.len()
                    && model_name(#[trigger] im[i]) == n by {
                lemma_fns_dep_names_contains(self.fn_list(), fi2, n);
                assert(names_view(names@).contains(n));
                let q = choose|q: int| 0 <= q < names_view(names@).len()
                    && names_view(names@)[q] == n;
                assert(resolve_model(s, n) is Some);
                assert(out_names(deps0).contains(n));
                assert(out_names(deps0).take(deps0.len() as int) =~= out_names(deps0));
                assert(out_names(deps0).take(k).contains(n));
                if out_names(hseq).contains(n) {
                    let w = choose|w: int| 0 <= w < hseq.len() && out_names(hseq)[w] == n;
                    assert(model_name(im[w]) == n);
                } else {
                    assert(out_names(rseq).contains(n));
                    let w = choose|w: int| 0 <= w < rseq.len() && out_names(rseq)[w] == n;
                    assert(model_name(im[hn + w]) == n);
                }
            }
            // every item is reachable from the exported functions'
            // referenced names: unreachable entities are pruned
            assert(names_view(names@) =~= fns_dep_names(self.fn_list()));
            assert forall|i2: int| 0 <= i2 < im.len()
                implies reachable(s, fns_dep_names(self.fn_list()),
                    model_name(#[trigger] im[i2])) by {
                let nm = model_name(im[i2]);
                if i2 < hn {
                    assert(im[i2] == hseq[i2]@);
                    assert(out_names(deps0).take(k).contains(model_name(hseq[i2]@)));
                } else {
                    assert(im[i2] == rseq[i2 - hn]@);
                    assert(out_names(deps0).take(k).contains(model_name(rseq[i2 - hn]@)));
                }
                assert(out_names(deps0).take(k) =~= out_names(deps0));
                assert(out_names(deps0).contains(nm));
                let w = choose|w: int| 0 <= w < deps0.len() && out_names(deps0)[w] == nm;
                assert(out_names(deps0)[w] == model_name(deps0[w]@));
                assert(reachable(s, names_view(names@), model_name(deps0[w]@)));
            }
            // with no exported functions, nothing is collected and
            // nothing is emitted
            if self.fn_list().len() == 0 {
                assert(fns_dep_names(self.fn_list()).len() == 0);
                assert(names_view(names@).len() == 0);
                assert(names@.len() == 0);
                assert(deps0.len() == 0);
                assert(im.len() == 0);
            }
            assert(out_names(deps0).take(k) =~= out_names(deps0));
            // a collected alias that cannot specialize left a record
            assert forall|fi2: int, n: Seq<char>|
                0 <= fi2 < self.fn_list().len()
                    && #[trigger] crate::items::fn_dep_names(self.fn_list()[fi2]).contains(n)
                    && resolve_model(s, n) is Some
                    && resolve_model(s, n)->Some_0 is Specialization
                    && specialize_model(s, resolve_model(s, n)->Some_0->Specialization_0) is None
                implies specialize_failure_recorded(diags@, n) by {
                lemma_fns_dep_names_contains(self.fn_list(), fi2, n);
                assert(names_view(names@).contains(n));
                assert(out_names(deps0).contains(n));
                assert(out_names(deps0).take(k).contains(n));
            }
            // the item list is closed under resolvable references of the
            // items that stand unchanged for their names
            assert forall|i2: int, n: Seq<char>|
                0 <= i2 < im.len()
                    && resolve_model(s, model_name(im[i2])) == Option::Some(im[i2])
                    && #[trigger] model_dep_names(im[i2]).contains(n)
                    && emits(s, n) is Some
                implies exists|j: int| 0 <= j < im.len()
                    && model_name(#[trigger] im[j]) == n by {
                let nm = model_name(im[i2]);
                if i2 < hn {
                    assert(im[i2] == hseq[i2]@);
                    assert(out_names(deps0).take(k).contains(model_name(hseq[i2]@)));
                } else {
                    assert(im[i2] == rseq[i2 - hn]@);
                    assert(out_names(deps0).take(k).contains(model_name(rseq[i2 - hn]@)));
                }
                assert(out_names(deps0).contains(nm));
                let w = choose|w: int| 0 <= w < deps0.len() && out_names(deps0)[w] == nm;
                assert(resolve_model(s, out_names(deps0)[w]) == Option::Some(deps0[w]@));
                assert(deps0[w]@ == im[i2]);
                assert(deps_present(s, deps0[w]@, out_names(deps0), Seq::empty()));
                assert(out_names(deps0).contains(n));
                assert(out_names(deps0).take(k).contains(n));
                if out_names(hseq).contains(n) {
                    let w2 = choose|w2: int| 0 <= w2 < hseq.len() && out_names(hseq)[w2] == n;
                    assert(model_name(im[w2]) == n);
                } else {
                    assert(out_names(rseq).contains(n));
                    let w2 = choose|w2: int| 0 <= w2 < rseq.len() && out_names(rseq)[w2] == n;
                    assert(model_name(im[hn + w2]) == n);
                }
            }
        }
        Result::Ok(b)
    }
}


// ---------------------------------------------------------------------
// laws of ingestion

/// Last write wins: ingesting two declarations with the same name that
/// route into the same collection leaves exactly the state reached by
/// ingesting only the second one; the overwritten entity is gone. (Two
/// same-name declarations that route differently — say one struct that
/// converts and one that falls back to an opaque placeholder — leave one
/// entity in each collection, and resolution precedence decides.)
pub proof fn lemma_last_write_wins(
    s: SymbolState,
    d1: DeclModel,
    d2: DeclModel,
    ignore: Seq<Seq<char>>,
)
    requires
        decl_name(d1) == decl_name(d2),
        route_of(d1, ignore) == route_of(d2, ignore),
        !(route_of(d1, ignore) is Dropped),
    ensures
        ingest_step(ingest_step(s, d1, ignore), d2, ignore) =~~= ingest_step(s, d2, ignore),
{
    let n = decl_name(d1);
    let s1 = ingest_step(s, d1, ignore);
    match route_of(d1, ignore) {
        Route::IntoFunctions => {
            assert(ingest_step(s1, d2, ignore).functions =~= ingest_step(s, d2, ignore).functions);
        },
        Route::IntoStructs => {
            assert(ingest_step(s1, d2, ignore).structs =~= ingest_step(s, d2, ignore).structs);
        },
        Route::IntoOpaqueStructs => {
            assert(ingest_step(s1, d2, ignore).opaque_structs =~= ingest_step(s, d2, ignore).opaque_structs);
        },
        Route::IntoEnums => {
            assert(ingest_step(s1, d2, ignore).enums =~= ingest_step(s, d2, ignore).enums);
        },
        Route::IntoSpecializations => {
            assert(ingest_step(s1, d2, ignore).specializations =~= ingest_step(s, d2, ignore).specializations);
        },
        Route::IntoTypedefs => {
            assert(ingest_step(s1, d2, ignore).typedefs =~= ingest_step(s, d2, ignore).typedefs);
        },
        Route::Dropped => {},
    }
}

/// Ignore-set exclusion: a declaration whose name is in the ignore set
/// changes no collection and produces no record.
pub proof fn lemma_ignored_decl(s: SymbolState, m: Seq<char>, d: DeclModel, ignore: Seq<Seq<char>>)
    requires
        ignore.contains(decl_name(d)),
    ensures
        ingest_step(s, d, ignore) == s,
        ingest_diags(m, d, ignore) =~= Seq::<DiagModel>::empty(),
{
}

} // verus!
