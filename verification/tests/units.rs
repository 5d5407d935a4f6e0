use header_gen::items::{PathValue, Prebuilt};
use header_gen::library::{Config, Decl, Diag, Library};
use header_gen::text::str_lt;
use header_gen::ty::Ty;

fn s(x: &str) -> String {
    x.to_string()
}

fn prim(x: &str) -> Ty {
    Ty::Primitive(s(x))
}

fn path(x: &str) -> Ty {
    Ty::Path(s(x), Vec::new())
}

fn blank_config() -> Config {
    Config { file_header: None, file_autogen_warning: None, file_trailer: None }
}

fn fn_decl(name: &str, args: Vec<(String, Ty)>, ret: Ty) -> Decl {
    Decl::Fn {
        name: s(name),
        no_mangle: true,
        abi_c: true,
        destructor_safe: false,
        sig: Some((args, ret)),
    }
}

#[test]
fn lexicographic_string_order() {
    assert!(str_lt("ab", "b"));
    assert!(str_lt("", "a"));
    assert!(!str_lt("a", ""));
    assert!(!str_lt("same", "same"));
    assert!(str_lt("Alpha", "Color"));
    assert!(str_lt("Zeta", "a"));
}

#[test]
fn large_discriminants_render_in_decimal() {
    let decls = vec![
        (
            s("m"),
            Decl::Enum {
                name: s("Big"),
                has_generics: false,
                repr_u32: true,
                variants: Some(vec![(s("Huge"), 4000000000), (s("Zero"), 0)]),
            },
        ),
        (s("m"), fn_decl("big", vec![(s("b"), path("Big"))], prim("void"))),
    ];
    let config = blank_config();
    let mut diags: Vec<Diag> = Vec::new();
    let library = Library::load(decls, &config, Vec::new(), Vec::new(), &mut diags);
    let built = library.build(&config, &mut diags).unwrap();
    let out = built.write(&config);
    assert_eq!(out, "\nenum Big {\n  Huge = 4000000000,\n  Zero = 0,\n};\n\nvoid big(Big b);\n");
}

#[test]
fn nested_generic_arguments_substitute() {
    // A template whose field nests the parameter inside another path and
    // behind a pointer: substitution reaches both occurrences.
    let decls = vec![
        (
            s("m"),
            Decl::Struct {
                name: s("Holder"),
                repr_c: true,
                generic_params: vec![s("T")],
                fields: Some(vec![
                    (s("boxed"), Ty::Path(s("Rc"), vec![path("T")])),
                    (s("raw"), Ty::Ptr(Box::new(path("T")))),
                ]),
            },
        ),
        (
            s("m"),
            Decl::Alias {
                name: s("FloatHolder"),
                has_generics: false,
                ty: Some(Ty::Path(s("Holder"), vec![prim("F32")])),
            },
        ),
        (s("m"), fn_decl("hold", vec![(s("h"), path("FloatHolder"))], prim("void"))),
    ];
    let config = blank_config();
    let mut diags: Vec<Diag> = Vec::new();
    let library = Library::load(decls, &config, Vec::new(), Vec::new(), &mut diags);
    let built = library.build(&config, &mut diags).unwrap();
    let out = built.write(&config);
    assert_eq!(
        out,
        "\nstruct FloatHolder {\n  Rc<F32> boxed;\n  F32* raw;\n};\n\nvoid hold(FloatHolder h);\n"
    );
}

#[test]
fn typedef_renders_and_pulls_its_target() {
    let decls = vec![
        (
            s("m"),
            Decl::Struct {
                name: s("Inner"),
                repr_c: true,
                generic_params: Vec::new(),
                fields: Some(vec![(s("x"), prim("Int32"))]),
            },
        ),
        (s("m"), Decl::Alias { name: s("Alias"), has_generics: false, ty: Some(path("Inner")) }),
        (s("m"), fn_decl("use_alias", vec![(s("a"), path("Alias"))], prim("void"))),
    ];
    let config = blank_config();
    let mut diags: Vec<Diag> = Vec::new();
    let library = Library::load(decls, &config, Vec::new(), Vec::new(), &mut diags);
    let built = library.build(&config, &mut diags).unwrap();
    let out = built.write(&config);
    assert_eq!(
        out,
        "\nstruct Inner {\n  Int32 x;\n};\n\ntypedef Inner Alias;\n\nvoid use_alias(Alias a);\n"
    );
}

#[test]
fn destructor_safe_functions_carry_the_marker() {
    let decls = vec![(
        s("m"),
        Decl::Fn {
            name: s("drop_it"),
            no_mangle: true,
            abi_c: true,
            destructor_safe: true,
            sig: Some((vec![(s("x"), prim("Int32"))], prim("void"))),
        },
    )];
    let config = blank_config();
    let mut diags: Vec<Diag> = Vec::new();
    let library = Library::load(decls, &config, Vec::new(), Vec::new(), &mut diags);
    let built = library.build(&config, &mut diags).unwrap();
    let out = built.write(&config);
    assert_eq!(out, "\nvoid drop_it(Int32 x) WR_DESTRUCTOR_SAFE_FUNC;\n");
}

#[test]
fn functions_emit_in_name_order() {
    let decls = vec![
        (s("m"), fn_decl("zeta", Vec::new(), prim("void"))),
        (s("m"), fn_decl("alpha", Vec::new(), prim("void"))),
    ];
    let config = blank_config();
    let mut diags: Vec<Diag> = Vec::new();
    let library = Library::load(decls, &config, Vec::new(), Vec::new(), &mut diags);
    let built = library.build(&config, &mut diags).unwrap();
    let out = built.write(&config);
    assert_eq!(out, "\nvoid alpha();\n\nvoid zeta();\n");
}

#[test]
fn resolve_prefers_prebuilt_over_enum() {
    let decls = vec![(
        s("m"),
        Decl::Enum {
            name: s("Clash"),
            has_generics: false,
            repr_u32: true,
            variants: Some(vec![(s("A"), 0)]),
        },
    )];
    let config = blank_config();
    let mut diags: Vec<Diag> = Vec::new();
    let prebuilts = vec![Prebuilt::new(s("Clash"), s("/* hand written */"))];
    let library = Library::load(decls, &config, prebuilts, Vec::new(), &mut diags);
    let resolved = library.resolve_path(&s("Clash")).unwrap();
    match resolved {
        PathValue::Prebuilt(p) => assert_eq!(p.source, "/* hand written */"),
        _ => panic!("precedence must pick the prebuilt"),
    }
}

#[test]
fn add_deps_collects_dependencies_before_dependents() {
    let decls = vec![
        (
            s("m"),
            Decl::Struct {
                name: s("Leaf"),
                repr_c: true,
                generic_params: Vec::new(),
                fields: Some(vec![(s("x"), prim("Int32"))]),
            },
        ),
        (
            s("m"),
            Decl::Struct {
                name: s("Tree"),
                repr_c: true,
                generic_params: Vec::new(),
                fields: Some(vec![(s("l"), path("Leaf"))]),
            },
        ),
    ];
    let config = blank_config();
    let mut diags: Vec<Diag> = Vec::new();
    let library = Library::load(decls, &config, Vec::new(), Vec::new(), &mut diags);
    let mut out: Vec<PathValue> = Vec::new();
    library.add_deps_for_path(&s("Tree"), &mut out, &mut diags);
    let names: Vec<String> = out.iter().map(|v| v.name().clone()).collect();
    assert_eq!(names, vec![s("Leaf"), s("Tree")]);
}

#[test]
fn mutually_referential_structs_both_emit() {
    // A true cycle: each struct holds a pointer to the other. The
    // collector breaks the cycle instead of recursing forever.
    let decls = vec![
        (
            s("m"),
            Decl::Struct {
                name: s("A"),
                repr_c: true,
                generic_params: Vec::new(),
                fields: Some(vec![(s("b"), Ty::Ptr(Box::new(path("B"))))]),
            },
        ),
        (
            s("m"),
            Decl::Struct {
                name: s("B"),
                repr_c: true,
                generic_params: Vec::new(),
                fields: Some(vec![(s("a"), Ty::Ptr(Box::new(path("A"))))]),
            },
        ),
        (s("m"), fn_decl("cycle", vec![(s("a"), path("A"))], prim("void"))),
    ];
    let config = blank_config();
    let mut diags: Vec<Diag> = Vec::new();
    let library = Library::load(decls, &config, Vec::new(), Vec::new(), &mut diags);
    let built = library.build(&config, &mut diags).unwrap();
    let out = built.write(&config);
    assert!(out.contains("struct A {\n  B* b;\n};"));
    assert!(out.contains("struct B {\n  A* a;\n};"));
    assert_eq!(out.matches("struct A {").count(), 1);
    assert_eq!(out.matches("struct B {").count(), 1);
}

#[test]
fn non_exported_functions_are_dropped() {
    let decls = vec![
        (
            s("m"),
            Decl::Fn {
                name: s("internal"),
                no_mangle: false,
                abi_c: true,
                destructor_safe: false,
                sig: Some((Vec::new(), prim("void"))),
            },
        ),
        (
            s("m"),
            Decl::Fn {
                name: s("mangled"),
                no_mangle: true,
                abi_c: false,
                destructor_safe: false,
                sig: Some((Vec::new(), prim("void"))),
            },
        ),
        (
            s("m"),
            Decl::Fn {
                name: s("bad_sig"),
                no_mangle: true,
                abi_c: true,
                destructor_safe: false,
                sig: None,
            },
        ),
    ];
    let config = blank_config();
    let mut diags: Vec<Diag> = Vec::new();
    let library = Library::load(decls, &config, Vec::new(), Vec::new(), &mut diags);
    let built = library.build(&config, &mut diags).unwrap();
    let out = built.write(&config);
    assert_eq!(out, "");
    let skipped = diags.iter().any(|d| match d {
        Diag::Skipped { subject, .. } => subject == "bad_sig",
        _ => false,
    });
    assert!(skipped);
}

#[test]
fn generic_enum_declarations_are_rejected() {
    let decls = vec![
        (
            s("m"),
            Decl::Enum {
                name: s("Poly"),
                has_generics: true,
                repr_u32: true,
                variants: Some(vec![(s("A"), 0)]),
            },
        ),
        (
            s("m"),
            Decl::Enum {
                name: s("Untagged"),
                has_generics: false,
                repr_u32: false,
                variants: Some(vec![(s("A"), 0)]),
            },
        ),
        (s("m"), fn_decl("f", vec![(s("p"), path("Poly")), (s("u"), path("Untagged"))], prim("void"))),
    ];
    let config = blank_config();
    let mut diags: Vec<Diag> = Vec::new();
    let library = Library::load(decls, &config, Vec::new(), Vec::new(), &mut diags);
    let built = library.build(&config, &mut diags).unwrap();
    let out = built.write(&config);
    assert_eq!(out, "\nvoid f(Poly p, Untagged u);\n");
}

#[test]
fn later_prebuilt_wins() {
    let decls = vec![(
        s("m"),
        fn_decl("touch", vec![(s("w"), path("Widget"))], prim("void")),
    )];
    let config = blank_config();
    let mut diags: Vec<Diag> = Vec::new();
    let prebuilts = vec![
        Prebuilt::new(s("Widget"), s("/* first */")),
        Prebuilt::new(s("Widget"), s("/* second */")),
    ];
    let library = Library::load(decls, &config, prebuilts, Vec::new(), &mut diags);
    let built = library.build(&config, &mut diags).unwrap();
    let out = built.write(&config);
    assert_eq!(out, "\n/* second */\n\nvoid touch(Widget w);\n");
}

#[test]
fn acceptance_is_recorded() {
    let decls = vec![
        (s("mod_a"), fn_decl("go", Vec::new(), prim("void"))),
        (
            s("mod_b"),
            Decl::Struct {
                name: s("Plain"),
                repr_c: false,
                generic_params: Vec::new(),
                fields: None,
            },
        ),
    ];
    let config = blank_config();
    let mut diags: Vec<Diag> = Vec::new();
    let _ = Library::load(decls, &config, Vec::new(), Vec::new(), &mut diags);
    assert_eq!(diags.len(), 2);
    match &diags[0] {
        Diag::Accepted { module, subject } => {
            assert_eq!(module, "mod_a");
            assert_eq!(subject, "go");
        }
        _ => panic!("the exported function must be recorded as accepted"),
    }
    match &diags[1] {
        Diag::AcceptedOpaque { module, subject, .. } => {
            assert_eq!(module, "mod_b");
            assert_eq!(subject, "Plain");
        }
        _ => panic!("an untagged struct must be recorded as accepted opaque"),
    }
}

#[test]
fn unrepresentable_alias_is_skipped_with_reason() {
    let decls = vec![
        (s("m"), Decl::Alias { name: s("Weird"), has_generics: false, ty: None }),
        (s("m"), fn_decl("f", vec![(s("w"), path("Weird"))], prim("void"))),
    ];
    let config = blank_config();
    let mut diags: Vec<Diag> = Vec::new();
    let library = Library::load(decls, &config, Vec::new(), Vec::new(), &mut diags);
    let built = library.build(&config, &mut diags).unwrap();
    let out = built.write(&config);
    assert_eq!(out, "\nvoid f(Weird w);\n");
    let skipped = diags.iter().any(|d| match d {
        Diag::Skipped { subject, reason, .. } => {
            subject == "Weird" && *reason == header_gen::library::DiagReason::AliasUnsupported
        }
        _ => false,
    });
    assert!(skipped);
}
