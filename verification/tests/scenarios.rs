use header_gen::items::Prebuilt;
use header_gen::library::{Config, Decl, Diag, Library};
use header_gen::ty::Ty;

fn s(x: &str) -> String {
    x.to_string()
}

fn prim(x: &str) -> Ty {
    Ty::Primitive(s(x))
}

fn path(x: &str) -> Ty {
    Ty::Path(s(x), Vec::new())
}

fn blank_config() -> Config {
    Config { file_header: None, file_autogen_warning: None, file_trailer: None }
}

fn fn_decl(name: &str, args: Vec<(String, Ty)>, ret: Ty) -> Decl {
    Decl::Fn {
        name: s(name),
        no_mangle: true,
        abi_c: true,
        destructor_safe: false,
        sig: Some((args, ret)),
    }
}

fn load_and_write(
    decls: Vec<(String, Decl)>,
    prebuilts: Vec<Prebuilt>,
    ignore: Vec<String>,
) -> (String, Vec<Diag>) {
    let config = blank_config();
    let mut diags: Vec<Diag> = Vec::new();
    let library = Library::load(decls, &config, prebuilts, ignore, &mut diags);
    let built = library.build(&config, &mut diags).unwrap();
    (built.write(&config), diags)
}

#[test]
fn exported_function_alone() {
    let decls = vec![(
        s("m"),
        fn_decl("add", vec![(s("a"), prim("Int32")), (s("b"), prim("Int32"))], prim("Int32")),
    )];
    let (out, _) = load_and_write(decls, Vec::new(), Vec::new());
    assert_eq!(out, "\nInt32 add(Int32 a, Int32 b);\n");
}

#[test]
fn unreachable_struct_is_pruned() {
    let decls = vec![(
        s("m"),
        Decl::Struct {
            name: s("Point"),
            repr_c: true,
            generic_params: Vec::new(),
            fields: Some(vec![(s("x"), prim("Int32")), (s("y"), prim("Int32"))]),
        },
    )];
    let (out, _) = load_and_write(decls, Vec::new(), Vec::new());
    assert_eq!(out, "");
}

#[test]
fn alias_specializes_template() {
    let decls = vec![
        (
            s("m"),
            Decl::Struct {
                name: s("Pair"),
                repr_c: true,
                generic_params: vec![s("T")],
                fields: Some(vec![(s("first"), path("T")), (s("second"), path("T"))]),
            },
        ),
        (
            s("m"),
            Decl::Alias {
                name: s("IntPair"),
                has_generics: false,
                ty: Some(Ty::Path(s("Pair"), vec![prim("Int32")])),
            },
        ),
        (
            s("m"),
            fn_decl(
                "make_pair",
                vec![(s("a"), prim("Int32")), (s("b"), prim("Int32"))],
                path("IntPair"),
            ),
        ),
    ];
    let (out, _) = load_and_write(decls, Vec::new(), Vec::new());
    assert_eq!(
        out,
        "\nstruct IntPair {\n  Int32 first;\n  Int32 second;\n};\n\nIntPair make_pair(Int32 a, Int32 b);\n"
    );
    assert!(!out.contains("struct Pair"));
}

#[test]
fn unsupported_fields_fall_back_to_opaque() {
    let decls = vec![
        (
            s("m"),
            Decl::Struct {
                name: s("Gadget"),
                repr_c: true,
                generic_params: Vec::new(),
                fields: None,
            },
        ),
        (s("m"), fn_decl("poke", vec![(s("g"), path("Gadget"))], prim("void"))),
    ];
    let (out, _) = load_and_write(decls, Vec::new(), Vec::new());
    assert_eq!(out, "\nstruct Gadget;\n\nvoid poke(Gadget g);\n");
}

#[test]
fn prebuilt_overrides_derived_entity() {
    let decls = vec![
        (
            s("m"),
            Decl::Struct {
                name: s("Widget"),
                repr_c: true,
                generic_params: Vec::new(),
                fields: Some(vec![(s("raw"), prim("Int32"))]),
            },
        ),
        (s("m"), fn_decl("poke", vec![(s("w"), path("Widget"))], prim("void"))),
    ];
    let prebuilts = vec![Prebuilt::new(s("Widget"), s("typedef uint32_t Widget;"))];
    let (out, _) = load_and_write(decls, prebuilts, Vec::new());
    assert_eq!(out, "\ntypedef uint32_t Widget;\n\nvoid poke(Widget w);\n");
    assert!(!out.contains("struct Widget"));
}

#[test]
fn enums_hoist_to_the_front_sorted() {
    let decls = vec![
        (
            s("m"),
            Decl::Enum {
                name: s("Color"),
                has_generics: false,
                repr_u32: true,
                variants: Some(vec![(s("Red"), 0), (s("Green"), 1)]),
            },
        ),
        (
            s("m"),
            Decl::Enum {
                name: s("Alpha"),
                has_generics: false,
                repr_u32: true,
                variants: Some(vec![(s("Opaque"), 7)]),
            },
        ),
        (
            s("m"),
            Decl::Struct {
                name: s("Style"),
                repr_c: true,
                generic_params: Vec::new(),
                fields: Some(vec![(s("c"), path("Color")), (s("a"), path("Alpha"))]),
            },
        ),
        (s("m"), fn_decl("style", vec![(s("st"), path("Style"))], prim("void"))),
    ];
    let (out, _) = load_and_write(decls, Vec::new(), Vec::new());
    assert_eq!(
        out,
        "\nenum Alpha {\n  Opaque = 7,\n};\n\nenum Color {\n  Red = 0,\n  Green = 1,\n};\n\nstruct Style {\n  Color c;\n  Alpha a;\n};\n\nvoid style(Style st);\n"
    );
}

#[test]
fn later_declaration_wins() {
    let decls = vec![
        (
            s("m1"),
            Decl::Enum {
                name: s("Mode"),
                has_generics: false,
                repr_u32: true,
                variants: Some(vec![(s("Old"), 0)]),
            },
        ),
        (
            s("m2"),
            Decl::Enum {
                name: s("Mode"),
                has_generics: false,
                repr_u32: true,
                variants: Some(vec![(s("New"), 1)]),
            },
        ),
        (s("m"), fn_decl("mode", vec![(s("x"), path("Mode"))], prim("void"))),
    ];
    let (out, _) = load_and_write(decls, Vec::new(), Vec::new());
    assert_eq!(out, "\nenum Mode {\n  New = 1,\n};\n\nvoid mode(Mode x);\n");
}

#[test]
fn ignored_name_never_appears_and_warns() {
    let decls = vec![
        (
            s("m"),
            Decl::Struct {
                name: s("Hidden"),
                repr_c: true,
                generic_params: Vec::new(),
                fields: Some(vec![(s("x"), prim("Int32"))]),
            },
        ),
        (s("m"), fn_decl("touch", vec![(s("h"), path("Hidden"))], prim("void"))),
    ];
    let (out, diags) = load_and_write(decls, Vec::new(), vec![s("Hidden")]);
    assert_eq!(out, "\nvoid touch(Hidden h);\n");
    assert!(!out.contains("struct Hidden"));
    let warned = diags.iter().any(|d| match d {
        Diag::UnresolvedName { subject } => subject == "Hidden",
        _ => false,
    });
    assert!(warned);
}

#[test]
fn banner_blocks_wrap_the_output() {
    let config = Config {
        file_header: Some(s("// my header")),
        file_autogen_warning: Some(s("/* generated */")),
        file_trailer: Some(s("// end")),
    };
    let decls = vec![(s("m"), fn_decl("noop", Vec::new(), prim("void")))];
    let mut diags: Vec<Diag> = Vec::new();
    let library = Library::load(decls, &config, Vec::new(), Vec::new(), &mut diags);
    let built = library.build(&config, &mut diags).unwrap();
    let out = built.write(&config);
    assert_eq!(
        out,
        "// my header\n\n/* generated */\n\n/* generated */\n\nvoid noop();\n\n/* generated */\n\n// end\n"
    );
}

#[test]
fn wrong_arity_alias_is_omitted() {
    let decls = vec![
        (
            s("m"),
            Decl::Struct {
                name: s("Pair"),
                repr_c: true,
                generic_params: vec![s("T")],
                fields: Some(vec![(s("first"), path("T"))]),
            },
        ),
        (
            s("m"),
            Decl::Alias {
                name: s("Odd"),
                has_generics: false,
                ty: Some(Ty::Path(s("Pair"), vec![prim("Int32"), prim("Int64")])),
            },
        ),
        (s("m"), fn_decl("odd", vec![(s("x"), path("Odd"))], prim("void"))),
    ];
    let (out, diags) = load_and_write(decls, Vec::new(), Vec::new());
    assert_eq!(out, "\nvoid odd(Odd x);\n");
    let failed = diags.iter().any(|d| match d {
        Diag::SpecializeFailed { subject, .. } => subject == "Odd",
        _ => false,
    });
    assert!(failed);
}
