use strata::ast::{ExternFnDecl, FnDecl, Item};
use strata::effects::CapKind;
use strata::host::ParamKind;
use strata::parser::parse_str;
use strata::runtime::{extern_fn_meta, first_duplicate, main_cap_args};
use strata::scope::Env;

fn extern_decl(src: &str) -> ExternFnDecl {
    let mut m = parse_str("<test>", src).expect("parse ok");
    match m.items.remove(0) {
        Item::ExternFn(d) => d,
        _ => panic!("expected extern fn"),
    }
}

fn fn_decl(src: &str) -> FnDecl {
    let mut m = parse_str("<test>", src).expect("parse ok");
    match m.items.remove(0) {
        Item::Fn(d) => d,
        _ => panic!("expected fn"),
    }
}

#[test]
fn extern_params_split_into_caps_and_data() {
    let d = extern_decl("extern fn write_file(fs: FsCap, path: String, content: String) -> () & {Fs};");
    let meta = extern_fn_meta(&d);
    assert_eq!(meta.params.len(), 3);
    assert!(matches!(meta.params[0], ParamKind::Cap { kind: CapKind::Fs, borrowed: false }));
    assert!(matches!(&meta.params[1], ParamKind::Data { name } if name == "path"));
    assert!(matches!(&meta.params[2], ParamKind::Data { name } if name == "content"));
}

#[test]
fn unannotated_and_unknown_types_are_data() {
    let d = extern_decl("extern fn f(a, b: Int, c: Option<FsCap>, d: TimeCap);");
    let meta = extern_fn_meta(&d);
    assert!(matches!(&meta.params[0], ParamKind::Data { name } if name == "a"));
    assert!(matches!(&meta.params[1], ParamKind::Data { name } if name == "b"));
    assert!(matches!(&meta.params[2], ParamKind::Data { name } if name == "c"));
    assert!(matches!(meta.params[3], ParamKind::Cap { kind: CapKind::Time, borrowed: false }));
}

#[test]
fn main_gets_one_capability_per_capability_parameter() {
    let d = fn_decl("fn main(fs: FsCap, n: Int, net: NetCap) -> Int { 1 }");
    assert_eq!(main_cap_args(&d), vec![CapKind::Fs, CapKind::Net]);
    let d = fn_decl("fn main() -> Int { 1 }");
    assert!(main_cap_args(&d).is_empty());
}

#[test]
fn first_repeated_name_is_reported() {
    let names: Vec<String> = vec!["a".into(), "b".into(), "c".into()];
    assert_eq!(first_duplicate(&names), None);
    let names: Vec<String> = vec!["a".into(), "b".into(), "b".into(), "a".into()];
    assert_eq!(first_duplicate(&names), Some("b".to_string()));
    let names: Vec<String> = vec![];
    assert_eq!(first_duplicate(&names), None);
}

#[test]
fn outermost_scope_is_listed_read_and_extended() {
    let mut env: Env<i64> = Env::new();
    env.define("f".to_string(), 1, true);
    env.define("g".to_string(), 2, false);
    env.push_scope();
    env.define("local".to_string(), 3, false);
    let mut names = env.global_names();
    names.sort();
    assert_eq!(names, vec!["f".to_string(), "g".to_string()]);
    assert_eq!(env.global_get("g"), Some(&2));
    assert_eq!(env.global_get("local"), None);
    env.define_global("h".to_string(), 4, false);
    assert_eq!(env.global_get("h"), Some(&4));
    assert_eq!(env.get("h"), Some(&4));
    env.pop_scope().unwrap();
    assert_eq!(env.get("h"), Some(&4));
}
