use codespace::{Codespace, FilePath, Mod, Visibility};
use proc_macro2::TokenStream;

fn code(text: &str) -> TokenStream {
    text.parse().unwrap()
}

fn stream(m: Mod) -> String {
    let mut cs = Codespace::default();
    *cs.get_root_mod() = m;
    cs.into_stream().to_string()
}

fn files(cs: Codespace) -> Vec<(String, String)> {
    let all: Vec<(FilePath, TokenStream)> = cs.into_files();
    all.iter().map(|entry| (entry.0.to_text(), entry.1.to_string())).collect()
}

fn of(items: &[(&str, &str)]) -> Mod {
    let mut cs = Codespace::default();
    for (path, text) in items {
        cs.add_item(path, code(text));
    }
    cs.into_root_mod()
}

#[test]
fn items_are_read_back_where_they_were_added() {
    assert_eq!(
        stream(of(&[("a::b::k", "1"), ("a::k", "2"), ("k", "3"), ("a::b::k", "4")])),
        "3 pub mod a { 2 pub mod b { 1 4 } }"
    );
}

#[test]
fn adding_an_item_keeps_metadata() {
    let mut m = Mod::default();
    m.get_mod("a").set_visibility(Visibility::Private);
    m.get_mod("a").add_attr(code("x"));
    let mut cs = Codespace::default();
    *cs.get_root_mod() = m;
    cs.add_item("a::b::k", code("1"));
    assert_eq!(cs.into_stream().to_string(), "# [x] mod a { pub mod b { 1 } }");
}

#[test]
fn items_at_one_path_accumulate() {
    assert_eq!(
        stream(of(&[("a::k", "1"), ("a::k", "2 3")])),
        stream(of(&[("a::k", "1 2 3")]))
    );
}

#[test]
fn items_at_different_paths_commute() {
    let pairs = [("a::b", "1"), ("a", "2"), ("a::b::c", "3"), ("z", "4")];
    let forth = stream(of(&pairs));
    let mut back = pairs;
    back.reverse();
    assert_eq!(forth, stream(of(&back)));
    assert_eq!(forth, "2 4 pub mod a { 1 pub mod b { 3 } }");
}

#[test]
fn a_path_without_separator_is_a_key_of_the_root() {
    let mut m = Mod::default();
    m.add_item("a:b", code("1"));
    assert_eq!(stream(of(&[("a:b", "1")])), stream(m));
}

#[test]
fn getting_a_module_twice_gives_the_same() {
    let mut m = Mod::default();
    m.get_mod("a").add_item("k", code("1"));
    m.get_mod("a").add_item("k", code("2"));
    m.get_mod("a");
    assert_eq!(stream(m), "pub mod a { 1 2 }");
}

#[test]
fn replacing_a_module_returns_what_it_replaces() {
    let mut m = Mod::default();
    assert!(m.replace_mod("a", of(&[("k", "1")])).is_none());
    let previous = m.replace_mod("a", of(&[("k", "2")])).unwrap();
    assert_eq!(stream(previous), "1");
    assert_eq!(stream(m), "pub mod a { 2 }");
}

#[test]
fn added_modules_keep_their_items() {
    let mut m = of(&[("a::k", "1"), ("k", "2")]);
    m.add_mod("a", of(&[("k", "3"), ("b::k", "4")]));
    m.add_mod("c", of(&[("k", "5")]));
    assert_eq!(stream(m), "2 pub mod a { 1 3 pub mod b { 4 } } pub mod c { 5 }");
}

#[test]
fn an_added_module_keeps_its_visibility_if_it_is_new() {
    let mut hidden = Mod::default();
    hidden.set_visibility(Visibility::Private);
    let mut m = Mod::default();
    m.add_mod("a", hidden);
    let mut hidden = Mod::default();
    hidden.set_visibility(Visibility::Private);
    m.get_mod("b");
    m.add_mod("b", hidden);
    assert_eq!(stream(m), "mod a { } pub mod b { }");
}

#[test]
fn merging_with_an_empty_module() {
    let mut a = of(&[("k", "1"), ("m::k", "2")]);
    a.merge(Mod::default());
    assert_eq!(stream(a), "1 pub mod m { 2 }");
    let mut b = Mod::default();
    b.merge(of(&[("k", "1"), ("m::k", "2")]));
    assert_eq!(stream(b), "1 pub mod m { 2 }");
}

#[test]
fn merging_is_associative() {
    let a = || of(&[("k", "1"), ("m::k", "2")]);
    let b = || of(&[("k", "3"), ("n::k", "4")]);
    let c = || of(&[("m::k", "5"), ("n::k", "6"), ("k", "7")]);
    let mut left = a();
    left.merge(b());
    left.merge(c());
    let mut tail = b();
    tail.merge(c());
    let mut right = a();
    right.merge(tail);
    let out = stream(left);
    assert_eq!(out, "1 3 7 pub mod m { 2 5 } pub mod n { 4 6 }");
    assert_eq!(out, stream(right));
}

#[test]
fn merging_one_item_adds_it() {
    let mut a = of(&[("k", "1")]);
    a.merge(of(&[("k", "2")]));
    assert_eq!(stream(a), stream(of(&[("k", "1"), ("k", "2")])));
    let mut doc = Mod::default();
    doc.add_docs("x");
    doc.add_attr(code("y"));
    let mut b = Mod::default();
    b.merge(doc);
    assert_eq!(stream(b), "# ! [doc = \"x\"] # ! [y]");
}

#[test]
fn keys_and_names_are_in_order() {
    assert_eq!(
        stream(of(&[("b", "2"), ("a", "1"), ("C", "0"), ("y::k", "4"), ("X::k", "3"), ("ya::k", "5")])),
        "0 1 2 pub mod X { 3 } pub mod y { 4 } pub mod ya { 5 }"
    );
}

#[test]
fn root_visibility_is_not_rendered() {
    let build = |vis| {
        let mut cs = Codespace::default();
        cs.add_item("a::k", code("1"));
        cs.get_root_mod().set_visibility(vis);
        cs
    };
    assert_eq!(
        build(Visibility::Private).into_stream().to_string(),
        build(Visibility::Pub).into_stream().to_string()
    );
    assert_eq!(files(build(Visibility::Crate)), files(build(Visibility::Pub)));
}

#[test]
fn keys_are_not_emitted() {
    assert_eq!(
        stream(of(&[("first", "1"), ("second", "2")])),
        stream(of(&[("#", "1"), ("~", "2")]))
    );
}

#[test]
fn keys_are_not_emitted_below_the_root() {
    let build = |one: &str, two: &str| {
        let mut cs = Codespace::default();
        cs.add_item(&format!("m::n::{one}"), code("1"));
        cs.add_item(&format!("m::n::{two}"), code("2"));
        cs.get_root_mod().get_mod("m").add_docs("M.");
        cs
    };
    assert_eq!(
        build("a", "b").into_stream().to_string(),
        build("#", "~ ~").into_stream().to_string()
    );
    assert_eq!(files(build("a", "b")), files(build("", "\u{e9}")));
}

#[test]
fn a_leaf_is_the_same_in_a_stream_and_in_a_file() {
    let mut cs = Codespace::default();
    cs.add_item("b", code("2"));
    cs.add_item("a", code("1"));
    assert_eq!(files(cs), [("lib.rs".to_string(), "1 2".to_string())]);
    assert_eq!(stream(of(&[("b", "2"), ("a", "1")])), "1 2");
}

#[test]
fn each_module_has_a_file_of_its_own() {
    let mut cs = Codespace::default();
    for path in ["k", "a::k", "a::a::k", "a::a::a::k", "b::k"] {
        cs.add_item(path, code("1"));
    }
    let expected = [
        ("a/a/a.rs", "1"),
        ("a/a/mod.rs", "pub mod a ; 1"),
        ("a/mod.rs", "pub mod a ; 1"),
        ("b.rs", "1"),
        ("lib.rs", "pub mod a ; pub mod b ; 1"),
    ];
    assert_eq!(files(cs), expected.map(|(p, t)| (p.to_string(), t.to_string())));
}

#[test]
fn no_file_beside_a_directory() {
    let mut cs = Codespace::default();
    for path in ["a::k", "a::b::k", "a::b::c::k", "ab::k", "a_::x::k"] {
        cs.add_item(path, code("1"));
    }
    let all: Vec<String> = files(cs).into_iter().map(|entry| entry.0).collect();
    for path in &all {
        if let Some(stem) = path.strip_suffix(".rs") {
            let dir = format!("{stem}/");
            assert!(!all.iter().any(|other| other.starts_with(&dir)), "{path}");
        }
    }
    assert_eq!(
        all,
        ["a/b/c.rs", "a/b/mod.rs", "a/mod.rs", "a_/mod.rs", "a_/x.rs", "ab.rs", "lib.rs"]
    );
}

#[test]
fn only_the_top_directory_lib_has_a_file_beside_it() {
    let mut cs = Codespace::default();
    for path in ["lib::lib::k::x", "a::lib::k::x", "b::k::x"] {
        cs.add_item(path, code("1"));
    }
    let all: Vec<String> = files(cs).into_iter().map(|entry| entry.0).collect();
    assert_eq!(
        all,
        [
            "a/lib/k.rs", "a/lib/mod.rs", "a/mod.rs", "b/k.rs", "b/mod.rs", "lib/lib/k.rs",
            "lib/lib/mod.rs", "lib/mod.rs", "lib.rs"
        ]
    );
}

#[test]
fn one_space_mounted_in_another() {
    let mut inner = Codespace::default();
    inner.add_item("k", code("1"));
    inner.get_root_mod().add_docs("Inner.");
    let mut outer = Codespace::default();
    outer.add_mod("inner", inner.into_root_mod());
    assert_eq!(
        outer.into_stream().to_string(),
        "# [doc = \"Inner.\"] pub mod inner { 1 }"
    );
}

#[test]
fn output_is_deterministic() {
    let build = |paths: &[&str]| {
        let mut cs = Codespace::default();
        for path in paths {
            cs.add_item(path, code("1"));
        }
        cs
    };
    let one = ["z::k", "a::b::k", "k", "a::k"];
    let two = ["a::k", "k", "a::b::k", "z::k"];
    assert_eq!(files(build(&one)), files(build(&two)));
    assert_eq!(
        build(&one).into_stream().to_string(),
        build(&two).into_stream().to_string()
    );
}
