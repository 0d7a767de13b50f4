use codespace::{Codespace, FilePath, Mod, ModNameError, Visibility};
use proc_macro2::TokenStream;

/// The tokens of a fragment of code.
fn code(text: &str) -> TokenStream {
    text.parse().unwrap()
}

/// The value of an accepted call; panics with the message of a refused one.
fn accepted<T>(r: Result<T, ModNameError>) -> T {
    match r {
        Ok(value) => value,
        Err(e) => panic!("{}", e.message()),
    }
}

/// The paths of the files, in order.
fn paths(files: &[(FilePath, TokenStream)]) -> Vec<String> {
    files.iter().map(|entry| entry.0.to_text()).collect()
}

/// The contents of the file at `path`.
fn file<'a>(files: &'a [(FilePath, TokenStream)], path: &str) -> &'a TokenStream {
    let found = files.iter().find(|entry| entry.0.to_text() == path);
    &found.unwrap().1
}

#[test]
fn empty_codespace() {
    let cs = Codespace::default();
    assert!(cs.into_stream().is_empty());
}

#[test]
fn root_items_are_flat() {
    let mut cs = Codespace::default();
    cs.add_item("Foo", code("pub struct Foo;"));
    cs.add_item("Bar", code("pub struct Bar;"));
    let out = cs.into_stream().to_string();
    assert!(out.contains("struct Bar"));
    assert!(out.contains("struct Foo"));
    let bar_pos = out.find("struct Bar").unwrap();
    let foo_pos = out.find("struct Foo").unwrap();
    assert!(bar_pos < foo_pos, "expected alphabetical order");
}

#[test]
fn extend_same_key() {
    let mut cs = Codespace::default();
    cs.add_item("Foo", code("pub struct Foo;"));
    cs.add_item("Foo", code("impl Foo {}"));
    let out = cs.into_stream().to_string();
    assert!(out.contains("struct Foo"));
    assert!(out.contains("impl Foo"));
}

#[test]
fn path_creates_submod() {
    let mut cs = Codespace::default();
    cs.add_item("Foo", code("pub struct Foo;"));
    cs.add_item("defaults::foo_value", code("pub fn foo_value() {}"));
    let out = cs.into_stream().to_string();
    assert!(out.contains("pub mod defaults"));
    assert!(out.contains("fn foo_value"));
    let item_pos = out.find("struct Foo").unwrap();
    let mod_pos = out.find("pub mod defaults").unwrap();
    assert!(item_pos < mod_pos, "items precede submodules");
}

#[test]
fn path_nested() {
    let mut cs = Codespace::default();
    cs.add_item("outer::inner::deep", code("pub fn deep() {}"));
    let out = cs.into_stream().to_string();
    assert!(out.contains("pub mod outer"));
    assert!(out.contains("pub mod inner"));
    assert!(out.contains("fn deep"));
}

#[test]
fn items_before_mods() {
    let mut cs = Codespace::default();
    cs.add_item("zzz", code("pub struct Zzz;"));
    cs.add_item("aaa::f", code("pub fn f() {}"));
    let out = cs.into_stream().to_string();
    let item_pos = out.find("struct Zzz").unwrap();
    let mod_pos = out.find("pub mod aaa").unwrap();
    assert!(item_pos < mod_pos, "items always precede submodules");
}

#[test]
fn get_root_mod_direct_access() {
    let mut cs = Codespace::default();
    cs.get_root_mod()
        .get_mod("defaults")
        .add_item("f", code("pub fn f() {}"));
    let out = cs.into_stream().to_string();
    assert!(out.contains("pub mod defaults"));
    assert!(out.contains("fn f"));
}

#[test]
fn same_path_twice_extends() {
    let mut cs = Codespace::default();
    cs.add_item("defaults::a", code("pub fn a() {}"));
    cs.add_item("defaults::b", code("pub fn b() {}"));
    let out = cs.into_stream().to_string();
    let mod_start = out.find("pub mod defaults").unwrap();
    assert!(out[mod_start..].contains("fn a"));
    assert!(out[mod_start..].contains("fn b"));
}

#[test]
fn item_and_mod_may_share_name() {
    let mut cs = Codespace::default();
    cs.add_item("foo", code("pub struct Foo;"));
    cs.add_item("foo::bar", code("pub fn bar() {}"));
    let out = cs.into_stream().to_string();
    assert!(out.contains("struct Foo"));
    assert!(out.contains("pub mod foo"));
    assert!(out.contains("fn bar"));
}

#[test]
#[should_panic]
fn invalid_mod_name_panics() {
    let mut cs = Codespace::default();
    accepted(cs.try_add_item("not-valid-ident::key", code("")));
}

#[test]
fn mod_add_item_colons_are_literal_sort_key() {
    // Mod::add_item does NOT do path splitting - "::" is just a sort key char.
    let mut cs = Codespace::default();
    cs.get_root_mod().add_item("a::b", code("pub struct X;"));
    let out = cs.into_stream().to_string();
    // No submodule should exist; the item appears flat at root.
    assert!(!out.contains("pub mod"), "no submodule expected");
    assert!(out.contains("struct X"));
}

#[test]
fn special_sort_key_orders_before_alpha() {
    // '#' (ASCII 35) sorts before all lowercase letters, so "#preamble" items
    // appear before e.g. "Foo".
    let mut cs = Codespace::default();
    cs.get_root_mod()
        .add_item("Foo", code("pub struct Foo;"));
    cs.get_root_mod()
        .add_item("#preamble", code("use std::collections::BTreeMap;"));
    let out = cs.into_stream().to_string();
    let use_pos = out.find("BTreeMap").unwrap();
    let foo_pos = out.find("struct Foo").unwrap();
    assert!(use_pos < foo_pos, "#preamble should sort before Foo");
}

#[test]
fn multiple_submods_alphabetical() {
    let mut cs = Codespace::default();
    cs.add_item("zzz::a", code("pub fn a() {}"));
    cs.add_item("aaa::b", code("pub fn b() {}"));
    cs.add_item("mmm::c", code("pub fn c() {}"));
    let out = cs.into_stream().to_string();
    let aaa = out.find("mod aaa").unwrap();
    let mmm = out.find("mod mmm").unwrap();
    let zzz = out.find("mod zzz").unwrap();
    assert!(
        aaa < mmm && mmm < zzz,
        "submods should appear alphabetically"
    );
}

#[test]
#[should_panic]
fn get_mod_invalid_ident_panics() {
    let mut cs = Codespace::default();
    accepted(cs.get_root_mod().try_get_mod("not-valid"));
}

#[test]
#[should_panic(expected = "is a Rust keyword")]
fn keyword_mod_name_panics() {
    let mut cs = Codespace::default();
    accepted(cs.try_add_item("type::key", code("")));
}

#[test]
#[should_panic(expected = "is a Rust keyword")]
fn get_mod_keyword_panics() {
    let mut cs = Codespace::default();
    accepted(cs.get_root_mod().try_get_mod("type"));
}

#[test]
#[should_panic(expected = "is a Rust keyword")]
fn gen_mod_name_panics() {
    // Reserved only in edition 2024; syn accepts it, we don't.
    let mut cs = Codespace::default();
    accepted(cs.get_root_mod().try_get_mod("gen"));
}

#[test]
#[should_panic(expected = "raw identifiers are not supported")]
fn raw_ident_mod_name_panics() {
    let mut cs = Codespace::default();
    accepted(cs.get_root_mod().try_get_mod("r#type"));
}

/// Strip all whitespace so tests are robust to token-spacing details.
fn no_ws(s: &str) -> String {
    s.chars().filter(|c| !c.is_whitespace()).collect()
}

#[test]
fn visibility_pub_renders() {
    let mut cs = Codespace::default();
    cs.get_root_mod()
        .get_mod("foo")
        .add_item("f", code("pub fn f() {}"));
    let out = no_ws(&cs.into_stream().to_string());
    assert!(out.contains("pubmodfoo{"));
}

#[test]
fn visibility_crate_renders() {
    let mut cs = Codespace::default();
    let m = cs.get_root_mod().get_mod("foo");
    m.set_visibility(Visibility::Crate);
    m.add_item("f", code("pub fn f() {}"));
    let out = no_ws(&cs.into_stream().to_string());
    assert!(out.contains("pub(crate)modfoo{"));
}

#[test]
fn visibility_private_renders() {
    let mut cs = Codespace::default();
    let m = cs.get_root_mod().get_mod("foo");
    m.set_visibility(Visibility::Private);
    m.add_item("f", code("pub fn f() {}"));
    let out = no_ws(&cs.into_stream().to_string());
    assert!(out.contains("modfoo{"));
    assert!(!out.contains("pubmodfoo"));
    assert!(!out.contains("pub(crate)"));
}

#[test]
fn submodule_docs_and_attrs_are_outer() {
    let mut cs = Codespace::default();
    let m = cs.get_root_mod().get_mod("helpers");
    m.add_docs("Helper functions.");
    m.add_attr(code("allow(dead_code)"));
    m.add_item("f", code("pub fn f() {}"));
    let out = no_ws(&cs.into_stream().to_string());
    assert!(out.contains(r##"#[doc="Helperfunctions."]"##));
    // Metadata appears immediately before the mod, in outer form.
    assert!(out.contains(r##"#[allow(dead_code)]pubmodhelpers{"##));
    assert!(!out.contains("#!"));
}

#[test]
fn merge_appends_items_on_key_collision() {
    let mut a = Mod::default();
    a.add_item("Foo", code("pub struct Foo;"));
    let mut b = Mod::default();
    b.add_item("Foo", code("impl Foo {}"));
    b.add_item("Bar", code("pub struct Bar;"));
    a.merge(b);
    let mut cs = Codespace::default();
    *cs.get_root_mod() = a;
    let out = cs.into_stream().to_string();
    assert!(out.contains("struct Foo"));
    assert!(out.contains("impl Foo"));
    assert!(out.contains("struct Bar"));
    // Both "Foo" fragments accumulated under one key, so they render
    // adjacent to each other and after "Bar".
    let bar_pos = out.find("struct Bar").unwrap();
    let foo_pos = out.find("struct Foo").unwrap();
    assert!(bar_pos < foo_pos);
}

#[test]
fn merge_recursive_submodules() {
    let mut a = Mod::default();
    a.get_mod("shared").add_item("a", code("pub fn a() {}"));
    let mut b = Mod::default();
    b.get_mod("shared").add_item("b", code("pub fn b() {}"));
    b.get_mod("only_b").add_item("c", code("pub fn c() {}"));
    a.merge(b);
    let mut cs = Codespace::default();
    *cs.get_root_mod() = a;
    let out = cs.into_stream().to_string();
    // "shared" appears once, containing both fns. Submodules render
    // alphabetically, so "only_b" precedes "shared".
    assert_eq!(out.matches("mod shared").count(), 1);
    let only_b = out.find("mod only_b").unwrap();
    let shared = out.find("mod shared").unwrap();
    assert!(only_b < shared);
    assert!(out[only_b..shared].contains("fn c"));
    assert!(out[shared..].contains("fn a"));
    assert!(out[shared..].contains("fn b"));
}

#[test]
fn merge_docs_attrs_and_visibility() {
    let mut a = Mod::default();
    a.add_docs("First.");
    a.add_attr(code("allow(dead_code)"));
    a.set_visibility(Visibility::Crate);
    let mut b = Mod::default();
    b.add_docs("Second.");
    b.add_attr(code("allow(unused)"));
    b.set_visibility(Visibility::Private);
    a.merge(b);
    // Doc paragraphs concatenated; attrs concatenated; self's vis kept.
    let mut cs = Codespace::default();
    cs.get_root_mod().add_mod("m", a);
    let out = no_ws(&cs.into_stream().to_string());
    assert!(out.contains(r##"#[doc="First."]#[doc=""]#[doc="Second."]"##));
    assert!(out.contains("#[allow(dead_code)]#[allow(unused)]"));
    assert!(out.contains("pub(crate)modm"));
}

#[test]
fn add_mod_inserts_new() {
    let mut cs = Codespace::default();
    let mut m = Mod::default();
    m.add_item("f", code("pub fn f() {}"));
    cs.add_mod("client", m);
    let out = cs.into_stream().to_string();
    assert!(out.contains("pub mod client"));
    assert!(out.contains("fn f"));
}

#[test]
fn add_mod_merges_on_collision() {
    let mut cs = Codespace::default();
    cs.add_item("client::a", code("pub fn a() {}"));
    let mut m = Mod::default();
    m.add_item("b", code("pub fn b() {}"));
    cs.add_mod("client", m);
    let out = cs.into_stream().to_string();
    assert_eq!(out.matches("mod client").count(), 1);
    assert!(out.contains("fn a"));
    assert!(out.contains("fn b"));
}

#[test]
#[should_panic(expected = "is a Rust keyword")]
fn add_mod_keyword_panics() {
    let mut cs = Codespace::default();
    accepted(cs.try_add_mod("type", Mod::default()));
}

#[test]
fn into_files_adaptive_layout() {
    let mut cs = Codespace::default();
    cs.add_item("Root", code("pub struct Root;"));
    // "a" is a leaf at the root.
    cs.add_item("a::f", code("pub fn f() {}"));
    // "b" is a non-leaf at the root; "c" is a nested non-leaf; "d" is a
    // nested leaf.
    cs.add_item("b::g", code("pub fn g() {}"));
    cs.add_item("b::c::h", code("pub fn h() {}"));
    cs.add_item("b::c::d::i", code("pub fn i() {}"));
    let files = cs.into_files();
    let found = paths(&files);
    assert_eq!(
        found,
        ["a.rs", "b/c/d.rs", "b/c/mod.rs", "b/mod.rs", "lib.rs"]
    );

    let lib = no_ws(&file(&files, "lib.rs").to_string());
    assert!(lib.contains("pubstructRoot"));
    assert!(lib.contains("pubmoda;"));
    assert!(lib.contains("pubmodb;"));
    // Declarations sit at the top of the file, alphabetically, with
    // items after them.
    let root_pos = lib.find("pubstructRoot").unwrap();
    let a_pos = lib.find("pubmoda;").unwrap();
    let b_pos = lib.find("pubmodb;").unwrap();
    assert!(a_pos < b_pos && b_pos < root_pos);

    let a = no_ws(&file(&files, "a.rs").to_string());
    assert!(a.contains("pubfnf()"));
    assert!(!a.contains("mod"));

    let b = no_ws(&file(&files, "b/mod.rs").to_string());
    assert!(b.contains("pubfng()"));
    assert!(b.contains("pubmodc;"));
    assert!(b.find("pubmodc;").unwrap() < b.find("pubfng()").unwrap());

    let c = no_ws(&file(&files, "b/c/mod.rs").to_string());
    assert!(c.contains("pubfnh()"));
    assert!(c.contains("pubmodd;"));

    let d = no_ws(&file(&files, "b/c/d.rs").to_string());
    assert!(d.contains("pubfni()"));
}

#[test]
fn into_files_decl_carries_metadata() {
    let mut cs = Codespace::default();
    let m = cs.get_root_mod().get_mod("helpers");
    m.set_visibility(Visibility::Crate);
    m.add_docs("Helper functions.");
    m.add_attr(code("allow(dead_code)"));
    m.add_item("f", code("pub fn f() {}"));
    let files = cs.into_files();
    let lib = no_ws(&file(&files, "lib.rs").to_string());
    // Docs and attrs are outer, at the declaration site, immediately
    // before the visibility and declaration.
    assert!(
        lib.contains(r##"#[doc="Helperfunctions."]#[allow(dead_code)]pub(crate)modhelpers;"##)
    );
    // Nothing of the metadata leaks into the child file.
    let helpers = no_ws(&file(&files, "helpers.rs").to_string());
    assert!(!helpers.contains("doc"));
    assert!(!helpers.contains("allow"));
}

#[test]
fn into_files_root_meta_is_inner() {
    let mut cs = Codespace::default();
    cs.get_root_mod().add_docs("Generated code.");
    cs.get_root_mod().add_attr(code("allow(clippy::all)"));
    cs.add_item("Foo", code("pub struct Foo;"));
    let files = cs.into_files();
    let lib = no_ws(&file(&files, "lib.rs").to_string());
    assert!(lib.starts_with(r##"#![doc="Generatedcode."]#![allow(clippy::all)]"##));
}

#[test]
fn into_files_itemless_parent_mod() {
    let mut cs = Codespace::default();
    // "outer" has no items of its own, only a child module.
    cs.add_item("outer::inner::f", code("pub fn f() {}"));
    let files = cs.into_files();
    let found = paths(&files);
    assert_eq!(
        found,
        ["lib.rs", "outer/inner.rs", "outer/mod.rs"]
    );

    // The itemless parent's mod.rs holds exactly the declaration.
    let outer = no_ws(&file(&files, "outer/mod.rs").to_string());
    assert_eq!(outer, "pubmodinner;");

    let inner = no_ws(&file(&files, "outer/inner.rs").to_string());
    assert!(inner.contains("pubfnf()"));
}

#[test]
fn into_files_empty_codespace() {
    let files = Codespace::default().into_files();
    assert_eq!(files.len(), 1);
    assert!(file(&files, "lib.rs").is_empty());
}

#[test]
fn add_docs_appends_as_paragraphs() {
    let mut cs = Codespace::default();
    let m = cs.get_root_mod().get_mod("helpers");
    m.add_docs("First paragraph.\nStill the first.");
    m.add_docs("Second paragraph.");
    m.add_item("f", code("pub fn f() {}"));
    let out = no_ws(&cs.into_stream().to_string());
    // Lines within one call stay in one paragraph; a blank doc line
    // separates calls.
    assert!(out.contains(
        r##"#[doc="Firstparagraph."]#[doc="Stillthefirst."]#[doc=""]#[doc="Secondparagraph."]"##
    ));
}

#[test]
fn root_docs_and_attrs_are_inner() {
    let mut cs = Codespace::default();
    cs.get_root_mod().add_docs("Generated code.\nDo not edit.");
    cs.get_root_mod().add_attr(code("allow(clippy::all)"));
    cs.add_item("Foo", code("pub struct Foo;"));
    let out = no_ws(&cs.into_stream().to_string());
    assert!(out.starts_with(
        r##"#![doc="Generatedcode."]#![doc="Donotedit."]#![allow(clippy::all)]"##
    ));
    assert!(out.contains("pubstructFoo"));
}
