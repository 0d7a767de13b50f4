use codespace::names::{judge_name, validate_mod_name};
use codespace::order::{place_text, Placement, SortKey};
use codespace::table::{find, put, slot};
use codespace::text::{
    all_ascii, raw_prefixed, same_text, split_lines, split_path, unpadded,
};
use codespace::{Codespace, FilePath, Mod, ModName, ModNameError, NameFault, Visibility};
use proc_macro2::{Delimiter, Spacing, TokenStream, TokenTree};

fn code(text: &str) -> TokenStream {
    text.parse().unwrap()
}

fn paths(files: &[(FilePath, TokenStream)]) -> Vec<String> {
    files.iter().map(|entry| entry.0.to_text()).collect()
}

fn fault(name: &str) -> Option<NameFault> {
    match ModName::parse(name) {
        Ok(valid) => {
            assert_eq!(valid.as_str(), name);
            None
        }
        Err(fault) => Some(fault),
    }
}

fn file_path(components: &[&str]) -> FilePath {
    let mut path = FilePath::new();
    for component in components {
        path = path.join(component);
    }
    path
}

#[test]
fn plain_names_are_accepted() {
    for name in ["a", "Z", "_x", "x9", "snake_case", "union", "macro_rules", "r", "b", "br", "caf\u{e9}", "cafe\u{301}"] {
        assert_eq!(fault(name), None, "{name}");
    }
}

#[test]
fn keywords_are_refused() {
    for name in ["_", "abstract", "as", "Self", "crate", "mod", "true", "try", "type", "yield", "gen"] {
        assert_eq!(fault(name), Some(NameFault::Keyword), "{name}");
    }
}

#[test]
fn other_names_are_refused() {
    for name in ["", "1a", "9", "not-valid", "a.b", "a b", "a::b", "r#type", "r#x", "\"", "'a", "(", "a)"] {
        assert_eq!(fault(name), Some(NameFault::NotIdentifier), "{name}");
    }
}

#[test]
fn padded_names_are_refused() {
    for name in [" foo", "foo ", "foo\n", "/**/foo", "foo// x", "\u{feff}foo", " type", "caf\u{e9} ", "\u{2003}caf\u{e9}"] {
        assert_eq!(fault(name), Some(NameFault::NotIdentifier), "{name:?}");
    }
}

#[test]
fn names_are_judged_by_what_they_read_as() {
    let same = Some("x".to_string());
    let other = Some("y".to_string());
    assert_eq!(judge_name("x", true, &None), None);
    assert_eq!(judge_name("x", true, &same), None);
    assert_eq!(judge_name("x", true, &other), None);
    assert_eq!(judge_name("x", false, &same), Some(NameFault::Keyword));
    assert_eq!(judge_name("x", false, &other), Some(NameFault::NotIdentifier));
    assert_eq!(judge_name("x", false, &None), Some(NameFault::NotIdentifier));
    for name in [" x", "x\u{2003}", "\u{feff}x", "x\u{200e}", "/**/x"] {
        assert_eq!(judge_name(name, true, &same), Some(NameFault::NotIdentifier));
    }
    let gen = Some("gen".to_string());
    assert_eq!(judge_name("gen", true, &gen), Some(NameFault::Keyword));
    let raw = Some("r#x".to_string());
    assert_eq!(judge_name("r#x", true, &raw), Some(NameFault::NotIdentifier));
}

#[test]
fn validation_names_the_name_and_the_path() {
    assert!(validate_mod_name("a", "a::b").is_ok());
    let e = validate_mod_name("type", "a::type::k").unwrap_err();
    assert_eq!(e.name, "type");
    assert_eq!(e.full, "a::type::k");
    assert_eq!(e.fault, NameFault::Keyword);
    assert_eq!(
        e.message(),
        "module name \"type\" (in \"a::type::k\") is a Rust keyword"
    );
    let e = validate_mod_name("a\"b", "x").unwrap_err();
    assert_eq!(
        e.message(),
        "module name \"a\\\"b\" (in \"x\") is not a valid Rust identifier \
         (raw identifiers are not supported)"
    );
}

#[test]
fn messages_are_built_from_quoted_forms() {
    assert_eq!(
        ModNameError::describe(NameFault::Keyword, "N", "F"),
        "module name N (in F) is a Rust keyword"
    );
    assert_eq!(
        ModNameError::describe(NameFault::NotIdentifier, "N", "F"),
        "module name N (in F) is not a valid Rust identifier (raw identifiers are not supported)"
    );
}

#[test]
fn a_refused_item_changes_nothing() {
    let mut cs = Codespace::default();
    cs.add_item("a::k", code("pub struct A;"));
    let e = cs.try_add_item("b::type::no-::k", code("pub struct B;")).unwrap_err();
    assert_eq!(e.name, "type");
    assert_eq!(e.full, "b::type::no-::k");
    assert_eq!(e.fault, NameFault::Keyword);
    let e = cs.try_add_item("::k", code("pub struct B;")).unwrap_err();
    assert_eq!(e.name, "");
    assert_eq!(e.fault, NameFault::NotIdentifier);
    assert_eq!(cs.into_stream().to_string(), "pub mod a { pub struct A ; }");
}

#[test]
fn a_refused_module_changes_nothing() {
    let mut m = Mod::default();
    assert_eq!(m.try_get_mod("fn").unwrap_err().fault, NameFault::Keyword);
    assert_eq!(
        m.try_replace_mod("r#fn", Mod::default()).unwrap_err().fault,
        NameFault::NotIdentifier
    );
    assert_eq!(m.try_add_mod("", Mod::default()).unwrap_err().fault, NameFault::NotIdentifier);
    let mut cs = Codespace::default();
    *cs.get_root_mod() = m;
    assert_eq!(cs.try_add_mod("x y", Mod::default()).unwrap_err().full, "x y");
    assert!(cs.into_stream().is_empty());
}

#[test]
fn accepted_tries_do_what_the_plain_calls_do() {
    let mut cs = Codespace::default();
    cs.try_add_item("a::k", code("1")).unwrap();
    let mut m = Mod::default();
    m.add_item("k", code("2"));
    cs.try_add_mod("a", m).unwrap();
    cs.get_root_mod().try_get_mod("a").unwrap().add_item("k", code("3"));
    let mut m = Mod::default();
    m.add_item("k", code("4"));
    assert!(cs.get_root_mod().try_replace_mod("b", m).unwrap().is_none());
    let mut m = Mod::default();
    m.add_item("k", code("5"));
    cs.get_root_mod().try_add_mod("b", m).unwrap();
    assert_eq!(cs.into_stream().to_string(), "pub mod a { 1 2 3 } pub mod b { 4 5 }");
}

#[test]
fn paths_split_from_left_to_right() {
    assert_eq!(split_path("a::b::c"), ["a", "b", "c"]);
    assert_eq!(split_path("a:::b"), ["a", ":b"]);
    assert_eq!(split_path("a::::b"), ["a", "", "b"]);
    assert_eq!(split_path("a:b"), ["a:b"]);
    assert_eq!(split_path(""), [""]);
    assert_eq!(split_path("::"), ["", ""]);
    assert_eq!(split_path(":"), [":"]);
    assert_eq!(split_path("\u{e9}::\u{4e2d}"), ["\u{e9}", "\u{4e2d}"]);
}

#[test]
fn an_odd_key_is_a_key() {
    let mut cs = Codespace::default();
    cs.add_item("a:::b", code("1"));
    cs.add_item("a::", code("2"));
    cs.add_item("", code("3"));
    assert_eq!(cs.into_stream().to_string(), "3 pub mod a { 2 1 }");
}

#[test]
fn texts_split_into_lines() {
    assert_eq!(split_lines("a\nb"), ["a", "b"]);
    assert_eq!(split_lines("a\nb\n"), ["a", "b"]);
    assert_eq!(split_lines("a\r\nb\r\n"), ["a", "b"]);
    assert_eq!(split_lines("a\rb\r"), ["a\rb\r"]);
    assert_eq!(split_lines("a\r\r\n"), ["a\r"]);
    assert_eq!(split_lines("\n\n"), ["", ""]);
    assert_eq!(split_lines("\r\n"), [""]);
    let none: [&str; 0] = [];
    assert_eq!(split_lines(""), none);
    for text in ["a\nb\r\nc", "x", "", "\n", "\r", "a\n\nb\r"] {
        assert_eq!(split_lines(text), text.lines().collect::<Vec<_>>());
        let path = text.replace('\n', "::");
        assert_eq!(split_path(&path), path.split("::").collect::<Vec<_>>());
    }
}

#[test]
fn an_empty_paragraph_has_no_lines() {
    let mut cs = Codespace::default();
    cs.get_root_mod().add_docs("");
    cs.get_root_mod().add_docs("x");
    cs.get_root_mod().add_docs("");
    assert_eq!(
        cs.into_stream().to_string(),
        "# ! [doc = \"\"] # ! [doc = \"x\"] # ! [doc = \"\"]"
    );
}

#[test]
fn doc_lines_are_string_literals() {
    let mut cs = Codespace::default();
    cs.get_root_mod().add_docs("say \"hi\" \\ \t\u{e9}");
    let mut trees = cs.into_stream().into_iter();
    trees.next();
    trees.next();
    let Some(TokenTree::Group(group)) = trees.next() else {
        panic!("no group");
    };
    let literal = group.stream().into_iter().last().unwrap();
    let value = syn::parse2::<syn::LitStr>(literal.into()).unwrap().value();
    assert_eq!(value, "say \"hi\" \\ \t\u{e9}");
}

#[test]
fn rendered_tokens_are_exact() {
    let mut cs = Codespace::default();
    let root = cs.get_root_mod();
    root.add_docs("Root.");
    root.add_attr(code("allow(unused)"));
    root.add_item("k", code("struct K;"));
    let m = root.get_mod("m");
    m.add_docs("M.");
    m.add_attr(code("rustfmt::skip"));
    m.set_visibility(Visibility::Crate);
    m.add_item("k", code("fn f() {}"));
    m.get_mod("n").set_visibility(Visibility::Private);
    assert_eq!(
        cs.into_stream().to_string(),
        "# ! [doc = \"Root.\"] # ! [allow (unused)] struct K ; \
         # [doc = \"M.\"] # [rustfmt :: skip] pub (crate) mod m { fn f () { } mod n { } }"
    );
}

#[test]
fn punctuation_stands_alone() {
    let mut cs = Codespace::default();
    cs.get_root_mod().add_docs("x");
    cs.get_root_mod().get_mod("m").set_visibility(Visibility::Crate);
    let mut groups = Vec::new();
    for tree in cs.into_stream() {
        match tree {
            TokenTree::Punct(punct) => assert_eq!(punct.spacing(), Spacing::Alone),
            TokenTree::Group(group) => groups.push(group.delimiter()),
            _ => {}
        }
    }
    assert_eq!(groups, [Delimiter::Bracket, Delimiter::Parenthesis, Delimiter::Brace]);
}

#[test]
fn visibility_defaults_to_pub() {
    assert_eq!(Visibility::default(), Visibility::Pub);
}

#[test]
fn texts_are_ordered_by_code_points() {
    assert!(matches!(place_text("a", "b"), Placement::Before));
    assert!(matches!(place_text("b", "a"), Placement::After));
    assert!(matches!(place_text("a", "a"), Placement::Same));
    assert!(matches!(place_text("a", "aa"), Placement::Before));
    assert!(matches!(place_text("", "a"), Placement::Before));
    assert!(matches!(place_text("B", "a"), Placement::Before));
    assert!(matches!(place_text("\u{ffff}", "\u{10000}"), Placement::Before));
    assert!(same_text("ab", "ab"));
    assert!(!same_text("ab", "ac"));
    assert!(!same_text("ab", "abc"));
    assert!(raw_prefixed("r#a"));
    assert!(!raw_prefixed("r"));
    assert!(!raw_prefixed("a#r"));
    assert!(all_ascii("a \u{7f}"));
    assert!(all_ascii(""));
    assert!(!all_ascii("a\u{80}"));
    assert!(unpadded("caf\u{e9}#."));
    assert!(unpadded(""));
    for c in '\0'..='\u{ffff}' {
        let space = c.is_whitespace() || c == '\u{200e}' || c == '\u{200f}';
        let padding = space || c == '/' || c == '\u{feff}';
        assert_eq!(unpadded(&format!("x{c}y")), !padding, "{c:?}");
    }
}

#[test]
fn file_paths_are_ordered_by_components() {
    let lib = file_path(&["lib.rs"]);
    let below = file_path(&["lib", "mod.rs"]);
    assert!(matches!(below.place(&lib), Placement::Before));
    assert!(matches!(lib.place(&below), Placement::After));
    assert!(matches!(lib.place(&file_path(&["lib.rs"])), Placement::Same));
    assert!(matches!(file_path(&["a"]).place(&file_path(&["a", "b"])), Placement::Before));
    assert!(matches!(file_path(&["a", "b"]).place(&file_path(&["a"])), Placement::After));
    assert_eq!(below.to_text(), "lib/mod.rs");
    assert_eq!(FilePath::new().to_text(), "");
    assert_eq!(file_path(&["a", "b", "c"]).to_text(), "a/b/c");
}

#[test]
fn tables_keep_their_keys_in_order() {
    let mut table: Vec<(String, u32)> = Vec::new();
    for (key, value) in [("m", 1), ("z", 2), ("a", 3), ("q", 4)] {
        assert_eq!(put(&mut table, key.to_string(), value), None);
    }
    assert_eq!(put(&mut table, "m".to_string(), 5), Some(1));
    *slot(&mut table, "a".to_string(), 0) += 10;
    *slot(&mut table, "b".to_string(), 7) += 10;
    let entries: Vec<(&str, u32)> = table.iter().map(|e| (e.0.as_str(), e.1)).collect();
    assert_eq!(entries, [("a", 13), ("b", 17), ("m", 5), ("q", 4), ("z", 2)]);
    assert_eq!(find(&table, &"q".to_string()), Ok(3));
    assert_eq!(find(&table, &"n".to_string()), Err(3));
    assert_eq!(find(&table, &"~".to_string()), Err(5));
}

#[test]
fn the_root_file_wins_over_a_leaf_named_lib() {
    let mut cs = Codespace::default();
    cs.add_item("lib::k", code("struct Lost;"));
    cs.add_item("k", code("struct Kept;"));
    let files = cs.into_files();
    assert_eq!(paths(&files), ["lib.rs"]);
    assert_eq!(files[0].1.to_string(), "pub mod lib ; struct Kept ;");
}

#[test]
fn a_directory_named_lib_stands_beside_the_root_file() {
    let mut cs = Codespace::default();
    cs.add_item("lib::sub::k", code("struct K;"));
    let files = cs.into_files();
    assert_eq!(paths(&files), ["lib/mod.rs", "lib/sub.rs", "lib.rs"]);
}
