//! Module names: which ones are accepted, and what is wrong with the others.
use crate::order::{lemma_text_order, place_text, text_before, Placement, SortKey};
use crate::text::{all_ascii, raw_prefixed, same_text, unpadded};
use crate::tokens::{
    has_raw_prefix, is_ascii_text, is_ascii_word, is_keyword, is_unpadded, iterate, lex, lexed,
    next_ident, parse_ident, parses_as_ident, trees, Tree,
};
use vstd::pervasive::unreached;
use vstd::prelude::*;

verus! {

/// What is wrong with a module name.
#[derive(Debug, Clone, Copy, PartialEq, Eq, Structural)]
pub enum NameFault {
    /// It is a Rust keyword.
    Keyword,
    /// It is not a Rust identifier, or it is a raw one.
    NotIdentifier,
}

/// The text of an optional string.
pub open spec fn text_of(s: Option<String>) -> Option<Seq<char>> {
    match s {
        Some(s) => Some(s@),
        None => None,
    }
}

/// The identifier or keyword that is the only token tree, if there is one.
pub open spec fn lone_ident(tokens: Option<Seq<Tree>>) -> Option<Seq<char>> {
    match tokens {
        Some(t) if t.len() == 1 => match t[0] {
            Tree::Ident(text) => Some(text),
            _ => None,
        },
        _ => None,
    }
}

/// What is wrong with `name`, given whether it parses as an identifier, and the
/// identifier or keyword that it lexes into alone.
///
/// `gen` counts as a keyword: it is one since the 2024 edition. A name is
/// accepted if it parses, unless it is a raw identifier or there is space or a
/// comment around it.
pub open spec fn name_fault(
    name: Seq<char>,
    parses: bool,
    lone: Option<Seq<char>>,
) -> Option<NameFault> {
    if name == "gen"@ {
        Some(NameFault::Keyword)
    } else if has_raw_prefix(name) {
        Some(NameFault::NotIdentifier)
    } else if parses && is_unpadded(name) {
        None
    } else if lone == Some(name) {
        Some(NameFault::Keyword)
    } else {
        Some(NameFault::NotIdentifier)
    }
}

/// What is wrong with `name` as a module name. Keywords are ASCII texts: what
/// another text lexes into does not matter.
pub open spec fn mod_name_fault(name: Seq<char>) -> Option<NameFault> {
    name_fault(
        name,
        parses_as_ident(name),
        if is_ascii_text(name) {
            lone_ident(lexed(name))
        } else {
            None
        },
    )
}

/// `name` can name a module.
pub open spec fn is_mod_name(name: Seq<char>) -> bool {
    mod_name_fault(name) is None
}

/// What is wrong with an ASCII name as a module name.
pub open spec fn ascii_name_fault(name: Seq<char>) -> Option<NameFault> {
    if !is_ascii_word(name) {
        Some(NameFault::NotIdentifier)
    } else if is_keyword(name) || name == "gen"@ {
        Some(NameFault::Keyword)
    } else {
        None
    }
}

/// `name` can be followed by an extension to name a file, and cannot be
/// confused with such a name, nor with the file of a directory.
pub open spec fn is_file_stem(name: Seq<char>) -> bool {
    name.len() > 0 && !name.contains('.') && name != "mod"@
}

/// Judges a module name, given whether it parses as an identifier, and the
/// identifier or keyword that it lexes into alone.
pub fn judge_name(name: &str, parses: bool, lone: &Option<String>) -> (r: Option<NameFault>)
    ensures
        r == name_fault(name@, parses, text_of(*lone)),
{
    if same_text(name, "gen") {
        return Some(NameFault::Keyword);
    }
    if raw_prefixed(name) {
        return Some(NameFault::NotIdentifier);
    }
    if parses && unpadded(name) {
        return None;
    }
    match lone {
        Some(ident) => {
            if same_text(ident.as_str(), name) {
                return Some(NameFault::Keyword);
            }
        },
        None => {},
    }
    Some(NameFault::NotIdentifier)
}

/// The identifier or keyword that an ASCII text lexes into alone, if it does.
fn lex_lone_ident(text: &str) -> (r: Option<String>)
    requires
        is_ascii_text(text@),
    ensures
        text_of(r) == lone_ident(lexed(text@)),
        !has_raw_prefix(text@) ==> (text_of(r) == Some(text@) <==> is_ascii_word(text@)),
{
    match lex(text) {
        Ok(stream) => {
            proof {
                let all = trees(stream);
                if all.len() == 1 && all[0] == Tree::Ident(text@) {
                    assert(all =~= seq![Tree::Ident(text@)]);
                }
            }
            let mut iter = iterate(stream);
            let first = next_ident(&mut iter);
            let second = next_ident(&mut iter);
            match (first, second) {
                (Some(Some(ident)), None) => Some(ident),
                _ => None,
            }
        },
        Err(_) => None,
    }
}

/// A name that can name a module.
#[derive(Debug)]
pub struct ModName {
    text: String,
}

impl View for ModName {
    type V = Seq<char>;

    closed spec fn view(&self) -> Seq<char> {
        self.text@
    }
}

impl ModName {
    /// The name is a valid module name.
    #[verifier::type_invariant]
    pub open spec fn valid(self) -> bool {
        is_mod_name(self@) && is_file_stem(self@)
    }

    /// Checks a module name.
    pub fn parse(name: &str) -> (r: Result<ModName, NameFault>)
        ensures
            match r {
                Ok(valid) => valid@ == name@ && is_mod_name(name@),
                Err(fault) => mod_name_fault(name@) == Some(fault),
            },
            is_ascii_text(name@) ==> mod_name_fault(name@) == ascii_name_fault(name@),
    {
        proof {
            reveal_strlit("gen");
            reveal_strlit("mod");
        }
        let parses = match parse_ident(name) {
            Ok(_) => true,
            Err(_) => false,
        };
        let lone = if all_ascii(name) {
            lex_lone_ident(name)
        } else {
            None
        };
        match judge_name(name, parses, &lone) {
            None => Ok(ModName { text: name.to_owned() }),
            Some(fault) => Err(fault),
        }
    }

    /// The name `name`.
    pub fn new(name: &str) -> (r: ModName)
        requires
            is_mod_name(name@),
        ensures
            r@ == name@,
    {
        match ModName::parse(name) {
            Ok(valid) => valid,
            Err(_) => unreached(),
        }
    }

    /// The text of the name.
    pub fn as_str(&self) -> (r: &str)
        ensures
            r@ == self@,
    {
        self.text.as_str()
    }
}

impl SortKey for ModName {
    open spec fn before(a: Seq<char>, b: Seq<char>) -> bool {
        text_before(a, b)
    }

    proof fn lemma_before_order() {
        lemma_text_order();
        assert((|a: Seq<char>, b: Seq<char>| Self::before(a, b)) =~= (|a: Seq<char>, b: Seq<char>|
            text_before(a, b)));
    }

    fn place(&self, other: &Self) -> (r: Placement) {
        place_text(self.as_str(), other.as_str())
    }
}

/// A refused module name.
#[derive(Debug)]
pub struct ModNameError {
    /// The refused name.
    pub name: String,
    /// The path or name that it was given in.
    pub full: String,
    /// What is wrong with it.
    pub fault: NameFault,
}

/// The form in which `format!("{:?}", text)` shows a text: in quotes, with
/// special characters escaped.
pub uninterp spec fn debug_form(text: Seq<char>) -> Seq<char>;

/// `<str as std::fmt::Debug>::fmt`, through `format!`. The escapes are left to
/// `debug_form`.
#[verifier::external_body]
fn debug_text(text: &str) -> (r: String)
    ensures
        r@ == debug_form(text@),
{
    format!("{:?}", text)
}

impl ModNameError {
    /// The error that refuses the module name `name`, given on its own.
    pub open spec fn refuses(self, name: Seq<char>) -> bool {
        &&& self.name@ == name
        &&& self.full@ == name
        &&& mod_name_fault(name) == Some(self.fault)
    }

    /// The message, given the quoted forms of the name and of where it was given.
    pub open spec fn message_text(fault: NameFault, name: Seq<char>, full: Seq<char>) -> Seq<char> {
        "module name "@ + name + " (in "@ + full + (match fault {
            NameFault::Keyword => ") is a Rust keyword"@,
            NameFault::NotIdentifier =>
                ") is not a valid Rust identifier (raw identifiers are not supported)"@,
        })
    }

    /// The message of a fault, given the quoted forms of the name and of where
    /// it was given.
    pub fn describe(fault: NameFault, name: &str, full: &str) -> (r: String)
        ensures
            r@ == Self::message_text(fault, name@, full@),
    {
        let mut r = "module name ".to_owned();
        r.append(name);
        r.append(" (in ");
        r.append(full);
        match fault {
            NameFault::Keyword => r.append(") is a Rust keyword"),
            NameFault::NotIdentifier => r.append(
                ") is not a valid Rust identifier (raw identifiers are not supported)",
            ),
        }
        r
    }

    /// The message of this error.
    pub fn message(&self) -> (r: String)
        ensures
            r@ == Self::message_text(self.fault, debug_form(self.name@), debug_form(self.full@)),
    {
        let name = debug_text(self.name.as_str());
        let full = debug_text(self.full.as_str());
        Self::describe(self.fault, name.as_str(), full.as_str())
    }
}

/// Checks the module name `name`, which was given in `full`.
pub fn validate_mod_name(name: &str, full: &str) -> (r: Result<(), ModNameError>)
    ensures
        match r {
            Ok(_) => is_mod_name(name@),
            Err(e) => mod_name_fault(name@) == Some(e.fault) && e.name@ == name@ && e.full@ == full@,
        },
        is_ascii_text(name@) ==> mod_name_fault(name@) == ascii_name_fault(name@),
{
    match ModName::parse(name) {
        Ok(_) => Ok(()),
        Err(fault) => Err(
            ModNameError { name: name.to_owned(), full: full.to_owned(), fault },
        ),
    }
}

} // verus!
