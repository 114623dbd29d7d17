//! Parsing source text into the modelled syntax tree.
//!
//! The parser, trees and nodes of the tree-sitter library are opaque here;
//! a freshly parsed tree is walked once and distilled into a [`SynNode`],
//! whose spans are validated on the way in, so that every tree handed to the
//! splitter is well-formed whatever the parser produced.

use vstd::prelude::*;
use crate::code_splitter::{SynNode, TextPosition, node_wf};

verus! {

#[verifier::external_type_specification]
#[verifier::external_body]
pub struct ExLanguage(tree_sitter::Language);

#[verifier::external_type_specification]
#[verifier::external_body]
pub struct ExParser(tree_sitter::Parser);

#[verifier::external_type_specification]
#[verifier::external_body]
pub struct ExTree(tree_sitter::Tree);

#[verifier::external_type_specification]
#[verifier::external_body]
pub struct ExNode<'a>(tree_sitter::Node<'a>);

/// Relies on tree_sitter::Parser::new: a fresh parser with no language set.
#[verifier::external_body]
fn parser_new() -> tree_sitter::Parser {
    tree_sitter::Parser::new()
}

/// Relies on tree_sitter::Parser::set_language: true exactly when the
/// parser accepted the grammar (an ABI-compatible version).
#[verifier::external_body]
fn parser_set_language(parser: &mut tree_sitter::Parser, language: &tree_sitter::Language) -> bool {
    parser.set_language(language).is_ok()
}

/// Relies on tree_sitter::Parser::parse: Some on success, None when the
/// parser has no language set or parsing was cancelled.
#[verifier::external_body]
fn parser_parse(
    parser: &mut tree_sitter::Parser,
    text: &Vec<u8>,
    old_tree: Option<&tree_sitter::Tree>,
) -> Option<tree_sitter::Tree> {
    parser.parse(text.as_slice(), old_tree)
}

/// Relies on tree_sitter::Tree::root_node.
#[verifier::external_body]
fn tree_root_node<'t>(tree: &'t tree_sitter::Tree) -> tree_sitter::Node<'t> {
    tree.root_node()
}

/// Relies on tree_sitter::Node::child_count.
#[verifier::external_body]
fn node_child_count(node: &tree_sitter::Node) -> u32 {
    node.child_count()
}

/// Relies on tree_sitter::Node::child: the i-th child, if there is one.
#[verifier::external_body]
fn node_child<'t>(node: &tree_sitter::Node<'t>, i: u32) -> Option<tree_sitter::Node<'t>> {
    node.child(i)
}

/// Relies on tree_sitter::Node::start_byte.
#[verifier::external_body]
fn node_start_byte(node: &tree_sitter::Node) -> usize {
    node.start_byte()
}

/// Relies on tree_sitter::Node::end_byte.
#[verifier::external_body]
fn node_end_byte(node: &tree_sitter::Node) -> usize {
    node.end_byte()
}

/// Relies on tree_sitter::Node::start_position, a zero-based row/column.
#[verifier::external_body]
fn node_start_position(node: &tree_sitter::Node) -> TextPosition {
    let p = node.start_position();
    TextPosition { row: p.row, column: p.column }
}

/// Relies on tree_sitter::Node::end_position, a zero-based row/column.
#[verifier::external_body]
fn node_end_position(node: &tree_sitter::Node) -> TextPosition {
    let p = node.end_position();
    TextPosition { row: p.row, column: p.column }
}

/// Nesting deeper than this is kept whole rather than walked further.
pub const MAX_TREE_DEPTH: u64 = 65536;

/// Distils a parsed node into the modelled tree. Spans are clamped into
/// `[lo, hi]` and children with spans that run backwards, overlap a
/// previous sibling or escape their parent are dropped, so the result is
/// well-formed whatever the parser reported. Nodes deeper than `fuel`
/// levels are kept as leaves.
fn build_syn_node(ts: &tree_sitter::Node, lo: usize, hi: usize, fuel: u64) -> (r: SynNode)
    requires
        lo <= hi,
    ensures
        node_wf(r),
        lo <= r.start_byte,
        r.end_byte <= hi,
    decreases fuel,
{
    let mut sb = node_start_byte(ts);
    let mut eb = node_end_byte(ts);
    if sb < lo {
        sb = lo;
    }
    if sb > hi {
        sb = hi;
    }
    if eb < lo {
        eb = lo;
    }
    if eb > hi {
        eb = hi;
    }
    if eb < sb {
        eb = sb;
    }
    let sp = node_start_position(ts);
    let mut ep = node_end_position(ts);
    if ep.row < sp.row || (ep.row == sp.row && ep.column < sp.column) {
        ep = sp;
    }
    let mut children: Vec<SynNode> = Vec::new();
    if fuel > 0 {
        let n = node_child_count(ts);
        let mut cursor = sb;
        let mut ci: u32 = 0;
        while ci < n
            invariant
                fuel >= 1,
                sb <= cursor <= eb,
                forall|j: int| 0 <= j < children@.len() ==> node_wf(#[trigger] children@[j]),
                forall|j: int|
                    0 <= j < children@.len() ==> sb <= (#[trigger] children@[j]).start_byte
                        && children@[j].end_byte <= eb,
                forall|j: int|
                    0 <= j && j + 1 < children@.len() ==> (#[trigger] children@[j]).end_byte
                        <= children@[j + 1].start_byte,
                forall|j: int|
                    0 <= j < children@.len() ==> (#[trigger] children@[j]).end_byte <= cursor,
            decreases n - ci,
        {
            match node_child(ts, ci) {
                Some(ch) => {
                    let csb = node_start_byte(&ch);
                    let ceb = node_end_byte(&ch);
                    if cursor <= csb && csb <= ceb && ceb <= eb {
                        let sub = build_syn_node(&ch, csb, ceb, fuel - 1);
                        cursor = sub.end_byte;
                        children.push(sub);
                    }
                },
                None => {},
            }
            ci = ci + 1;
        }
    }
    SynNode { start_byte: sb, end_byte: eb, start: sp, end: ep, children }
}

/// Parses `text`, optionally reusing a previous tree as a reparse hint, and
/// returns the parser's tree together with its validated model. The model's
/// spans always lie inside `text`.
pub fn parse_source(
    parser: &mut tree_sitter::Parser,
    text: &Vec<u8>,
    old_tree: Option<&tree_sitter::Tree>,
) -> (r: Option<(tree_sitter::Tree, SynNode)>)
    ensures
        r matches Some(p) ==> node_wf(p.1) && p.1.end_byte <= text@.len(),
{
    match parser_parse(parser, text, old_tree) {
        Some(tree) => {
            let syn = {
                let root = tree_root_node(&tree);
                build_syn_node(&root, 0, text.len(), MAX_TREE_DEPTH)
            };
            Some((tree, syn))
        },
        None => None,
    }
}

/// The grammars the indexer can parse, one per recognized file extension.
#[derive(Clone, Copy, Debug, PartialEq, Eq, Structural)]
pub enum LangKind {
    C,
    Cpp,
    CSharp,
    Go,
    Java,
    Json,
    Kotlin,
    Python,
    Rust,
    Scala,
    TypeScript,
    Tsx,
    Yaml,
}

/// A two-byte extension.
pub open spec fn ext_is2(s: Seq<u8>, a: u8, b: u8) -> bool {
    s.len() == 2 && s[0] == a && s[1] == b
}

/// A one-byte extension.
pub open spec fn ext_is1(s: Seq<u8>, a: u8) -> bool {
    s.len() == 1 && s[0] == a
}

/// A three-byte extension.
pub open spec fn ext_is3(s: Seq<u8>, a: u8, b: u8, c: u8) -> bool {
    s.len() == 3 && s[0] == a && s[1] == b && s[2] == c
}

/// A four-byte extension.
pub open spec fn ext_is4(s: Seq<u8>, a: u8, b: u8, c: u8, d: u8) -> bool {
    s.len() == 4 && s[0] == a && s[1] == b && s[2] == c && s[3] == d
}

/// A five-byte extension.
pub open spec fn ext_is5(s: Seq<u8>, a: u8, b: u8, c: u8, d: u8, e: u8) -> bool {
    s.len() == 5 && s[0] == a && s[1] == b && s[2] == c && s[3] == d && s[4] == e
}

/// The grammar for a file extension, if the extension is recognized.
pub open spec fn lang_of_ext(s: Seq<u8>) -> Option<LangKind> {
    if ext_is1(s, 99) {
        Some(LangKind::C)
    } else if ext_is3(s, 99, 112, 112) {
        Some(LangKind::Cpp)
    } else if ext_is2(s, 99, 115) {
        Some(LangKind::CSharp)
    } else if ext_is2(s, 103, 111) {
        Some(LangKind::Go)
    } else if ext_is4(s, 106, 97, 118, 97) {
        Some(LangKind::Java)
    } else if ext_is4(s, 106, 115, 111, 110) {
        Some(LangKind::Json)
    } else if ext_is2(s, 107, 116) {
        Some(LangKind::Kotlin)
    } else if ext_is2(s, 112, 121) {
        Some(LangKind::Python)
    } else if ext_is2(s, 114, 115) {
        Some(LangKind::Rust)
    } else if ext_is5(s, 115, 99, 97, 108, 97) {
        Some(LangKind::Scala)
    } else if ext_is2(s, 116, 115) {
        Some(LangKind::TypeScript)
    } else if ext_is3(s, 116, 115, 120) {
        Some(LangKind::Tsx)
    } else if ext_is4(s, 121, 97, 109, 108) || ext_is3(s, 121, 109, 108) {
        Some(LangKind::Yaml)
    } else {
        None
    }
}

/// Relies on tree_sitter_c::LANGUAGE, through Language::from.
#[verifier::external_body]
fn language_c() -> tree_sitter::Language {
    tree_sitter::Language::from(tree_sitter_c::LANGUAGE)
}

/// Relies on tree_sitter_cpp::LANGUAGE, through Language::from.
#[verifier::external_body]
fn language_cpp() -> tree_sitter::Language {
    tree_sitter::Language::from(tree_sitter_cpp::LANGUAGE)
}

/// Relies on tree_sitter_c_sharp::LANGUAGE, through Language::from.
#[verifier::external_body]
fn language_c_sharp() -> tree_sitter::Language {
    tree_sitter::Language::from(tree_sitter_c_sharp::LANGUAGE)
}

/// Relies on tree_sitter_go::LANGUAGE, through Language::from.
#[verifier::external_body]
fn language_go() -> tree_sitter::Language {
    tree_sitter::Language::from(tree_sitter_go::LANGUAGE)
}

/// Relies on tree_sitter_java::LANGUAGE, through Language::from.
#[verifier::external_body]
fn language_java() -> tree_sitter::Language {
    tree_sitter::Language::from(tree_sitter_java::LANGUAGE)
}

/// Relies on tree_sitter_json::LANGUAGE, through Language::from.
#[verifier::external_body]
fn language_json() -> tree_sitter::Language {
    tree_sitter::Language::from(tree_sitter_json::LANGUAGE)
}

/// Relies on tree_sitter_kotlin_ng::LANGUAGE, through Language::from.
#[verifier::external_body]
fn language_kotlin() -> tree_sitter::Language {
    tree_sitter::Language::from(tree_sitter_kotlin_ng::LANGUAGE)
}

/// Relies on tree_sitter_python::LANGUAGE, through Language::from.
#[verifier::external_body]
fn language_python() -> tree_sitter::Language {
    tree_sitter::Language::from(tree_sitter_python::LANGUAGE)
}

/// Relies on tree_sitter_rust::LANGUAGE, through Language::from.
#[verifier::external_body]
fn language_rust() -> tree_sitter::Language {
    tree_sitter::Language::from(tree_sitter_rust::LANGUAGE)
}

/// Relies on tree_sitter_scala::LANGUAGE, through Language::from.
#[verifier::external_body]
fn language_scala() -> tree_sitter::Language {
    tree_sitter::Language::from(tree_sitter_scala::LANGUAGE)
}

/// Relies on tree_sitter_typescript::LANGUAGE_TYPESCRIPT, through Language::from.
#[verifier::external_body]
fn language_typescript() -> tree_sitter::Language {
    tree_sitter::Language::from(tree_sitter_typescript::LANGUAGE_TYPESCRIPT)
}

/// Relies on tree_sitter_typescript::LANGUAGE_TSX, through Language::from.
#[verifier::external_body]
fn language_tsx() -> tree_sitter::Language {
    tree_sitter::Language::from(tree_sitter_typescript::LANGUAGE_TSX)
}

/// Relies on tree_sitter_yaml::LANGUAGE, through Language::from.
#[verifier::external_body]
fn language_yaml() -> tree_sitter::Language {
    tree_sitter::Language::from(tree_sitter_yaml::LANGUAGE)
}

/// The recognized file extensions, as the grammar each one maps to.
pub fn ext_lang_kind(ext: &Vec<u8>) -> (r: Option<LangKind>)
    ensures
        r == lang_of_ext(ext@),
{
    if ext.len() == 1 {
        let a = ext[0];
        if a == 99 {
            return Some(LangKind::C);
        }
    } else if ext.len() == 2 {
        let a = ext[0];
        let b = ext[1];
        if a == 99 && b == 115 {
            return Some(LangKind::CSharp);
        }
        if a == 103 && b == 111 {
            return Some(LangKind::Go);
        }
        if a == 107 && b == 116 {
            return Some(LangKind::Kotlin);
        }
        if a == 112 && b == 121 {
            return Some(LangKind::Python);
        }
        if a == 114 && b == 115 {
            return Some(LangKind::Rust);
        }
        if a == 116 && b == 115 {
            return Some(LangKind::TypeScript);
        }
    } else if ext.len() == 3 {
        let a = ext[0];
        let b = ext[1];
        let c = ext[2];
        if a == 99 && b == 112 && c == 112 {
            return Some(LangKind::Cpp);
        }
        if a == 116 && b == 115 && c == 120 {
            return Some(LangKind::Tsx);
        }
        if a == 121 && b == 109 && c == 108 {
            return Some(LangKind::Yaml);
        }
    } else if ext.len() == 4 {
        let a = ext[0];
        let b = ext[1];
        let c = ext[2];
        let d = ext[3];
        if a == 106 && b == 97 && c == 118 && d == 97 {
            return Some(LangKind::Java);
        }
        if a == 106 && b == 115 && c == 111 && d == 110 {
            return Some(LangKind::Json);
        }
        if a == 121 && b == 97 && c == 109 && d == 108 {
            return Some(LangKind::Yaml);
        }
    } else if ext.len() == 5 {
        if ext[0] == 115 && ext[1] == 99 && ext[2] == 97 && ext[3] == 108 && ext[4] == 97 {
            return Some(LangKind::Scala);
        }
    }
    None
}

/// The grammar bound to a recognized file extension, or None for any other
/// extension.
pub fn ext_to_language(ext: &Vec<u8>) -> (r: Option<tree_sitter::Language>)
    ensures
        r is Some <==> lang_of_ext(ext@) is Some,
{
    match ext_lang_kind(ext) {
        Some(kind) => Some(
            match kind {
                LangKind::C => language_c(),
                LangKind::Cpp => language_cpp(),
                LangKind::CSharp => language_c_sharp(),
                LangKind::Go => language_go(),
                LangKind::Java => language_java(),
                LangKind::Json => language_json(),
                LangKind::Kotlin => language_kotlin(),
                LangKind::Python => language_python(),
                LangKind::Rust => language_rust(),
                LangKind::Scala => language_scala(),
                LangKind::TypeScript => language_typescript(),
                LangKind::Tsx => language_tsx(),
                LangKind::Yaml => language_yaml(),
            },
        ),
        None => None,
    }
}

/// A parser bound to the grammar for `ext`, or None when the extension is
/// not recognized or the grammar was not accepted.
pub fn parser_for_extension(ext: &Vec<u8>) -> (r: Option<tree_sitter::Parser>)
    ensures
        r is Some ==> lang_of_ext(ext@) is Some,
    {
    match ext_to_language(ext) {
        Some(language) => {
            let mut parser = parser_new();
            if parser_set_language(&mut parser, &language) {
                Some(parser)
            } else {
                None
            }
        },
        None => None,
    }
}

} // verus!
