use vstd::prelude::*;
use streaming_iterator::StreamingIterator;

verus! {

#[verifier::external_type_specification]
#[verifier::external_body]
pub struct ExLanguage(tree_sitter::Language);

#[verifier::external_type_specification]
#[verifier::external_body]
pub struct ExQuery(tree_sitter::Query);

#[verifier::external_type_specification]
#[verifier::external_body]
pub struct ExTree(tree_sitter::Tree);

/// One query capture, reduced to the plain values the indexer reads: the
/// node's start point in 0-based engine coordinates and its matched text.
pub struct RawCapture {
    pub row: u64,
    pub column: u64,
    pub text: String,
}

pub ghost struct RawCaptureModel {
    pub row: u64,
    pub column: u64,
    pub text: Seq<char>,
}

impl View for RawCapture {
    type V = RawCaptureModel;

    open spec fn view(&self) -> RawCaptureModel {
        RawCaptureModel { row: self.row, column: self.column, text: self.text@ }
    }
}

/// Relies on tree_sitter::Parser::set_language and Parser::parse: produces a
/// syntax tree for the text, or nothing when the grammar cannot be set or
/// parsing is cancelled.
#[verifier::external_body]
pub fn parse_tree(language: &tree_sitter::Language, content: &str) -> (r: Option<
    tree_sitter::Tree,
>) {
    let mut parser = tree_sitter::Parser::new();
    if parser.set_language(language).is_err() {
        return None;
    }
    parser.parse(content.as_bytes(), None)
}

/// Relies on tree_sitter::QueryCursor::matches and QueryMatch::captures:
/// yields every capture of the query over the tree, in the engine's match
/// order, as its start point and matched byte range's text. Points are
/// 32-bit in the engine, so each coordinate is below 2^32. The text the
/// engine's predicates read is handed over through a clamping provider, and
/// the capture's own range is fetched checked, so a tree that was parsed
/// from longer text than `content` cannot index out of bounds.
#[verifier::external_body]
pub fn run_query(query: &tree_sitter::Query, tree: &tree_sitter::Tree, content: &str) -> (r: Vec<
    RawCapture,
>)
    ensures
        forall|k: int|
            0 <= k < r@.len() ==> (#[trigger] r@[k]).row < 0x1_0000_0000 && r@[k].column
                < 0x1_0000_0000,
{
    let bytes = content.as_bytes();
    let mut cursor = tree_sitter::QueryCursor::new();
    let provider =
        |node: tree_sitter::Node| std::iter::once(bytes.get(node.byte_range()).unwrap_or(&[]));
    let mut matches = cursor.matches(query, tree.root_node(), provider);
    let mut out: Vec<RawCapture> = Vec::new();
    while let Some(m) = matches.next() {
        for c in m.captures() {
            let p = c.node.start_position();
            let text = content.get(c.node.start_byte()..c.node.end_byte()).unwrap_or("");
            out.push(RawCapture { row: p.row as u64, column: p.column as u64, text: text.to_string() });
        }
    }
    out
}

} // verus!
