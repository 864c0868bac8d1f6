//! Parsing with a Kotlin grammar, and the function-declaration pattern.

use crate::edit::{edit_fits, InputEdit};
use vstd::prelude::*;

verus! {

#[verifier::external_type_specification]
#[verifier::external_body]
pub struct ExParser(tree_sitter::Parser);

#[verifier::external_type_specification]
#[verifier::external_body]
pub struct ExTree(tree_sitter::Tree);

#[verifier::external_type_specification]
#[verifier::external_body]
pub struct ExLanguage(tree_sitter::Language);

#[verifier::external_type_specification]
#[verifier::external_body]
pub struct ExLanguageError(tree_sitter::LanguageError);

#[verifier::external_type_specification]
#[verifier::external_body]
pub struct ExQuery(tree_sitter::Query);

#[verifier::external_type_specification]
#[verifier::external_body]
pub struct ExQueryError(tree_sitter::QueryError);

/// Relies on `tree_sitter::Parser::new`: a parser with no grammar yet.
pub assume_specification[ tree_sitter::Parser::new ]() -> tree_sitter::Parser;

/// Relies on `tree_sitter_kotlin::language`: the Kotlin grammar.
pub assume_specification[ tree_sitter_kotlin::language ]() -> tree_sitter::Language;

/// The Kotlin grammar: the one language value this library makes.
struct KotlinLanguage {
    language: tree_sitter::Language,
}

/// Relies on `tree_sitter::Parser::set_language`: it fails only on a grammar
/// whose ABI version lies outside the range this tree-sitter reads (13 to 14);
/// the Kotlin grammar is of version 14.
#[verifier::external_body]
fn set_kotlin(parser: &mut tree_sitter::Parser, kotlin: &KotlinLanguage) -> (r: Result<(), tree_sitter::LanguageError>)
    ensures
        r is Ok,
{
    parser.set_language(&kotlin.language)
}

/// Relies on `tree_sitter::Query::new`: the function-declaration pattern is
/// well formed for the Kotlin grammar, which has both node kinds.
#[verifier::external_body]
fn compile_query(kotlin: &KotlinLanguage, source: &str) -> (r: Result<tree_sitter::Query, tree_sitter::QueryError>)
    requires
        source@ == "(function_declaration (simple_identifier) @name)"@,
    ensures
        r is Ok,
{
    tree_sitter::Query::new(&kotlin.language, source)
}

/// The `(start, end)` byte spans of the names that the function-declaration
/// pattern captures, in match order, in the tree that a parse of `source`
/// from scratch gives.
pub uninterp spec fn declared_name_spans(source: Seq<u8>) -> Seq<(usize, usize)>;

/// Relies on `Tree::clone`: another handle on the same tree.
pub assume_specification[ <tree_sitter::Tree as Clone>::clone ](tree: &tree_sitter::Tree) -> tree_sitter::Tree;

/// Parsing the same bytes twice from scratch gives trees of the same
/// structure, as far as the pattern sees it: the same captured name spans.
pub proof fn lemma_reparse_idempotent(a: Input, b: Input)
    requires
        a.from_scratch(),
        b.from_scratch(),
        a@ == b@,
    ensures
        declared_name_spans(a@) == declared_name_spans(b@),
{
}

/// A syntax tree. Its nodes may have been shifted by an edit since it was parsed.
pub struct ParseTree {
    tree: tree_sitter::Tree,
}

impl ParseTree {
    /// Another handle on the same tree.
    pub fn duplicate(&self) -> ParseTree {
        ParseTree { tree: self.tree.clone() }
    }
}

/// A source text together with the tree parsed from it, from scratch or
/// seeded by an edited older tree.
pub struct Input {
    bytes: Vec<u8>,
    tree: ParseTree,
    from_scratch: bool,
}

impl View for Input {
    type V = Seq<u8>;

    closed spec fn view(&self) -> Seq<u8> {
        self.bytes@
    }
}

impl Input {
    /// The tree was parsed with no older tree to seed it.
    pub closed spec fn from_scratch(&self) -> bool {
        self.from_scratch
    }

    /// The source text.
    pub fn bytes(&self) -> (b: &Vec<u8>)
        ensures
            b@ == self@,
    {
        &self.bytes
    }

    /// A copy sharing the same tree.
    pub fn duplicate(&self) -> (r: Input)
        ensures
            r@ == self@,
            r.from_scratch() == self.from_scratch(),
    {
        Input { bytes: self.bytes.clone(), tree: self.tree.duplicate(), from_scratch: self.from_scratch }
    }

    /// The tree.
    pub fn tree(&self) -> &ParseTree {
        &self.tree
    }

    /// The tree, with its nodes shifted by `edit`, ready to seed the parse of
    /// the text that `edit` leads to.
    pub fn into_edited_tree(self, edit: &InputEdit) -> (r: EditedTree)
        ensures
            r.old_source() == self@,
            r.edit() == *edit,
    {
        let mut tree = self.tree;
        edit_tree(&mut tree, edit);
        EditedTree { tree, old_bytes: self.bytes, edit: *edit }
    }
}

/// A tree of an old text, shifted by the edit that leads to a new one.
pub struct EditedTree {
    tree: ParseTree,
    old_bytes: Vec<u8>,
    edit: InputEdit,
}

impl EditedTree {
    /// The text the tree was parsed from.
    pub closed spec fn old_source(&self) -> Seq<u8> {
        self.old_bytes@
    }

    /// The edit the tree was given.
    pub closed spec fn edit(&self) -> InputEdit {
        self.edit
    }
}

/// Relies on `tree_sitter::Tree::edit`: shifts the tree's node ranges.
#[verifier::external_body]
fn edit_tree(tree: &mut ParseTree, e: &InputEdit) {
    tree.tree.edit(&tree_sitter::InputEdit {
        start_byte: e.start_byte,
        old_end_byte: e.old_end_byte,
        new_end_byte: e.new_end_byte,
        start_position: tree_sitter::Point { row: e.start_position.row, column: e.start_position.column },
        old_end_position: tree_sitter::Point { row: e.old_end_position.row, column: e.old_end_position.column },
        new_end_position: tree_sitter::Point { row: e.new_end_position.row, column: e.new_end_position.column },
    });
}

/// Relies on `tree_sitter::Parser::parse`: the tree of `bytes`, reusing the
/// parts of `old` that its edit left alone. It gives no tree only without a
/// language, after a timeout or on cancellation; the service's parser has the
/// Kotlin grammar and neither of the other two. The parser asks that `old` was
/// edited to match `bytes`.
#[verifier::external_body]
fn parse_with(service: &mut ParserService, bytes: &Vec<u8>, old: Option<&EditedTree>) -> (r: Option<tree_sitter::Tree>)
    requires
        old matches Some(t) ==> edit_fits(t.edit(), t.old_source(), bytes@),
    ensures
        r is Some,
{
    service.parser.parse(bytes, old.map(|t| &t.tree.tree))
}

/// The function-declaration pattern, compiled for the Kotlin grammar.
pub struct FunctionQuery {
    query: tree_sitter::Query,
}

/// Relies on `tree_sitter::QueryCursor::matches`: the first capture of each
/// match of the pattern over the whole tree, as a byte span. Only of a tree
/// parsed from scratch is that said to be a function of the bytes.
#[verifier::external_body]
fn captured_spans(q: &FunctionQuery, input: &Input) -> (r: Vec<(usize, usize)>)
    ensures
        input.from_scratch() ==> r@ == declared_name_spans(input@),
{
    let mut cursor = tree_sitter::QueryCursor::new();
    let matches = cursor.matches(&q.query, input.tree.tree.root_node(), input.bytes.as_slice());
    matches.map(|m| (m.captures[0].node.start_byte(), m.captures[0].node.end_byte())).collect()
}

/// The single parser of the service, holding the Kotlin grammar, and the
/// compiled function-declaration pattern.
pub struct ParserService {
    parser: tree_sitter::Parser,
    functions: FunctionQuery,
}

impl ParserService {
    /// Loads the grammar and compiles the pattern. Both succeed, so the
    /// result is always `Ok`.
    pub fn new() -> (r: Result<ParserService, crate::error::AnalysisError>)
        ensures
            r is Ok,
    {
        let kotlin = KotlinLanguage { language: tree_sitter_kotlin::language() };
        let mut parser = tree_sitter::Parser::new();
        if set_kotlin(&mut parser, &kotlin).is_err() {
            return Err(crate::error::AnalysisError::ParseUnavailable);
        }
        match compile_query(&kotlin, "(function_declaration (simple_identifier) @name)") {
            Ok(query) => Ok(ParserService { parser, functions: FunctionQuery { query } }),
            Err(_) => Err(crate::error::AnalysisError::ParseUnavailable),
        }
    }

    /// Parses `bytes`, from scratch without `old`, else seeded by `old`, a
    /// tree whose edit leads from its own text to `bytes`. A tree always
    /// comes back; for syntactically invalid text it holds error nodes.
    pub fn parse(&mut self, bytes: Vec<u8>, old: Option<&EditedTree>) -> (r: Option<Input>)
        requires
            old matches Some(t) ==> edit_fits(t.edit(), t.old_source(), bytes@),
        ensures
            r matches Some(i) && i@ == bytes@ && (i.from_scratch() <==> old is None),
    {
        let from_scratch = old.is_none();
        match parse_with(self, &bytes, old) {
            Some(tree) => Some(Input { bytes, tree: ParseTree { tree }, from_scratch }),
            None => None,
        }
    }

    /// Byte spans of the declared function names in `input`, in document order.
    pub fn function_name_spans(&self, input: &Input) -> (r: Vec<(usize, usize)>)
        ensures
            input.from_scratch() ==> r@ == declared_name_spans(input@),
    {
        captured_spans(&self.functions, input)
    }
}

} // verus!
