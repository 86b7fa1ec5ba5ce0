use vstd::prelude::*;
use crate::ast::Program;
use crate::completion::{completion, completion_items, ImCompleteCompletionItem};
use crate::reference::{get_reference, references_at, rename, symbol_under, RenameError, TextEdit};
use crate::semantic_analyze::{analyze, analyze_program, Semantic, SemanticErrorView};
use crate::semantic_token::{semantic_tokens, tokens_of, SemanticToken};
use crate::span::Span;
use crate::symbol_table::ConsistencyError;

verus! {

/// A problem the parser reported.
pub struct SyntaxError {
    pub span: Span,
    pub message: String,
}

/// One compiled text: the text, its program, the analysis of that program
/// and the parser's errors.
pub struct CompileResult {
    pub text: String,
    pub program: Program,
    pub semantic: Semantic,
    pub syntax_errors: Vec<SyntaxError>,
}

/// `sem` is the analysis of `p`.
pub open spec fn compiled_from(sem: Semantic, p: Program) -> bool {
    &&& sem.wf()
    &&& analyze(p).failed is None
    &&& sem.table.syms() == analyze(p).symbols
    &&& sem.table.refs() == analyze(p).references
    &&& sem.error_views() == analyze(p).errors
}

impl CompileResult {
    pub open spec fn wf(&self) -> bool {
        compiled_from(self.semantic, self.program)
    }

    pub open spec fn diagnostics(&self) -> Seq<SemanticErrorView> {
        self.semantic.error_views()
    }
}

/// Analyzes a parsed text. Fails, keeping nothing, when two entities of the
/// program would share a span.
pub fn compile(text: String, program: Program, syntax_errors: Vec<SyntaxError>) -> (r: Result<CompileResult, ConsistencyError>)
    ensures
        r is Err <==> analyze(program).failed is Some,
        r matches Err(e) ==> analyze(program).failed == Some(e),
        r matches Ok(c) ==> {
            &&& c.wf()
            &&& c.text == text
            &&& c.program == program
            &&& c.syntax_errors == syntax_errors
        },
{
    match analyze_program(&program) {
        Ok(semantic) => Ok(CompileResult { text, program, semantic, syntax_errors }),
        Err(e) => Err(e),
    }
}

/// One open document: its version and the result compiled from its text.
pub struct DocumentState {
    pub version: i32,
    pub result: CompileResult,
}

/// Whether a result compiled for `incoming` replaces the stored one: always
/// when none is stored, else when it is not older.
pub fn replaces(current: Option<i32>, incoming: i32) -> (r: bool)
    ensures
        r == match current {
            Some(v) => incoming >= v,
            None => true,
        },
{
    match current {
        Some(v) => incoming >= v,
        None => true,
    }
}

impl DocumentState {
    pub fn goto_definition(&self, offset: usize) -> (r: Option<Span>)
        requires
            self.result.wf(),
        ensures
            r == match symbol_under(self.result.semantic.table.syms(), self.result.semantic.table.refs(), offset as int) {
                Some(id) => Some(self.result.semantic.table.syms()[id as int].span),
                None => None,
            },
    {
        self.result.semantic.goto_definition(offset)
    }

    pub fn find_references(&self, offset: usize, include_self: bool) -> (r: Vec<Span>)
        requires
            self.result.wf(),
        ensures
            r@ == references_at(self.result.semantic.table.syms(), self.result.semantic.table.refs(), offset as int, include_self),
    {
        get_reference(&self.result.semantic, offset, include_self)
    }

    pub fn rename(&self, offset: usize, new_name: &String) -> (r: Result<Vec<TextEdit>, RenameError>)
        requires
            self.result.wf(),
        ensures
            r is Err <==> symbol_under(self.result.semantic.table.syms(), self.result.semantic.table.refs(), offset as int) is None,
            r matches Ok(edits) ==> {
                let spans = references_at(self.result.semantic.table.syms(), self.result.semantic.table.refs(), offset as int, true);
                &&& edits@.len() == spans.len()
                &&& forall|k: int| 0 <= k < spans.len() ==> (#[trigger] edits@[k]).span == spans[k]
                        && edits@[k].new_text@ == new_name@
            },
    {
        rename(&self.result.semantic, offset, new_name)
    }

    pub fn completion(&self, offset: usize) -> (r: Vec<ImCompleteCompletionItem>)
        requires
            self.result.wf(),
        ensures
            r@.map_values(|c: ImCompleteCompletionItem| c@) == completion_items(
                self.result.program.items@,
                self.result.semantic.table.syms(),
                self.result.semantic.table.refs(),
                offset as int,
            ),
    {
        completion(&self.result.program, &self.result.semantic, offset)
    }

    pub fn semantic_tokens(&self, range: Option<Span>) -> (r: Option<Vec<SemanticToken>>)
        ensures
            r matches Some(ts) ==> tokens_of(self.result.semantic.table.syms(), self.result.semantic.table.refs(), self.result.text@, range) == Some(ts@),
            r is None ==> tokens_of(self.result.semantic.table.syms(), self.result.semantic.table.refs(), self.result.text@, range) is None,
    {
        semantic_tokens(&self.result.semantic, self.result.text.as_str(), range)
    }
}

/// Compiling one program twice gives results with the same symbols, the
/// same references and the same diagnostics.
pub proof fn lemma_compile_idempotent(p: Program, a: CompileResult, b: CompileResult)
    requires
        a.wf(),
        b.wf(),
        a.program == p,
        b.program == p,
    ensures
        a.semantic.table.syms() == b.semantic.table.syms(),
        a.semantic.table.refs() == b.semantic.table.refs(),
        a.diagnostics() == b.diagnostics(),
        a.semantic.table.symbols.len() == b.semantic.table.symbols.len(),
        a.semantic.table.references.len() == b.semantic.table.references.len(),
{
    assert(a.semantic.table.syms().len() == a.semantic.table.symbols.len());
    assert(b.semantic.table.syms().len() == b.semantic.table.symbols.len());
    assert(a.semantic.table.refs().len() == a.semantic.table.references.len());
    assert(b.semantic.table.refs().len() == b.semantic.table.references.len());
}

} // verus!
