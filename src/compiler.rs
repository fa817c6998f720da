//! From pattern text to a symbolic pattern: tokenize, parse, symbolize.
use vstd::prelude::*;

use crate::grammar::{parse_at, tokens_view};
use crate::ir::{pattern_model, AbstractSyntaxTree, PatternModel};
use crate::lexer::{lemma_scan_end, scan, tokenize, LexError, SpanToken, TokenKind};
use crate::parser::{ErrorListener, ParseError, Parser, TokenStream};
use crate::symbolizer::{
    distinct_formulas, symbolize, symbolized, table_models, table_wf, SymbolicAbstractSyntaxTree,
    MAX_SYMBOLS,
};

verus! {

/// Why a pattern could not be compiled.
pub enum CompileError {
    /// A character that starts no token.
    Lex(LexError),
    /// A syntax error.
    Parse(ParseError),
    /// More distinct formulas than there are symbols.
    TooManyFormulas,
}

/// The outcome of a search over one stream.
#[derive(PartialEq, Eq, Structural, Clone, Copy, Debug)]
pub enum Status {
    MatchFound,
    MatchNotFound,
}

/// The tokens of a source text as the grammar reads them: kind and text.
pub open spec fn source_tokens(src: Seq<char>) -> Seq<(TokenKind, Seq<char>)> {
    scan(src, 0)->Ok_0.map(|_i: int, st: SpanToken| (st.kind, src.subrange(st.start, st.end)))
}

/// The model of a parsed pattern; `None` for the empty pattern.
pub open spec fn root_model(ast: AbstractSyntaxTree) -> Option<PatternModel> {
    match ast.root {
        Some(n) => Some(pattern_model(n)),
        None => None,
    }
}

/// Tokenize and parse a pattern.
///
/// A lexical error comes exactly when the source holds a character that
/// starts no token; otherwise the tree is the one the grammar derives from
/// the tokens, and a syntax error comes exactly when it derives none.
pub fn parse_source(source: &str) -> (r: Result<AbstractSyntaxTree, CompileError>)
    requires
        source@.len() < usize::MAX,
    ensures
        (r matches Err(CompileError::Lex(_))) <==> scan(source@, 0) is Err,
        scan(source@, 0) is Ok ==> match parse_at(source_tokens(source@), 0) {
            Some(g) => r is Ok && root_model(r->Ok_0) == g,
            None => r matches Err(CompileError::Parse(_)),
        },
{
    let tokens = match tokenize(source) {
        Ok(t) => t,
        Err(e) => {
            return Err(CompileError::Lex(e));
        },
    };
    proof {
        lemma_scan_end(source@, 0);
        let ts = scan(source@, 0)->Ok_0;
        assert(tokens@[tokens@.len() - 1].kind == ts[ts.len() - 1].kind);
        assert forall|i: int| 0 <= i < tokens@.len() - 1 implies #[trigger] tokens@[i].kind != TokenKind::EndOfFile by {
            assert(tokens@[i].kind == ts[i].kind);
        }
        assert(tokens_view(tokens@) =~= source_tokens(source@));
    }
    let stream = TokenStream::new(tokens);
    let parser = Parser::new(stream).attach(ErrorListener::new());
    match parser.parse() {
        Ok(a) => Ok(a),
        Err(e) => Err(CompileError::Parse(e)),
    }
}

/// Two parses of one source give structurally identical trees.
pub proof fn lemma_parse_deterministic(src: Seq<char>, a: AbstractSyntaxTree, b: AbstractSyntaxTree)
    requires
        parse_at(source_tokens(src), 0) == Some(root_model(a)),
        parse_at(source_tokens(src), 0) == Some(root_model(b)),
    ensures
        root_model(a) == root_model(b),
{
}

/// `s` is the symbolization of the parsed pattern `ast`: its table holds the
/// pattern's distinct formulas in order of first appearance.
pub open spec fn symbolizes(ast: AbstractSyntaxTree, s: SymbolicAbstractSyntaxTree) -> bool {
    match (ast.root, s.root) {
        (None, None) => s.table@.len() == 0,
        (Some(a), Some(b)) => table_wf(s.table@) && symbolized(a, b, s.table@) && table_models(
            s.table@,
        ) == distinct_formulas(a),
        _ => false,
    }
}

/// Compile a pattern into a regular expression over symbols and the table
/// of the formulas they stand for.
pub fn compile(pattern: &str) -> (r: Result<SymbolicAbstractSyntaxTree, CompileError>)
    requires
        pattern@.len() < usize::MAX,
    ensures
        (r matches Err(CompileError::Lex(_))) <==> scan(pattern@, 0) is Err,
        scan(pattern@, 0) is Ok ==> ((r matches Err(CompileError::Parse(_))) <==> parse_at(
            source_tokens(pattern@),
            0,
        ) is None),
        r is Ok ==> table_wf(r->Ok_0.table@) && exists|ast: AbstractSyntaxTree|
            parse_at(source_tokens(pattern@), 0) == Some(root_model(ast)) && #[trigger] symbolizes(
                ast,
                r->Ok_0,
            ),
        (r matches Err(CompileError::TooManyFormulas)) ==> exists|ast: AbstractSyntaxTree|
            parse_at(source_tokens(pattern@), 0) == Some(root_model(ast)) && ast.root is Some
                && distinct_formulas(#[trigger] ast.root->0).len() > MAX_SYMBOLS,
{
    let ast = parse_source(pattern)?;
    let ghost parsed = ast;
    match symbolize(ast) {
        Some(s) => {
            assert(symbolizes(parsed, s));
            Ok(s)
        },
        None => Err(CompileError::TooManyFormulas),
    }
}

} // verus!
