//! A recursive-descent parser for patterns.
//!
//! ```text
//! spre     ::= piece piece* ( '|' spre )?        concatenation nested to the left
//! piece    ::= atom ( '*' | range )*              stars and ranges bind to the atom
//! atom     ::= '(' spre ')' | '[' s4u ']'
//! range    ::= '{' Integer ( ',' Integer? )? '}'
//! s4u      ::= s4u_atom ( ('&' | '|') s4u_atom )*  nested to the left
//! s4u_atom ::= '(' s4u ')' | '!' s4u_atom | 'NonEmpty' class     ('~' is '!')
//!            | 'NonEmpty' '(' s4 ')' | 'E' '(' bindings ')' s4u
//!            | 'A' '(' bindings ')' s4u | class | s4m cmp s4m
//! bindings ::= Identifier ':=' class ( ',' bindings )?
//! s4m      ::= s4m_atom ( ('+' | '-' | '*' | '/') s4m_atom )*  nested to the left
//! s4m_atom ::= '(' s4m ')' | Integer | Real | '-' s4m
//!            | '@' Identifier '(' s4 ( ',' s4 )? ')'
//! s4       ::= s4_atom ( ('&' | '|') s4_atom )*   nested to the left
//! s4_atom  ::= '(' s4 ')' | '!' s4_atom | Identifier | class
//! class    ::= '[' ':' Identifier ':' ']'
//! ```
use vstd::prelude::*;
use vstd::string::*;

use crate::grammar::{
    bind_model, bindings_at, chain_rest, class_at, dot_from, lead_from, number_text, parse_at,
    pattern_at, piece_at, piece_rest, range_at, region_at, region_atom_at, region_rest, scalar_at,
    scalar_atom_at, scalar_rest, tokens_view, trail_from, truth_at, truth_atom_at, truth_rest,
};
use crate::ir::{
    bindings_model, formula_model, lemma_bindings_model, operator_model, pattern_model,
    AbstractSyntaxTree, FormulaModel, Node, OperandKind, OperatorModel, PatternModel,
    SpatialFormula,
};
use crate::lexer::{Token, TokenKind};
use crate::ops::{
    FolOperatorKind, Operator, RangeKind, RegexOperatorKind, S4OperatorKind, S4mOperatorKind,
    S4uOperatorKind, SpatialOperatorKind,
};

verus! {

/// A buffered sequence of tokens that ends with `EndOfFile`.
pub struct TokenStream {
    pub buffer: Vec<Token>,
    pub size: usize,
}

impl TokenStream {
    /// Well-formed: `size` is the length and only the last token, which
    /// exists, is `EndOfFile`.
    pub open spec fn wf(&self) -> bool {
        &&& self.size == self.buffer@.len()
        &&& self.size >= 1
        &&& self.buffer@[self.size - 1].kind == TokenKind::EndOfFile
        &&& forall|i: int| 0 <= i < self.size - 1 ==> #[trigger] self.buffer@[i].kind
            != TokenKind::EndOfFile
    }

    /// Wrap the tokens of one source text.
    pub fn new(buffer: Vec<Token>) -> (r: TokenStream)
        ensures
            r.buffer == buffer,
            r.size == buffer@.len(),
    {
        let size = buffer.len();
        TokenStream { buffer, size }
    }
}

/// Where syntax errors are reported.
///
/// A parser without one has nowhere to report to, and is not used.
pub struct ErrorListener {}

impl ErrorListener {
    /// A listener for one parse.
    pub fn new() -> (r: ErrorListener) {
        ErrorListener {}
    }
}

/// A syntax error and the position of the offending token.
#[derive(Debug)]
pub enum ParseError {
    /// The token found is not the one the grammar requires.
    Expected { line: usize, col: usize, expected: TokenKind, found: TokenKind },
    /// No production of the grammar starts with the token found.
    Syntax { line: usize, col: usize },
}

impl ParseError {
    /// The exit status that reports this error: 1 for an unexpected token,
    /// 2 for any other syntax error.
    pub fn code(&self) -> (r: i32)
        ensures
            r == (if self is Expected { 1i32 } else { 2i32 }),
    {
        match self {
            ParseError::Expected { .. } => 1,
            ParseError::Syntax { .. } => 2,
        }
    }
}

/// The pattern parser: a token stream, an error listener, and a cursor.
pub struct Parser {
    pub stream: TokenStream,
    pub listener: Option<ErrorListener>,
    pub current: usize,
}

fn fol(k: FolOperatorKind) -> (r: Operator)
    ensures
        r == Operator::SpatialOperator(SpatialOperatorKind::FolOperator(k)),
        operator_model(r) == OperatorModel::Fol(k),
{
    Operator::SpatialOperator(SpatialOperatorKind::FolOperator(k))
}

/// The model of an S4m operator kind.
pub open spec fn s4m_model(k: S4mOperatorKind) -> OperatorModel {
    match k {
        S4mOperatorKind::Function(name) => OperatorModel::Function(name@),
        S4mOperatorKind::Inverse => OperatorModel::Inverse,
        S4mOperatorKind::Addition => OperatorModel::Addition,
        S4mOperatorKind::Subtraction => OperatorModel::Subtraction,
        S4mOperatorKind::Multiplication => OperatorModel::Multiplication,
        S4mOperatorKind::Division => OperatorModel::Division,
    }
}

fn s4m(k: S4mOperatorKind) -> (r: Operator)
    ensures
        r == Operator::SpatialOperator(SpatialOperatorKind::S4mOperator(k)),
        operator_model(r) == s4m_model(k),
{
    Operator::SpatialOperator(SpatialOperatorKind::S4mOperator(k))
}

fn s4(k: S4OperatorKind) -> (r: Operator)
    ensures
        r == Operator::SpatialOperator(SpatialOperatorKind::S4Operator(k)),
        operator_model(r) == OperatorModel::S4(k),
{
    Operator::SpatialOperator(SpatialOperatorKind::S4Operator(k))
}

fn non_empty() -> (r: Operator)
    ensures
        operator_model(r) == OperatorModel::NonEmpty,
{
    Operator::SpatialOperator(SpatialOperatorKind::S4uOperator(S4uOperatorKind::NonEmpty))
}

fn binder(existential: bool, table: Vec<(String, SpatialFormula)>) -> (r: Operator)
    ensures
        operator_model(r) == (if existential {
            OperatorModel::Exists(bindings_model(table, table@.len() as int))
        } else {
            OperatorModel::Forall(bindings_model(table, table@.len() as int))
        }),
{
    if existential {
        Operator::SpatialOperator(SpatialOperatorKind::S4uOperator(S4uOperatorKind::Exists(table)))
    } else {
        Operator::SpatialOperator(SpatialOperatorKind::S4uOperator(S4uOperatorKind::Forall(table)))
    }
}

fn formula_unary(op: Operator, child: SpatialFormula) -> (r: SpatialFormula)
    ensures
        formula_model(r) == FormulaModel::Unary(operator_model(op), Box::new(formula_model(child))),
{
    Node::UnaryExpr { op, child: Box::new(child) }
}

fn formula_binary(op: Operator, lhs: SpatialFormula, rhs: SpatialFormula) -> (r: SpatialFormula)
    ensures
        formula_model(r) == FormulaModel::Binary(
            operator_model(op),
            Box::new(formula_model(lhs)),
            Box::new(formula_model(rhs)),
        ),
{
    Node::BinaryExpr { op, lhs: Box::new(lhs), rhs: Box::new(rhs) }
}

fn regex(k: RegexOperatorKind) -> (r: Operator)
    ensures
        r == Operator::RegexOperator(k),
{
    Operator::RegexOperator(k)
}

/// What a parse step returns: a value and the position after it.
type Step<T> = Result<(T, usize), ParseError>;

/// A formula step agrees with the grammar's result: both fail, or both give
/// the same model and position.
pub open spec fn agrees(r: Step<SpatialFormula>, g: Option<(FormulaModel, int)>) -> bool {
    match r {
        Ok((n, p)) => g == Some((formula_model(n), p as int)),
        Err(_) => g is None,
    }
}

/// A pattern step agrees with the grammar's result.
pub open spec fn agrees_pattern(r: Step<Node<SpatialFormula>>, g: Option<(PatternModel, int)>) -> bool {
    match r {
        Ok((n, p)) => g == Some((pattern_model(n), p as int)),
        Err(_) => g is None,
    }
}

/// A range step agrees with the grammar's result.
pub open spec fn agrees_range(r: Step<RangeKind>, g: Option<(RangeKind, int)>) -> bool {
    match r {
        Ok((k, p)) => g == Some((k, p as int)),
        Err(_) => g is None,
    }
}

impl Parser {
    /// Create a new [`Parser`] over a token stream, with no listener yet.
    pub fn new(stream: TokenStream) -> (r: Parser)
        ensures
            r.stream == stream,
            r.listener is None,
            r.current == 0,
    {
        Parser { stream, listener: None, current: 0 }
    }

    /// Attach an [`ErrorListener`].
    pub fn attach(self, listener: ErrorListener) -> (r: Parser)
        ensures
            r.stream == self.stream,
            r.listener == Some(listener),
            r.current == self.current,
    {
        Parser { stream: self.stream, listener: Some(listener), current: self.current }
    }

    pub open spec fn len(&self) -> int {
        self.stream.buffer@.len() as int
    }

    pub open spec fn kind(&self, pos: int) -> TokenKind {
        self.stream.buffer@[pos].kind
    }

    fn kind_at(&self, pos: usize) -> (r: TokenKind)
        requires
            self.stream.wf(),
            pos < self.len(),
        ensures
            r == self.kind(pos as int),
    {
        self.stream.buffer[pos].kind
    }

    /// Require the token at `pos` to be of `kind`, and step over it.
    fn expect(&self, pos: usize, kind: TokenKind) -> (r: Result<usize, ParseError>)
        requires
            self.stream.wf(),
            pos < self.len(),
            kind != TokenKind::EndOfFile,
        ensures
            r is Ok <==> self.kind(pos as int) == kind,
            r is Ok ==> r->Ok_0 == pos + 1 && r->Ok_0 < self.len(),
            r is Err ==> r->Err_0 == (ParseError::Expected {
                line: self.stream.buffer@[pos as int].line,
                col: self.stream.buffer@[pos as int].col,
                expected: kind,
                found: self.kind(pos as int),
            }),
    {
        let t = &self.stream.buffer[pos];
        if t.kind != kind {
            return Err(
                ParseError::Expected { line: t.line, col: t.col, expected: kind, found: t.kind },
            );
        }
        Ok(pos + 1)
    }

    /// A syntax error at the token at `pos`.
    fn error(&self, pos: usize) -> (r: ParseError)
        requires
            self.stream.wf(),
            pos < self.len(),
        ensures
            r == (ParseError::Syntax {
                line: self.stream.buffer@[pos as int].line,
                col: self.stream.buffer@[pos as int].col,
            }),
    {
        let t = &self.stream.buffer[pos];
        ParseError::Syntax { line: t.line, col: t.col }
    }

    /// Parse the whole stream into an [`AbstractSyntaxTree`].
    ///
    /// An empty pattern (only `EndOfFile`) gives a tree without a root. A
    /// token left after a complete pattern is an `Expected` error at that
    /// token; a first token that starts no pattern is a `Syntax` error there.
    pub fn parse(&self) -> (r: Result<AbstractSyntaxTree, ParseError>)
        requires
            self.stream.wf(),
            self.listener is Some,
            self.current < self.len(),
        ensures
            match parse_at(tokens_view(self.stream.buffer@), self.current as int) {
                Some(g) => r is Ok && match g {
                    None => r->Ok_0.root is None,
                    Some(m) => r->Ok_0.root is Some && pattern_model(r->Ok_0.root->0) == m,
                },
                None => r is Err,
            },
            match pattern_at(tokens_view(self.stream.buffer@), self.current as int) {
                Some((m, p)) => p < self.len() && self.kind(p) != TokenKind::EndOfFile ==> r == Err::<
                    AbstractSyntaxTree,
                    ParseError,
                >(
                    ParseError::Expected {
                        line: self.stream.buffer@[p].line,
                        col: self.stream.buffer@[p].col,
                        expected: TokenKind::EndOfFile,
                        found: self.kind(p),
                    },
                ),
                None => true,
            },
            self.kind(self.current as int) != TokenKind::EndOfFile && self.kind(self.current as int)
                != TokenKind::LeftParen && self.kind(self.current as int) != TokenKind::LeftBracket
                ==> r == Err::<AbstractSyntaxTree, ParseError>(
                ParseError::Syntax {
                    line: self.stream.buffer@[self.current as int].line,
                    col: self.stream.buffer@[self.current as int].col,
                },
            ),
    {
        let pos = self.current;
        if self.kind_at(pos) == TokenKind::EndOfFile {
            return Ok(AbstractSyntaxTree::new(None));
        }
        let (node, p) = self.parse_spre(pos)?;
        let t = &self.stream.buffer[p];
        if t.kind != TokenKind::EndOfFile {
            return Err(
                ParseError::Expected {
                    line: t.line,
                    col: t.col,
                    expected: TokenKind::EndOfFile,
                    found: t.kind,
                },
            );
        }
        Ok(AbstractSyntaxTree::new(Some(node)))
    }

    /// Parse a regular expression over bracketed spatial formulas.
    fn parse_spre(&self, pos: usize) -> (r: Step<Node<SpatialFormula>>)
        requires
            self.stream.wf(),
            pos < self.len(),
        ensures
            r is Ok ==> pos < r->Ok_0.1 < self.len(),
            agrees_pattern(r, pattern_at(tokens_view(self.stream.buffer@), pos as int)),
            self.kind(pos as int) != TokenKind::LeftParen && self.kind(pos as int) != TokenKind::LeftBracket
                ==> r == Err::<(Node<SpatialFormula>, usize), ParseError>(
                ParseError::Syntax {
                    line: self.stream.buffer@[pos as int].line,
                    col: self.stream.buffer@[pos as int].col,
                },
            ),
        decreases self.len() - pos, 7nat,
    {
        let (mut node, mut p) = self.parse_piece(pos)?;
        loop
            invariant
                self.stream.wf(),
                pos < p < self.len(),
                self.kind(pos as int) == TokenKind::LeftParen || self.kind(pos as int) == TokenKind::LeftBracket,
                pattern_at(tokens_view(self.stream.buffer@), pos as int) == chain_rest(
                    tokens_view(self.stream.buffer@),
                    pattern_model(node),
                    p as int,
                ),
            decreases self.len() - p,
        {
            match self.kind_at(p) {
                TokenKind::LeftParen | TokenKind::LeftBracket => {
                    let (right, p1) = self.parse_piece(p)?;
                    node = Node::binary(regex(RegexOperatorKind::Concatenation), node, right);
                    p = p1;
                },
                TokenKind::Or => {
                    let p1 = self.expect(p, TokenKind::Or)?;
                    let (right, p2) = self.parse_spre(p1)?;
                    return Ok(
                        (Node::binary(regex(RegexOperatorKind::Alternation), node, right), p2),
                    );
                },
                _ => {
                    return Ok((node, p));
                },
            }
        }
    }

    /// Parse an atom and the stars and ranges that apply to it.
    fn parse_piece(&self, pos: usize) -> (r: Step<Node<SpatialFormula>>)
        requires
            self.stream.wf(),
            pos < self.len(),
        ensures
            r is Ok ==> pos < r->Ok_0.1 < self.len(),
            agrees_pattern(r, piece_at(tokens_view(self.stream.buffer@), pos as int)),
            self.kind(pos as int) != TokenKind::LeftParen && self.kind(pos as int) != TokenKind::LeftBracket
                ==> r == Err::<(Node<SpatialFormula>, usize), ParseError>(
                ParseError::Syntax {
                    line: self.stream.buffer@[pos as int].line,
                    col: self.stream.buffer@[pos as int].col,
                },
            ),
        decreases self.len() - pos, 5nat,
    {
        let (mut node, mut p) = match self.kind_at(pos) {
            TokenKind::LeftParen => {
                let p1 = self.expect(pos, TokenKind::LeftParen)?;
                let (n, p2) = self.parse_spre(p1)?;
                let p3 = self.expect(p2, TokenKind::RightParen)?;
                (n, p3)
            },
            TokenKind::LeftBracket => {
                let p1 = self.expect(pos, TokenKind::LeftBracket)?;
                let (f, p2) = self.parse_s4u(p1)?;
                let p3 = self.expect(p2, TokenKind::RightBracket)?;
                (Node::Operand(f), p3)
            },
            _ => {
                return Err(self.error(pos));
            },
        };
        loop
            invariant
                self.stream.wf(),
                pos < p < self.len(),
                self.kind(pos as int) == TokenKind::LeftParen || self.kind(pos as int) == TokenKind::LeftBracket,
                piece_at(tokens_view(self.stream.buffer@), pos as int) == piece_rest(
                    tokens_view(self.stream.buffer@),
                    pattern_model(node),
                    p as int,
                ),
            decreases self.len() - p,
        {
            match self.kind_at(p) {
                TokenKind::Star => {
                    p = self.expect(p, TokenKind::Star)?;
                    node = Node::unary(regex(RegexOperatorKind::KleeneStar), node);
                },
                TokenKind::LeftBrace => {
                    let (range, p1) = self.parse_range(p)?;
                    p = p1;
                    node = Node::unary(regex(RegexOperatorKind::Range(range)), node);
                },
                _ => {
                    return Ok((node, p));
                },
            }
        }
    }

    /// Parse a truth-valued spatial formula.
    fn parse_s4u(&self, pos: usize) -> (r: Step<SpatialFormula>)
        requires
            self.stream.wf(),
            pos < self.len(),
        ensures
            r is Ok ==> pos < r->Ok_0.1 < self.len(),
            agrees(r, truth_at(tokens_view(self.stream.buffer@), pos as int)),
        decreases self.len() - pos, 4nat,
    {
        let (mut node, mut p) = self.parse_s4u_atom(pos)?;
        loop
            invariant
                self.stream.wf(),
                pos < p < self.len(),
                truth_at(tokens_view(self.stream.buffer@), pos as int) == truth_rest(
                    tokens_view(self.stream.buffer@),
                    formula_model(node),
                    p as int,
                ),
            decreases self.len() - p,
        {
            let kind = match self.kind_at(p) {
                TokenKind::And => FolOperatorKind::Conjunction,
                TokenKind::Or => FolOperatorKind::Disjunction,
                _ => {
                    return Ok((node, p));
                },
            };
            let (right, p1) = self.parse_s4u_atom(p + 1)?;
            node = formula_binary(fol(kind), node, right);
            p = p1;
        }
    }

    /// Parse the operand of an S4u formula.
    fn parse_s4u_atom(&self, pos: usize) -> (r: Step<SpatialFormula>)
        requires
            self.stream.wf(),
            pos < self.len(),
        ensures
            r is Ok ==> pos < r->Ok_0.1 < self.len(),
            agrees(r, truth_atom_at(tokens_view(self.stream.buffer@), pos as int)),
        decreases self.len() - pos, 3nat,
    {
        match self.kind_at(pos) {
            TokenKind::LeftParen => {
                let p1 = self.expect(pos, TokenKind::LeftParen)?;
                let (n, p2) = self.parse_s4u(p1)?;
                let p3 = self.expect(p2, TokenKind::RightParen)?;
                Ok((n, p3))
            },
            TokenKind::Not => {
                let p1 = self.expect(pos, TokenKind::Not)?;
                let (child, p2) = self.parse_s4u_atom(p1)?;
                Ok((formula_unary(fol(FolOperatorKind::Negation), child), p2))
            },
            TokenKind::NonEmpty => {
                let p1 = self.expect(pos, TokenKind::NonEmpty)?;
                let (child, p2) = match self.kind_at(p1) {
                    TokenKind::LeftBracket => self.parse_class(p1)?,
                    TokenKind::LeftParen => {
                        let q1 = self.expect(p1, TokenKind::LeftParen)?;
                        let (c, q2) = self.parse_s4(q1)?;
                        let q3 = self.expect(q2, TokenKind::RightParen)?;
                        (c, q3)
                    },
                    _ => {
                        return Err(self.error(p1));
                    },
                };
                let op = non_empty();
                Ok((formula_unary(op, child), p2))
            },
            TokenKind::Exists => {
                let p1 = self.expect(pos, TokenKind::Exists)?;
                let p2 = self.expect(p1, TokenKind::LeftParen)?;
                let mut table: Vec<(String, SpatialFormula)> = Vec::new();
                let p3 = self.parse_bindings(p2, &mut table)?;
                let p4 = self.expect(p3, TokenKind::RightParen)?;
                let (child, p5) = self.parse_s4u(p4)?;
                let op = binder(true, table);
                Ok((formula_unary(op, child), p5))
            },
            TokenKind::Forall => {
                let p1 = self.expect(pos, TokenKind::Forall)?;
                let p2 = self.expect(p1, TokenKind::LeftParen)?;
                let mut table: Vec<(String, SpatialFormula)> = Vec::new();
                let p3 = self.parse_bindings(p2, &mut table)?;
                let p4 = self.expect(p3, TokenKind::RightParen)?;
                let (child, p5) = self.parse_s4u(p4)?;
                let op = binder(false, table);
                Ok((formula_unary(op, child), p5))
            },
            TokenKind::At | TokenKind::Integer | TokenKind::Real | TokenKind::Minus => {
                let (lhs, p1) = self.parse_s4m(pos)?;
                let kind = match self.kind_at(p1) {
                    TokenKind::LeftChevron => FolOperatorKind::LessThan,
                    TokenKind::RightChevron => FolOperatorKind::GreaterThan,
                    TokenKind::LeftChevronEqual => FolOperatorKind::LessThanEqualTo,
                    TokenKind::RightChevronEqual => FolOperatorKind::GreaterThanEqualTo,
                    _ => {
                        return Err(self.error(p1));
                    },
                };
                let (rhs, p2) = self.parse_s4m(p1 + 1)?;
                Ok((formula_binary(fol(kind), lhs, rhs), p2))
            },
            TokenKind::LeftBracket => self.parse_class(pos),
            _ => Err(self.error(pos)),
        }
    }

    /// Parse `Identifier ':=' class (',' ...)*`, appending each binding to
    /// `table`; a later binding of a name already there replaces it in place.
    fn parse_bindings(&self, pos: usize, table: &mut Vec<(String, SpatialFormula)>) -> (r: Result<
        usize,
        ParseError,
    >)
        requires
            self.stream.wf(),
            pos < self.len(),
        ensures
            r is Ok ==> pos < r->Ok_0 < self.len(),
            match bindings_at(tokens_view(self.stream.buffer@), pos as int, bindings_model(*old(table), old(table)@.len() as int)) {
                Some((b, q)) => r is Ok && r->Ok_0 == q && bindings_model(*final(table), final(table)@.len() as int) == b,
                None => r is Err,
            },
        decreases self.len() - pos,
    {
        let p1 = self.expect(pos, TokenKind::Identifier)?;
        let name = self.stream.buffer[pos].lexeme.clone();
        let p2 = self.expect(p1, TokenKind::Walrus)?;
        let (class, p3) = self.parse_class(p2)?;
        bind(table, name, class);
        if self.kind_at(p3) == TokenKind::Comma {
            let p4 = self.expect(p3, TokenKind::Comma)?;
            self.parse_bindings(p4, table)
        } else {
            Ok(p3)
        }
    }

    /// Parse a scalar expression.
    fn parse_s4m(&self, pos: usize) -> (r: Step<SpatialFormula>)
        requires
            self.stream.wf(),
            pos < self.len(),
        ensures
            r is Ok ==> pos < r->Ok_0.1 < self.len(),
            agrees(r, scalar_at(tokens_view(self.stream.buffer@), pos as int)),
        decreases self.len() - pos, 2nat,
    {
        let (mut node, mut p) = self.parse_s4m_atom(pos)?;
        loop
            invariant
                self.stream.wf(),
                pos < p < self.len(),
                scalar_at(tokens_view(self.stream.buffer@), pos as int) == scalar_rest(
                    tokens_view(self.stream.buffer@),
                    formula_model(node),
                    p as int,
                ),
            decreases self.len() - p,
        {
            let kind = match self.kind_at(p) {
                TokenKind::Plus => S4mOperatorKind::Addition,
                TokenKind::Minus => S4mOperatorKind::Subtraction,
                TokenKind::Star => S4mOperatorKind::Multiplication,
                TokenKind::Slash => S4mOperatorKind::Division,
                _ => {
                    return Ok((node, p));
                },
            };
            let (rhs, p1) = self.parse_s4m_atom(p + 1)?;
            node = formula_binary(s4m(kind), node, rhs);
            p = p1;
        }
    }

    /// Parse the operand of a scalar expression.
    fn parse_s4m_atom(&self, pos: usize) -> (r: Step<SpatialFormula>)
        requires
            self.stream.wf(),
            pos < self.len(),
        ensures
            r is Ok ==> pos < r->Ok_0.1 < self.len(),
            agrees(r, scalar_atom_at(tokens_view(self.stream.buffer@), pos as int)),
        decreases self.len() - pos, 1nat,
    {
        let (node, p) = match self.kind_at(pos) {
            TokenKind::LeftParen => {
                let p1 = self.expect(pos, TokenKind::LeftParen)?;
                let (n, p2) = self.parse_s4m(p1)?;
                let p3 = self.expect(p2, TokenKind::RightParen)?;
                (n, p3)
            },
            TokenKind::At => {
                let p1 = self.expect(pos, TokenKind::At)?;
                let name = self.stream.buffer[p1].lexeme.clone();
                let p2 = self.expect(p1, TokenKind::Identifier)?;
                let p3 = self.expect(p2, TokenKind::LeftParen)?;
                let (child, p4) = self.parse_s4(p3)?;
                if self.kind_at(p4) == TokenKind::Comma {
                    let p5 = self.expect(p4, TokenKind::Comma)?;
                    let (right, p6) = self.parse_s4(p5)?;
                    let p7 = self.expect(p6, TokenKind::RightParen)?;
                    (formula_binary(s4m(S4mOperatorKind::Function(name)), child, right), p7)
                } else {
                    let p5 = self.expect(p4, TokenKind::RightParen)?;
                    (formula_unary(s4m(S4mOperatorKind::Function(name)), child), p5)
                }
            },
            TokenKind::Real | TokenKind::Integer => {
                let text = self.stream.buffer[pos].lexeme.clone();
                (Node::Operand(OperandKind::Number(canonical_number(&text))), pos + 1)
            },
            TokenKind::Minus => {
                let p1 = self.expect(pos, TokenKind::Minus)?;
                let (child, p2) = self.parse_s4m(p1)?;
                (formula_unary(s4m(S4mOperatorKind::Inverse), child), p2)
            },
            _ => {
                return Err(self.error(pos));
            },
        };
        Ok((node, p))
    }

    /// Parse a region expression.
    fn parse_s4(&self, pos: usize) -> (r: Step<SpatialFormula>)
        requires
            self.stream.wf(),
            pos < self.len(),
        ensures
            r is Ok ==> pos < r->Ok_0.1 < self.len(),
            agrees(r, region_at(tokens_view(self.stream.buffer@), pos as int)),
        decreases self.len() - pos, 2nat,
    {
        let (mut node, mut p) = self.parse_s4_atom(pos)?;
        loop
            invariant
                self.stream.wf(),
                pos < p < self.len(),
                region_at(tokens_view(self.stream.buffer@), pos as int) == region_rest(
                    tokens_view(self.stream.buffer@),
                    formula_model(node),
                    p as int,
                ),
            decreases self.len() - p,
        {
            let kind = match self.kind_at(p) {
                TokenKind::And => S4OperatorKind::Intersection,
                TokenKind::Or => S4OperatorKind::Union,
                _ => {
                    return Ok((node, p));
                },
            };
            let (right, p1) = self.parse_s4_atom(p + 1)?;
            node = formula_binary(s4(kind), node, right);
            p = p1;
        }
    }

    /// Parse the operand of a region expression.
    fn parse_s4_atom(&self, pos: usize) -> (r: Step<SpatialFormula>)
        requires
            self.stream.wf(),
            pos < self.len(),
        ensures
            r is Ok ==> pos < r->Ok_0.1 < self.len(),
            agrees(r, region_atom_at(tokens_view(self.stream.buffer@), pos as int)),
        decreases self.len() - pos, 1nat,
    {
        match self.kind_at(pos) {
            TokenKind::LeftParen => {
                let p1 = self.expect(pos, TokenKind::LeftParen)?;
                let (n, p2) = self.parse_s4(p1)?;
                let p3 = self.expect(p2, TokenKind::RightParen)?;
                Ok((n, p3))
            },
            TokenKind::Identifier => {
                let name = self.stream.buffer[pos].lexeme.clone();
                Ok((Node::Operand(OperandKind::Variable(name)), pos + 1))
            },
            TokenKind::Not => {
                let (child, p1) = self.parse_s4_atom(pos + 1)?;
                Ok((formula_unary(s4(S4OperatorKind::Complement), child), p1))
            },
            TokenKind::LeftBracket => self.parse_class(pos),
            _ => Err(self.error(pos)),
        }
    }

    /// Parse a class: `'[' ':' Identifier ':' ']'`.
    fn parse_class(&self, pos: usize) -> (r: Step<SpatialFormula>)
        requires
            self.stream.wf(),
            pos < self.len(),
        ensures
            r is Ok ==> pos < r->Ok_0.1 < self.len(),
            r is Ok ==> r->Ok_0.0 is Operand,
            agrees(r, class_at(tokens_view(self.stream.buffer@), pos as int)),
    {
        let p1 = self.expect(pos, TokenKind::LeftBracket)?;
        let p2 = self.expect(p1, TokenKind::Colon)?;
        let name = self.stream.buffer[p2].lexeme.clone();
        let p3 = self.expect(p2, TokenKind::Identifier)?;
        let p4 = self.expect(p3, TokenKind::Colon)?;
        let p5 = self.expect(p4, TokenKind::RightBracket)?;
        Ok((Node::Operand(OperandKind::Symbol(name)), p5))
    }

    /// Parse a counted repetition: `{n}`, `{n,}` or `{n,m}`.
    ///
    /// After the comma, anything but an integer gives the open form.
    fn parse_range(&self, pos: usize) -> (r: Step<RangeKind>)
        requires
            self.stream.wf(),
            pos < self.len(),
        ensures
            r is Ok ==> pos < r->Ok_0.1 < self.len(),
            agrees_range(r, range_at(tokens_view(self.stream.buffer@), pos as int)),
    {
        let p1 = self.expect(pos, TokenKind::LeftBrace)?;
        let min_text = &self.stream.buffer[p1].lexeme;
        let p2 = self.expect(p1, TokenKind::Integer)?;
        let min = match parse_count(min_text) {
            Some(v) => v,
            None => {
                return Err(self.error(p1));
            },
        };
        let (range, p3) = if self.kind_at(p2) == TokenKind::Comma {
            let p3 = self.expect(p2, TokenKind::Comma)?;
            if self.kind_at(p3) == TokenKind::Integer {
                let max = match parse_count(&self.stream.buffer[p3].lexeme) {
                    Some(v) => v,
                    None => {
                        return Err(self.error(p3));
                    },
                };
                (RangeKind::Between(min, max), p3 + 1)
            } else {
                (RangeKind::AtLeast(min), p3)
            }
        } else {
            (RangeKind::Exactly(min), p2)
        };
        let p4 = self.expect(p3, TokenKind::RightBrace)?;
        Ok((range, p4))
    }
}

/// A number literal in the canonical form of [`number_text`].
pub fn canonical_number(text: &String) -> (r: String)
    ensures
        r@ == number_text(text@),
{
    let s = text.as_str();
    let n = s.unicode_len();
    let mut d: usize = 0;
    while d < n && s.get_char(d) != '.'
        invariant
            n == text@.len(),
            s@ == text@,
            d <= n,
            dot_from(text@, 0) == dot_from(text@, d as int),
        decreases n - d,
    {
        d = d + 1;
    }
    let mut i: usize = 0;
    while i + 1 < d && s.get_char(i) == '0'
        invariant
            n == text@.len(),
            s@ == text@,
            d <= n,
            i < d || i == 0,
            lead_from(text@, 0, d as int) == lead_from(text@, i as int, d as int),
        decreases d - i,
    {
        i = i + 1;
    }
    if d >= n {
        return s.substring_char(i, d).to_owned();
    }
    let mut e: usize = n;
    while e > d + 1 && s.get_char(e - 1) == '0'
        invariant
            n == text@.len(),
            s@ == text@,
            d < n,
            d + 1 <= e <= n,
            trail_from(text@, n as int, d as int) == trail_from(text@, e as int, d as int),
        decreases e,
    {
        e = e - 1;
    }
    if e == d + 1 {
        s.substring_char(i, d).to_owned()
    } else {
        s.substring_char(i, e).to_owned()
    }
}

/// The value of a string of decimal digits.
pub open spec fn decimal_value(s: Seq<char>) -> nat
    decreases s.len(),
{
    if s.len() == 0 {
        0
    } else {
        decimal_value(s.drop_last()) * 10 + (s.last() as nat - '0' as nat) as nat
    }
}

/// Whether every character of `s` is a decimal digit.
pub open spec fn all_digits(s: Seq<char>) -> bool {
    forall|i: int| 0 <= i < s.len() ==> #[trigger] crate::lexer::is_digit(s[i])
}

/// Read a count written in decimal digits; `None` when a character is not a
/// digit or the value does not fit.
pub fn parse_count(text: &String) -> (r: Option<usize>)
    ensures
        r is Some <==> all_digits(text@) && decimal_value(text@) <= usize::MAX,
        r is Some ==> r->0 == decimal_value(text@),
{
    let s = text.as_str();
    let n = s.unicode_len();
    let mut v: usize = 0;
    let mut i: usize = 0;
    while i < n
        invariant
            n == text@.len(),
            s@ == text@,
            i <= n,
            v == decimal_value(text@.subrange(0, i as int)),
            forall|k: int| 0 <= k < i ==> #[trigger] crate::lexer::is_digit(text@[k]),
        decreases n - i,
    {
        let c = s.get_char(i);
        if !('0' <= c && c <= '9') {
            assert(!crate::lexer::is_digit(text@[i as int]));
            return None;
        }
        let d = (c as u32 - '0' as u32) as usize;
        assert(text@.subrange(0, i + 1).drop_last() =~= text@.subrange(0, i as int));
        if v > (usize::MAX - d) / 10 {
            proof {
                if all_digits(text@) {
                    lemma_decimal_grows(text@, i as int + 1);
                }
            }
            return None;
        }
        v = v * 10 + d;
        i = i + 1;
    }
    assert(text@.subrange(0, n as int) =~= text@);
    Some(v)
}

proof fn lemma_decimal_grows(s: Seq<char>, k: int)
    requires
        0 <= k <= s.len(),
        forall|i: int| 0 <= i < s.len() ==> #[trigger] crate::lexer::is_digit(s[i]),
    ensures
        decimal_value(s.subrange(0, k)) <= decimal_value(s),
    decreases s.len() - k,
{
    if k < s.len() {
        lemma_decimal_grows(s, k + 1);
        assert(s.subrange(0, k + 1).drop_last() =~= s.subrange(0, k));
    } else {
        assert(s.subrange(0, k) =~= s);
    }
}

/// Add a binding to `table`, replacing the formula of a name already bound.
fn bind(table: &mut Vec<(String, SpatialFormula)>, name: String, class: SpatialFormula)
    ensures
        bindings_model(*final(table), final(table)@.len() as int) == bind_model(
            bindings_model(*old(table), old(table)@.len() as int),
            name@,
            formula_model(class),
        ),
{
    let ghost acc = bindings_model(*table, table@.len() as int);
    let ghost m = formula_model(class);
    proof {
        lemma_bindings_model(*table, table@.len() as int);
    }
    let mut i: usize = 0;
    while i < table.len()
        invariant
            i <= table@.len(),
            table@ == old(table)@,
            acc == bindings_model(*old(table), old(table)@.len() as int),
            m == formula_model(class),
            acc.len() == table@.len(),
            forall|k: int| 0 <= k < acc.len() ==> #[trigger] acc[k] == (table@[k].0@, formula_model(table@[k].1)),
            forall|k: int| 0 <= k < i ==> (#[trigger] table@[k]).0@ != name@,
        decreases table@.len() - i,
    {
        if table[i].0 == name {
            let ghost n = name@;
            let ghost t0 = table@;
            table.set(i, (name, class));
            proof {
                lemma_bind_model_prefix(acc, i as int, n, m);
                lemma_bindings_model(*table, table@.len() as int);
                let rest = acc.subrange(i as int, acc.len() as int);
                assert(rest[0] == acc[i as int]);
                assert(rest[0].0 == n);
                assert(acc.subrange(0, i as int) + rest.update(0, (n, m)) =~= acc.update(i as int, (n, m)));
                let nb = bindings_model(*table, table@.len() as int);
                assert forall|k: int| 0 <= k < acc.len() implies #[trigger] nb[k] == acc.update(i as int, (n, m))[k] by {
                    if k == i {
                        assert(nb[k] == (table@[k].0@, formula_model(table@[k].1)));
                        assert(table@[k].0@ == n);
                        assert(formula_model(table@[k].1) == m);
                    } else {
                        assert(table@[k] == t0[k]);
                        assert(acc[k] == (t0[k].0@, formula_model(t0[k].1)));
                    }
                }
                assert(nb =~= acc.update(i as int, (n, m)));
            }
            return;
        }
        i = i + 1;
    }
    let ghost n = name@;
    table.push((name, class));
    proof {
        lemma_bind_model_prefix(acc, i as int, n, m);
        lemma_bindings_model(*table, table@.len() as int);
        assert(acc.subrange(i as int, acc.len() as int) =~= Seq::<(Seq<char>, FormulaModel)>::empty());
        assert(acc.subrange(0, i as int) =~= acc);
        assert(bindings_model(*table, table@.len() as int) =~= acc.push((n, m)));
        assert(acc + seq![(n, m)] =~= acc.push((n, m)));
    }
}

proof fn lemma_bind_model_prefix(acc: Seq<(Seq<char>, FormulaModel)>, i: int, name: Seq<char>, m: FormulaModel)
    requires
        0 <= i <= acc.len(),
        forall|k: int| 0 <= k < i ==> (#[trigger] acc[k]).0 != name,
    ensures
        bind_model(acc, name, m) == acc.subrange(0, i) + bind_model(acc.subrange(i, acc.len() as int), name, m),
    decreases i,
{
    if i == 0 {
        assert(acc.subrange(0, 0) + bind_model(acc.subrange(0, acc.len() as int), name, m) =~= bind_model(acc, name, m)) by {
            assert(acc.subrange(0, acc.len() as int) =~= acc);
        }
    } else {
        let d = acc.drop_first();
        lemma_bind_model_prefix(d, i - 1, name, m);
        assert(acc[0].0 != name);
        assert(d.subrange(i - 1, d.len() as int) =~= acc.subrange(i, acc.len() as int));
        assert(seq![acc[0]] + d.subrange(0, i - 1) =~= acc.subrange(0, i));
    }
}

} // verus!
