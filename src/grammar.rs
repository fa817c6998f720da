//! The pattern grammar as spec functions over a token sequence.
//!
//! Each function reads one non-terminal starting at a position and gives the
//! model of what it read and the position after it, or `None` when the tokens
//! there do not derive it. The parser returns exactly these results.
use vstd::prelude::*;

use crate::ir::{FormulaModel, OperandModel, OperatorModel, PatternModel};
use crate::lexer::{Token, TokenKind};
use crate::ops::{FolOperatorKind, RangeKind, RegexOperatorKind};
use crate::parser::{all_digits, decimal_value};

verus! {

/// The tokens as the grammar reads them: kind and text.
pub open spec fn tokens_view(t: Seq<Token>) -> Seq<(TokenKind, Seq<char>)> {
    t.map(|_i: int, tok: Token| (tok.kind, tok.lexeme@))
}

/// The token at `p` exists and is of kind `k`.
pub open spec fn kind_is(t: Seq<(TokenKind, Seq<char>)>, p: int, k: TokenKind) -> bool {
    0 <= p < t.len() && t[p].0 == k
}

/// The text of the token at `p`.
pub open spec fn lexeme(t: Seq<(TokenKind, Seq<char>)>, p: int) -> Seq<char> {
    t[p].1
}

/// The count an integer token writes, when it fits a `usize`.
pub open spec fn count_of(text: Seq<char>) -> Option<usize> {
    if all_digits(text) && decimal_value(text) <= usize::MAX {
        Some(decimal_value(text) as usize)
    } else {
        None
    }
}

/// The first position at or after `i` that holds `.`, or the length.
pub open spec fn dot_from(s: Seq<char>, i: int) -> int
    decreases s.len() - i,
{
    if i < 0 || i >= s.len() || s[i] == '.' {
        i
    } else {
        dot_from(s, i + 1)
    }
}

/// Past the leading zeros from `i` of the integer part `s[..d]`, keeping
/// its last digit.
pub open spec fn lead_from(s: Seq<char>, i: int, d: int) -> int
    decreases d - i,
{
    if 0 <= i && i + 1 < d && s[i] == '0' {
        lead_from(s, i + 1, d)
    } else {
        i
    }
}

/// Before the trailing zeros up to `e` of the fraction `s[d + 1..]`.
pub open spec fn trail_from(s: Seq<char>, e: int, d: int) -> int
    decreases e - d,
{
    if e > d + 1 && e <= s.len() && s[e - 1] == '0' {
        trail_from(s, e - 1, d)
    } else {
        e
    }
}

/// The text of a number literal in canonical form: no leading zeros in the
/// integer part, no trailing zeros in the fraction, and no `.` when the
/// fraction is zero. Literals of equal value have equal canonical text.
pub open spec fn number_text(s: Seq<char>) -> Seq<char> {
    let d = dot_from(s, 0);
    let i = lead_from(s, 0, d);
    if d >= s.len() {
        s.subrange(i, d)
    } else {
        let e = trail_from(s, s.len() as int, d);
        if e == d + 1 {
            s.subrange(i, d)
        } else {
            s.subrange(i, e)
        }
    }
}

/// `acc` with the binding of `name` set to `m`: in place when `name` is
/// bound already, else at the end.
pub open spec fn bind_model(acc: Seq<(Seq<char>, FormulaModel)>, name: Seq<char>, m: FormulaModel) -> Seq<
    (Seq<char>, FormulaModel),
>
    decreases acc.len(),
{
    if acc.len() == 0 {
        seq![(name, m)]
    } else if acc[0].0 == name {
        acc.update(0, (name, m))
    } else {
        seq![acc[0]] + bind_model(acc.drop_first(), name, m)
    }
}

/// `'[' ':' Identifier ':' ']'`
pub open spec fn class_at(t: Seq<(TokenKind, Seq<char>)>, pos: int) -> Option<(FormulaModel, int)> {
    if kind_is(t, pos, TokenKind::LeftBracket) && kind_is(t, pos + 1, TokenKind::Colon) && kind_is(
        t,
        pos + 2,
        TokenKind::Identifier,
    ) && kind_is(t, pos + 3, TokenKind::Colon) && kind_is(t, pos + 4, TokenKind::RightBracket) {
        Some((FormulaModel::Operand(OperandModel::Symbol(lexeme(t, pos + 2))), pos + 5))
    } else {
        None
    }
}

/// `'{' Integer ( ',' Integer? )? '}'`
pub open spec fn range_at(t: Seq<(TokenKind, Seq<char>)>, pos: int) -> Option<(RangeKind, int)> {
    if !(kind_is(t, pos, TokenKind::LeftBrace) && kind_is(t, pos + 1, TokenKind::Integer)) {
        None
    } else if count_of(lexeme(t, pos + 1)) is None {
        None
    } else {
        let min = count_of(lexeme(t, pos + 1))->0;
        if kind_is(t, pos + 2, TokenKind::Comma) {
            if kind_is(t, pos + 3, TokenKind::Integer) {
                if count_of(lexeme(t, pos + 3)) is None {
                    None
                } else if kind_is(t, pos + 4, TokenKind::RightBrace) {
                    Some((RangeKind::Between(min, count_of(lexeme(t, pos + 3))->0), pos + 5))
                } else {
                    None
                }
            } else if kind_is(t, pos + 3, TokenKind::RightBrace) {
                Some((RangeKind::AtLeast(min), pos + 4))
            } else {
                None
            }
        } else if kind_is(t, pos + 2, TokenKind::RightBrace) {
            Some((RangeKind::Exactly(min), pos + 3))
        } else {
            None
        }
    }
}

/// `'(' s4 ')' | '!' s4_atom | Identifier | class`
pub open spec fn region_atom_at(t: Seq<(TokenKind, Seq<char>)>, pos: int) -> Option<(FormulaModel, int)>
    decreases t.len() - pos, 1int,
{
    if !(0 <= pos < t.len()) {
        None
    } else {
        match t[pos].0 {
            TokenKind::LeftParen => match region_at(t, pos + 1) {
                Some((n, p)) => if pos < p && kind_is(t, p, TokenKind::RightParen) {
                    Some((n, p + 1))
                } else {
                    None
                },
                None => None,
            },
            TokenKind::Identifier => Some(
                (FormulaModel::Operand(OperandModel::Variable(lexeme(t, pos))), pos + 1),
            ),
            TokenKind::Not => match region_atom_at(t, pos + 1) {
                Some((c, p)) => Some(
                    (
                        FormulaModel::Unary(
                            OperatorModel::S4(crate::ops::S4OperatorKind::Complement),
                            Box::new(c),
                        ),
                        p,
                    ),
                ),
                None => None,
            },
            TokenKind::LeftBracket => class_at(t, pos),
            _ => None,
        }
    }
}

/// `s4_atom ( ('&' | '|') s4_atom )*`, nested to the left.
pub open spec fn region_at(t: Seq<(TokenKind, Seq<char>)>, pos: int) -> Option<(FormulaModel, int)>
    decreases t.len() - pos, 2int,
{
    match region_atom_at(t, pos) {
        Some((n, p)) => if pos < p <= t.len() {
            region_rest(t, n, p)
        } else {
            None
        },
        None => None,
    }
}

/// After the region expression `n`, at `p`: each `&` or `|` and the operand
/// after it apply to everything read so far.
pub open spec fn region_rest(t: Seq<(TokenKind, Seq<char>)>, n: FormulaModel, p: int) -> Option<(FormulaModel, int)>
    decreases t.len() - p, 3int,
{
    if kind_is(t, p, TokenKind::And) || kind_is(t, p, TokenKind::Or) {
        let k = if t[p].0 == TokenKind::And {
            crate::ops::S4OperatorKind::Intersection
        } else {
            crate::ops::S4OperatorKind::Union
        };
        match region_atom_at(t, p + 1) {
            Some((r, q)) => if p < q <= t.len() {
                region_rest(t, FormulaModel::Binary(OperatorModel::S4(k), Box::new(n), Box::new(r)), q)
            } else {
                None
            },
            None => None,
        }
    } else {
        Some((n, p))
    }
}

/// `'(' s4m ')' | Integer | Real | '-' s4m | '@' Identifier '(' s4 (',' s4)? ')'`
pub open spec fn scalar_atom_at(t: Seq<(TokenKind, Seq<char>)>, pos: int) -> Option<(FormulaModel, int)>
    decreases t.len() - pos, 1int,
{
    if !(0 <= pos < t.len()) {
        None
    } else {
        match t[pos].0 {
            TokenKind::LeftParen => match scalar_at(t, pos + 1) {
                Some((n, p)) => if pos < p && kind_is(t, p, TokenKind::RightParen) {
                    Some((n, p + 1))
                } else {
                    None
                },
                None => None,
            },
            TokenKind::At => if kind_is(t, pos + 1, TokenKind::Identifier) && kind_is(
                t,
                pos + 2,
                TokenKind::LeftParen,
            ) {
                let f = OperatorModel::Function(lexeme(t, pos + 1));
                match region_at(t, pos + 3) {
                    Some((c, p)) => if !(pos < p) {
                        None
                    } else if kind_is(t, p, TokenKind::Comma) {
                        match region_at(t, p + 1) {
                            Some((r, q)) => if kind_is(t, q, TokenKind::RightParen) {
                                Some((FormulaModel::Binary(f, Box::new(c), Box::new(r)), q + 1))
                            } else {
                                None
                            },
                            None => None,
                        }
                    } else if kind_is(t, p, TokenKind::RightParen) {
                        Some((FormulaModel::Unary(f, Box::new(c)), p + 1))
                    } else {
                        None
                    },
                    None => None,
                }
            } else {
                None
            },
            TokenKind::Real | TokenKind::Integer => Some(
                (FormulaModel::Operand(OperandModel::Number(number_text(lexeme(t, pos)))), pos + 1),
            ),
            TokenKind::Minus => match scalar_at(t, pos + 1) {
                Some((c, p)) => Some((FormulaModel::Unary(OperatorModel::Inverse, Box::new(c)), p)),
                None => None,
            },
            _ => None,
        }
    }
}

/// The arithmetic operator of a token kind, if it is one.
pub open spec fn arith_of(k: TokenKind) -> Option<OperatorModel> {
    match k {
        TokenKind::Plus => Some(OperatorModel::Addition),
        TokenKind::Minus => Some(OperatorModel::Subtraction),
        TokenKind::Star => Some(OperatorModel::Multiplication),
        TokenKind::Slash => Some(OperatorModel::Division),
        _ => None,
    }
}

/// `s4m_atom ( ('+' | '-' | '*' | '/') s4m_atom )*`, nested to the left at
/// one level of precedence.
pub open spec fn scalar_at(t: Seq<(TokenKind, Seq<char>)>, pos: int) -> Option<(FormulaModel, int)>
    decreases t.len() - pos, 2int,
{
    match scalar_atom_at(t, pos) {
        Some((n, p)) => if pos < p <= t.len() {
            scalar_rest(t, n, p)
        } else {
            None
        },
        None => None,
    }
}

/// After the scalar expression `n`, at `p`: each operator and the operand
/// after it apply to everything read so far.
pub open spec fn scalar_rest(t: Seq<(TokenKind, Seq<char>)>, n: FormulaModel, p: int) -> Option<(FormulaModel, int)>
    decreases t.len() - p, 3int,
{
    if !(0 <= p < t.len()) {
        None
    } else {
        match arith_of(t[p].0) {
            Some(op) => match scalar_atom_at(t, p + 1) {
                Some((r, q)) => if p < q <= t.len() {
                    scalar_rest(t, FormulaModel::Binary(op, Box::new(n), Box::new(r)), q)
                } else {
                    None
                },
                None => None,
            },
            None => Some((n, p)),
        }
    }
}

/// The comparison of a token kind, if it is one.
pub open spec fn comparison_of(k: TokenKind) -> Option<FolOperatorKind> {
    match k {
        TokenKind::LeftChevron => Some(FolOperatorKind::LessThan),
        TokenKind::RightChevron => Some(FolOperatorKind::GreaterThan),
        TokenKind::LeftChevronEqual => Some(FolOperatorKind::LessThanEqualTo),
        TokenKind::RightChevronEqual => Some(FolOperatorKind::GreaterThanEqualTo),
        _ => None,
    }
}

/// `Identifier ':=' class ( ',' bindings )?`, each binding set into `acc`.
pub open spec fn bindings_at(t: Seq<(TokenKind, Seq<char>)>, pos: int, acc: Seq<(Seq<char>, FormulaModel)>) -> Option<
    (Seq<(Seq<char>, FormulaModel)>, int),
>
    decreases t.len() - pos,
{
    if kind_is(t, pos, TokenKind::Identifier) && kind_is(t, pos + 1, TokenKind::Walrus) {
        match class_at(t, pos + 2) {
            Some((c, p)) => {
                let acc2 = bind_model(acc, lexeme(t, pos), c);
                if kind_is(t, p, TokenKind::Comma) {
                    bindings_at(t, p + 1, acc2)
                } else {
                    Some((acc2, p))
                }
            },
            None => None,
        }
    } else {
        None
    }
}

/// The operand of an S4u formula; see the parser's grammar.
pub open spec fn truth_atom_at(t: Seq<(TokenKind, Seq<char>)>, pos: int) -> Option<(FormulaModel, int)>
    decreases t.len() - pos, 3int,
{
    if !(0 <= pos < t.len()) {
        None
    } else {
        match t[pos].0 {
            TokenKind::LeftParen => match truth_at(t, pos + 1) {
                Some((n, p)) => if pos < p && kind_is(t, p, TokenKind::RightParen) {
                    Some((n, p + 1))
                } else {
                    None
                },
                None => None,
            },
            TokenKind::Not => match truth_atom_at(t, pos + 1) {
                Some((c, p)) => Some(
                    (
                        FormulaModel::Unary(OperatorModel::Fol(FolOperatorKind::Negation), Box::new(c)),
                        p,
                    ),
                ),
                None => None,
            },
            TokenKind::NonEmpty => {
                let inner = if kind_is(t, pos + 1, TokenKind::LeftBracket) {
                    class_at(t, pos + 1)
                } else if kind_is(t, pos + 1, TokenKind::LeftParen) {
                    match region_at(t, pos + 2) {
                        Some((c, p)) => if kind_is(t, p, TokenKind::RightParen) {
                            Some((c, p + 1))
                        } else {
                            None
                        },
                        None => None,
                    }
                } else {
                    None
                };
                match inner {
                    Some((c, p)) => Some((FormulaModel::Unary(OperatorModel::NonEmpty, Box::new(c)), p)),
                    None => None,
                }
            },
            TokenKind::Exists | TokenKind::Forall => if kind_is(t, pos + 1, TokenKind::LeftParen) {
                match bindings_at(t, pos + 2, Seq::empty()) {
                    Some((b, p)) => if pos < p && kind_is(t, p, TokenKind::RightParen) {
                        match truth_at(t, p + 1) {
                            Some((c, q)) => {
                                let op = if t[pos].0 == TokenKind::Exists {
                                    OperatorModel::Exists(b)
                                } else {
                                    OperatorModel::Forall(b)
                                };
                                Some((FormulaModel::Unary(op, Box::new(c)), q))
                            },
                            None => None,
                        }
                    } else {
                        None
                    },
                    None => None,
                }
            } else {
                None
            },
            TokenKind::At | TokenKind::Integer | TokenKind::Real | TokenKind::Minus => match scalar_at(
                t,
                pos,
            ) {
                Some((l, p)) => if !(pos < p < t.len()) {
                    None
                } else {
                    match comparison_of(t[p].0) {
                        Some(k) => match scalar_at(t, p + 1) {
                            Some((r, q)) => Some(
                                (FormulaModel::Binary(OperatorModel::Fol(k), Box::new(l), Box::new(r)), q),
                            ),
                            None => None,
                        },
                        None => None,
                    }
                },
                None => None,
            },
            TokenKind::LeftBracket => class_at(t, pos),
            _ => None,
        }
    }
}

/// `s4u_atom ( ('&' | '|') s4u_atom )*`, nested to the left at one level
/// of precedence.
pub open spec fn truth_at(t: Seq<(TokenKind, Seq<char>)>, pos: int) -> Option<(FormulaModel, int)>
    decreases t.len() - pos, 4int,
{
    match truth_atom_at(t, pos) {
        Some((n, p)) => if pos < p <= t.len() {
            truth_rest(t, n, p)
        } else {
            None
        },
        None => None,
    }
}

/// After the formula `n`, at `p`: each `&` or `|` and the operand after it
/// apply to everything read so far.
pub open spec fn truth_rest(t: Seq<(TokenKind, Seq<char>)>, n: FormulaModel, p: int) -> Option<(FormulaModel, int)>
    decreases t.len() - p, 5int,
{
    if kind_is(t, p, TokenKind::And) || kind_is(t, p, TokenKind::Or) {
        let k = if t[p].0 == TokenKind::And {
            FolOperatorKind::Conjunction
        } else {
            FolOperatorKind::Disjunction
        };
        match truth_atom_at(t, p + 1) {
            Some((r, q)) => if p < q <= t.len() {
                truth_rest(t, FormulaModel::Binary(OperatorModel::Fol(k), Box::new(n), Box::new(r)), q)
            } else {
                None
            },
            None => None,
        }
    } else {
        Some((n, p))
    }
}

/// `( '(' spre ')' | '[' s4u ']' ) ( '*' | range )*`: an atom with the
/// stars and ranges that follow it.
pub open spec fn piece_at(t: Seq<(TokenKind, Seq<char>)>, pos: int) -> Option<(PatternModel, int)>
    decreases t.len() - pos, 5int,
{
    if !(0 <= pos < t.len()) {
        None
    } else {
        match t[pos].0 {
            TokenKind::LeftParen => match pattern_at(t, pos + 1) {
                Some((n, p)) => if pos < p && kind_is(t, p, TokenKind::RightParen) {
                    piece_rest(t, n, p + 1)
                } else {
                    None
                },
                None => None,
            },
            TokenKind::LeftBracket => match truth_at(t, pos + 1) {
                Some((f, p)) => if pos < p && kind_is(t, p, TokenKind::RightBracket) {
                    piece_rest(t, PatternModel::Formula(f), p + 1)
                } else {
                    None
                },
                None => None,
            },
            _ => None,
        }
    }
}

/// After the atom or piece `m`, at `p`: each star or range applies to it.
pub open spec fn piece_rest(t: Seq<(TokenKind, Seq<char>)>, m: PatternModel, p: int) -> Option<(PatternModel, int)>
    decreases t.len() - p, 6int,
{
    if !(0 <= p < t.len()) {
        None
    } else {
        match t[p].0 {
            TokenKind::Star => piece_rest(
                t,
                PatternModel::Unary(OperatorModel::Regex(RegexOperatorKind::KleeneStar), Box::new(m)),
                p + 1,
            ),
            TokenKind::LeftBrace => match range_at(t, p) {
                Some((r, q)) => if p < q {
                    piece_rest(
                        t,
                        PatternModel::Unary(
                            OperatorModel::Regex(RegexOperatorKind::Range(r)),
                            Box::new(m),
                        ),
                        q,
                    )
                } else {
                    None
                },
                None => None,
            },
            _ => Some((m, p)),
        }
    }
}

/// `piece piece* ( '|' spre )?`: pieces side by side are concatenated,
/// nested to the left; what follows `|` is the alternative to all of them.
pub open spec fn pattern_at(t: Seq<(TokenKind, Seq<char>)>, pos: int) -> Option<(PatternModel, int)>
    decreases t.len() - pos, 7int,
{
    match piece_at(t, pos) {
        Some((m, p)) => if pos < p <= t.len() {
            chain_rest(t, m, p)
        } else {
            None
        },
        None => None,
    }
}

/// After the concatenation `m`, at `p`: a following piece is concatenated to
/// it; a `|` makes the rest of the pattern its alternative.
pub open spec fn chain_rest(t: Seq<(TokenKind, Seq<char>)>, m: PatternModel, p: int) -> Option<(PatternModel, int)>
    decreases t.len() - p, 8int,
{
    if !(0 <= p < t.len()) {
        None
    } else {
        match t[p].0 {
            TokenKind::LeftParen | TokenKind::LeftBracket => match piece_at(t, p) {
                Some((r, q)) => if p < q <= t.len() {
                    chain_rest(
                        t,
                        PatternModel::Binary(
                            OperatorModel::Regex(RegexOperatorKind::Concatenation),
                            Box::new(m),
                            Box::new(r),
                        ),
                        q,
                    )
                } else {
                    None
                },
                None => None,
            },
            TokenKind::Or => match pattern_at(t, p + 1) {
                Some((r, q)) => Some(
                    (
                        PatternModel::Binary(
                            OperatorModel::Regex(RegexOperatorKind::Alternation),
                            Box::new(m),
                            Box::new(r),
                        ),
                        q,
                    ),
                ),
                None => None,
            },
            _ => Some((m, p)),
        }
    }
}

/// The whole token sequence from `pos` as a pattern: `None` for an empty
/// one, `Some` of its model when it is one, and not defined (the outer
/// `None`) when the tokens derive no pattern.
pub open spec fn parse_at(t: Seq<(TokenKind, Seq<char>)>, pos: int) -> Option<Option<PatternModel>> {
    if kind_is(t, pos, TokenKind::EndOfFile) {
        Some(None)
    } else {
        match pattern_at(t, pos) {
            Some((m, p)) => if kind_is(t, p, TokenKind::EndOfFile) {
                Some(Some(m))
            } else {
                None
            },
            None => None,
        }
    }
}

} // verus!
