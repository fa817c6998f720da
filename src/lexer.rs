//! Tokenization of pattern source text.
//!
//! The scanner skips whitespace and reads the longest token at each point. Its
//! meaning is given by [`scan`]: the executable [`tokenize`] returns exactly
//! what [`scan`] describes.
use vstd::prelude::*;
use vstd::string::*;

verus! {

/// The kinds of tokens of the pattern language.
#[derive(Clone, Copy, PartialEq, Eq, Structural, Debug)]
pub enum TokenKind {
    LeftParen,
    RightParen,
    LeftBracket,
    RightBracket,
    LeftBrace,
    RightBrace,
    Colon,
    Comma,
    Star,
    Plus,
    Minus,
    Slash,
    And,
    Or,
    Not,
    At,
    Walrus,
    LeftChevron,
    RightChevron,
    LeftChevronEqual,
    RightChevronEqual,
    Identifier,
    Integer,
    Real,
    NonEmpty,
    Exists,
    Forall,
    EndOfFile,
}

/// A token: its kind, its text, and where it starts.
///
/// `line` and `col` are 1-based; `offset` counts characters from the start of
/// the source.
pub struct Token {
    pub kind: TokenKind,
    pub lexeme: String,
    pub line: usize,
    pub col: usize,
    pub offset: usize,
}

/// A character that no token starts with, and where it stands.
#[derive(Debug)]
pub struct LexError {
    pub line: usize,
    pub col: usize,
    pub found: char,
}

/// A token as the scanner sees it: its kind and the half-open span of source
/// characters it covers.
pub struct SpanToken {
    pub kind: TokenKind,
    pub start: int,
    pub end: int,
}

pub open spec fn is_ws(c: char) -> bool {
    c == ' ' || c == '\t' || c == '\n' || c == '\r'
}

pub open spec fn is_digit(c: char) -> bool {
    '0' <= c && c <= '9'
}

pub open spec fn is_ident_start(c: char) -> bool {
    ('a' <= c && c <= 'z') || ('A' <= c && c <= 'Z') || c == '_'
}

pub open spec fn is_ident_char(c: char) -> bool {
    is_ident_start(c) || is_digit(c)
}

/// The first position at or after `i` that does not hold whitespace.
pub open spec fn skip_ws(s: Seq<char>, i: int) -> int
    decreases s.len() - i,
{
    if 0 <= i < s.len() && is_ws(s[i]) {
        skip_ws(s, i + 1)
    } else {
        i
    }
}

/// The end of the run of identifier characters that starts at `i`.
pub open spec fn ident_end(s: Seq<char>, i: int) -> int
    decreases s.len() - i,
{
    if 0 <= i < s.len() && is_ident_char(s[i]) {
        ident_end(s, i + 1)
    } else {
        i
    }
}

/// The end of the run of digits that starts at `i`.
pub open spec fn digits_end(s: Seq<char>, i: int) -> int
    decreases s.len() - i,
{
    if 0 <= i < s.len() && is_digit(s[i]) {
        digits_end(s, i + 1)
    } else {
        i
    }
}

/// Whether the digits at `i` continue with a fractional part.
pub open spec fn has_fraction(s: Seq<char>, i: int) -> bool {
    let d = digits_end(s, i);
    0 <= d && d + 1 < s.len() && s[d] == '.' && is_digit(s[d + 1])
}

/// The kind of a word: the three reserved words or an identifier.
pub open spec fn word_kind(w: Seq<char>) -> TokenKind {
    if w == seq!['E'] {
        TokenKind::Exists
    } else if w == seq!['A'] {
        TokenKind::Forall
    } else if w == seq!['N', 'o', 'n', 'E', 'm', 'p', 't', 'y'] {
        TokenKind::NonEmpty
    } else {
        TokenKind::Identifier
    }
}

/// The kind of a one-character punctuation token.
pub open spec fn single_kind(c: char) -> Option<TokenKind> {
    if c == '(' {
        Some(TokenKind::LeftParen)
    } else if c == ')' {
        Some(TokenKind::RightParen)
    } else if c == '[' {
        Some(TokenKind::LeftBracket)
    } else if c == ']' {
        Some(TokenKind::RightBracket)
    } else if c == '{' {
        Some(TokenKind::LeftBrace)
    } else if c == '}' {
        Some(TokenKind::RightBrace)
    } else if c == ':' {
        Some(TokenKind::Colon)
    } else if c == ',' {
        Some(TokenKind::Comma)
    } else if c == '*' {
        Some(TokenKind::Star)
    } else if c == '+' {
        Some(TokenKind::Plus)
    } else if c == '-' {
        Some(TokenKind::Minus)
    } else if c == '/' {
        Some(TokenKind::Slash)
    } else if c == '&' {
        Some(TokenKind::And)
    } else if c == '|' {
        Some(TokenKind::Or)
    } else if c == '!' || c == '~' {
        Some(TokenKind::Not)
    } else if c == '@' {
        Some(TokenKind::At)
    } else if c == '<' {
        Some(TokenKind::LeftChevron)
    } else if c == '>' {
        Some(TokenKind::RightChevron)
    } else {
        None
    }
}

/// The kind of a two-character punctuation token starting with `c` and `d`.
pub open spec fn double_kind(c: char, d: char) -> Option<TokenKind> {
    if c == ':' && d == '=' {
        Some(TokenKind::Walrus)
    } else if c == '<' && d == '=' {
        Some(TokenKind::LeftChevronEqual)
    } else if c == '>' && d == '=' {
        Some(TokenKind::RightChevronEqual)
    } else {
        None
    }
}

/// The longest token that starts at `j`, as its kind and end, if any does.
pub open spec fn next_token(s: Seq<char>, j: int) -> Option<(TokenKind, int)> {
    if !(0 <= j < s.len()) {
        None
    } else if is_ident_start(s[j]) {
        let e = ident_end(s, j);
        Some((word_kind(s.subrange(j, e)), e))
    } else if is_digit(s[j]) {
        if has_fraction(s, j) {
            Some((TokenKind::Real, digits_end(s, digits_end(s, j) + 1)))
        } else {
            Some((TokenKind::Integer, digits_end(s, j)))
        }
    } else if j + 1 < s.len() && double_kind(s[j], s[j + 1]) is Some {
        Some((double_kind(s[j], s[j + 1])->0, j + 2))
    } else if single_kind(s[j]) is Some {
        Some((single_kind(s[j])->0, j + 1))
    } else {
        None
    }
}

/// The tokens of `s` from position `i` on, ending with `EndOfFile`; or the
/// position of the first character that starts no token.
pub open spec fn scan(s: Seq<char>, i: int) -> Result<Seq<SpanToken>, int>
    decreases s.len() - i,
{
    let j = skip_ws(s, i);
    if j >= s.len() {
        Ok(seq![SpanToken { kind: TokenKind::EndOfFile, start: j, end: j }])
    } else {
        match next_token(s, j) {
            None => Err(j),
            Some((k, e)) => {
                if i <= j < e <= s.len() {
                    match scan(s, e) {
                        Ok(rest) => Ok(seq![SpanToken { kind: k, start: j, end: e }] + rest),
                        Err(p) => Err(p),
                    }
                } else {
                    Err(j)
                }
            },
        }
    }
}

/// The 1-based line and column of position `j` of `s`.
pub open spec fn line_col(s: Seq<char>, j: int) -> (int, int)
    decreases j,
{
    if j <= 0 {
        (1, 1)
    } else {
        let (l, c) = line_col(s, j - 1);
        if s[j - 1] == '\n' {
            (l + 1, 1)
        } else {
            (l, c + 1)
        }
    }
}

/// A token agrees with the span token at the same place of `s`.
pub open spec fn token_matches(t: Token, st: SpanToken, s: Seq<char>) -> bool {
    &&& t.kind == st.kind
    &&& t.offset == st.start
    &&& t.lexeme@ == s.subrange(st.start, st.end)
    &&& (t.line as int, t.col as int) == line_col(s, st.start)
}

/// The source rebuilt from the tokens: before each token, the characters
/// between the previous token's end and its start, then its lexeme.
pub open spec fn rebuild(s: Seq<char>, ts: Seq<SpanToken>, from: int) -> Seq<char>
    decreases ts.len(),
{
    if ts.len() == 0 {
        Seq::empty()
    } else {
        s.subrange(from, ts[0].start) + s.subrange(ts[0].start, ts[0].end) + rebuild(
            s,
            ts.drop_first(),
            ts[0].end,
        )
    }
}

/// Whether every character of `s` in `[from, to)` is whitespace.
pub open spec fn all_ws(s: Seq<char>, from: int, to: int) -> bool {
    forall|k: int| from <= k < to ==> is_ws(#[trigger] s[k])
}

/// Each token but the last is non-empty and ends at or before the next one
/// starts, with only whitespace between them.
pub open spec fn separated(s: Seq<char>, ts: Seq<SpanToken>) -> bool {
    forall|q: int|
        0 <= q < ts.len() - 1 ==> {
            &&& #[trigger] ts[q].start < ts[q].end <= ts[q + 1].start
            &&& all_ws(s, ts[q].end, ts[q + 1].start)
        }
}

/// Every span of `ts` lies in `s` at or after `i`.
pub open spec fn within(s: Seq<char>, ts: Seq<SpanToken>, i: int) -> bool {
    forall|q: int| 0 <= q < ts.len() ==> i <= (#[trigger] ts[q]).start <= ts[q].end <= s.len()
}

/// The source rebuilt from tokens: before each token, the characters
/// between the previous token's end and its offset, then its lexeme.
#[verifier::opaque]
pub open spec fn token_text(s: Seq<char>, toks: Seq<Token>, from: int) -> Seq<char>
    decreases toks.len(),
{
    if toks.len() == 0 {
        Seq::empty()
    } else {
        s.subrange(from, toks[0].offset as int) + toks[0].lexeme@ + token_text(
            s,
            toks.drop_first(),
            toks[0].offset + toks[0].lexeme@.len(),
        )
    }
}

proof fn lemma_token_text(s: Seq<char>, toks: Seq<Token>, ts: Seq<SpanToken>, from: int)
    requires
        toks.len() == ts.len(),
        forall|i: int| 0 <= i < ts.len() ==> token_matches(#[trigger] toks[i], ts[i], s),
        within(s, ts, 0),
    ensures
        token_text(s, toks, from) == rebuild(s, ts, from),
    decreases toks.len(),
{
    reveal(token_text);
    if toks.len() > 0 {
        assert(token_matches(toks[0], ts[0], s));
        let (d, e) = (toks.drop_first(), ts.drop_first());
        assert forall|i: int| 0 <= i < e.len() implies token_matches(#[trigger] d[i], e[i], s) by {
            assert(token_matches(toks[i + 1], ts[i + 1], s));
        }
        assert forall|q: int| 0 <= q < e.len() implies 0 <= (#[trigger] e[q]).start <= e[q].end <= s.len() by {
            assert(e[q] == ts[q + 1]);
        }
        lemma_token_text(s, d, e, ts[0].end);
    }
}

/// The tokens that [`tokenize`] returns lose nothing: their lexemes, with the
/// whitespace between them, put back together give the source; the gaps are
/// whitespace only, and the last token is `EndOfFile` at the very end.
#[verifier::spinoff_prover]
#[verifier::rlimit(40)]
pub proof fn lemma_tokens_round_trip(s: Seq<char>, toks: Seq<Token>)
    requires
        scan(s, 0) is Ok,
        toks.len() == scan(s, 0)->Ok_0.len(),
        forall|i: int| 0 <= i < toks.len() ==> token_matches(#[trigger] toks[i], scan(s, 0)->Ok_0[i], s),
    ensures
        token_text(s, toks, 0) == s,
        toks.len() >= 1,
        toks.last().kind == TokenKind::EndOfFile,
        toks.last().offset == s.len(),
        toks.last().lexeme@.len() == 0,
        all_ws(s, 0, toks[0].offset as int),
        forall|i: int|
            0 <= i < toks.len() - 1 ==> all_ws(
                s,
                (#[trigger] toks[i]).offset + toks[i].lexeme@.len(),
                toks[i + 1].offset as int,
            ),
{
    let ts = scan(s, 0)->Ok_0;
    lemma_scan_tiles(s, 0);
    lemma_scan_within(s, 0);
    lemma_token_text(s, toks, ts, 0);
    assert(token_matches(toks[0], ts[0], s));
    assert(token_matches(toks[toks.len() - 1], ts[ts.len() - 1], s));
    assert forall|i: int| 0 <= i < toks.len() - 1 implies all_ws(
        s,
        (#[trigger] toks[i]).offset + toks[i].lexeme@.len(),
        toks[i + 1].offset as int,
    ) by {
        assert(token_matches(toks[i], ts[i], s));
        assert(token_matches(toks[i + 1], ts[i + 1], s));
        assert(ts[i].start < ts[i].end <= ts[i + 1].start);
    }
}

/// Tokenizing loses nothing: the lexemes, with the whitespace between them,
/// put back together give the source; what lies between two tokens is
/// whitespace only, and only `EndOfFile`, at the very end, is empty.
pub proof fn lemma_lex_round_trip(s: Seq<char>)
    requires
        scan(s, 0) is Ok,
    ensures
        rebuild(s, scan(s, 0)->Ok_0, 0) == s,
        scan(s, 0)->Ok_0.len() >= 1,
        scan(s, 0)->Ok_0.last().kind == TokenKind::EndOfFile,
        scan(s, 0)->Ok_0.last().start == s.len(),
        scan(s, 0)->Ok_0.last().end == s.len(),
        all_ws(s, 0, scan(s, 0)->Ok_0[0].start),
        separated(s, scan(s, 0)->Ok_0),
{
    lemma_scan_tiles(s, 0);
}

proof fn lemma_scan_tiles(s: Seq<char>, i: int)
    requires
        0 <= i <= s.len(),
        scan(s, i) is Ok,
    ensures
        rebuild(s, scan(s, i)->Ok_0, i) == s.subrange(i, s.len() as int),
        scan(s, i)->Ok_0.len() >= 1,
        scan(s, i)->Ok_0.last().kind == TokenKind::EndOfFile,
        scan(s, i)->Ok_0.last().start == s.len(),
        scan(s, i)->Ok_0.last().end == s.len(),
        i <= scan(s, i)->Ok_0[0].start,
        all_ws(s, i, scan(s, i)->Ok_0[0].start),
        separated(s, scan(s, i)->Ok_0),
    decreases s.len() - i,
{
    lemma_skip_ws(s, i);
    let j = skip_ws(s, i);
    let ts = scan(s, i)->Ok_0;
    if j >= s.len() {
        assert(ts.drop_first() =~= Seq::<SpanToken>::empty());
        assert(rebuild(s, ts.drop_first(), j) =~= Seq::<char>::empty());
        assert(s.subrange(j, j) =~= Seq::<char>::empty());
        assert(rebuild(s, ts, i) =~= s.subrange(i, s.len() as int));
    } else {
        let (k, e) = next_token(s, j)->0;
        lemma_scan_tiles(s, e);
        let rest = scan(s, e)->Ok_0;
        assert(ts == seq![SpanToken { kind: k, start: j, end: e }] + rest);
        assert(ts.drop_first() =~= rest);
        assert(ts[0] == SpanToken { kind: k, start: j, end: e });
        assert(rebuild(s, ts, i) == s.subrange(i, j) + s.subrange(j, e) + rebuild(s, rest, e));
        assert(s.subrange(i, j) + s.subrange(j, e) + s.subrange(e, s.len() as int) =~= s.subrange(
            i,
            s.len() as int,
        ));
        lemma_separated_cons(s, ts, rest);
    }
}

proof fn lemma_separated_cons(s: Seq<char>, ts: Seq<SpanToken>, rest: Seq<SpanToken>)
    requires
        ts.len() == rest.len() + 1,
        rest.len() >= 1,
        forall|q: int| 0 < q < ts.len() ==> ts[q] == rest[q - 1],
        ts[0].start < ts[0].end <= rest[0].start,
        all_ws(s, ts[0].end, rest[0].start),
        separated(s, rest),
    ensures
        separated(s, ts),
{
    assert forall|q: int| 0 <= q < ts.len() - 1 implies {
        &&& #[trigger] ts[q].start < ts[q].end <= ts[q + 1].start
        &&& all_ws(s, ts[q].end, ts[q + 1].start)
    } by {
        if q > 0 {
            assert(ts[q] == rest[q - 1]);
            assert(ts[q + 1] == rest[q]);
        } else {
            assert(ts[1] == rest[0]);
        }
    }
}

proof fn lemma_scan_within(s: Seq<char>, i: int)
    requires
        0 <= i <= s.len(),
        scan(s, i) is Ok,
    ensures
        within(s, scan(s, i)->Ok_0, i),
    decreases s.len() - i,
{
    lemma_skip_ws(s, i);
    let j = skip_ws(s, i);
    let ts = scan(s, i)->Ok_0;
    if j < s.len() {
        let (k, e) = next_token(s, j)->0;
        lemma_scan_within(s, e);
        let rest = scan(s, e)->Ok_0;
        assert(ts == seq![SpanToken { kind: k, start: j, end: e }] + rest);
        assert forall|q: int| 0 <= q < ts.len() implies i <= (#[trigger] ts[q]).start <= ts[q].end <= s.len() by {
            if q > 0 {
                assert(ts[q] == rest[q - 1]);
            }
        }
    }
}

/// Only the last token of a scan is `EndOfFile`, and it is there.
pub proof fn lemma_scan_end(s: Seq<char>, i: int)
    requires
        0 <= i <= s.len(),
        scan(s, i) is Ok,
    ensures
        scan(s, i)->Ok_0.len() >= 1,
        scan(s, i)->Ok_0.last().kind == TokenKind::EndOfFile,
        forall|k: int| 0 <= k < scan(s, i)->Ok_0.len() - 1 ==> #[trigger] scan(s, i)->Ok_0[k].kind != TokenKind::EndOfFile,
    decreases s.len() - i,
{
    lemma_skip_ws(s, i);
    let j = skip_ws(s, i);
    if j < s.len() {
        let (k, e) = next_token(s, j)->0;
        lemma_scan_end(s, e);
        let ts = scan(s, i)->Ok_0;
        let rest = scan(s, e)->Ok_0;
        assert(ts == seq![SpanToken { kind: k, start: j, end: e }] + rest);
        assert(k != TokenKind::EndOfFile);
        assert forall|q: int| 0 <= q < ts.len() - 1 implies #[trigger] ts[q].kind != TokenKind::EndOfFile by {
            if q > 0 {
                assert(ts[q] == rest[q - 1]);
            }
        }
    }
}

proof fn lemma_skip_ws(s: Seq<char>, i: int)
    requires
        0 <= i <= s.len(),
    ensures
        i <= skip_ws(s, i) <= s.len(),
        forall|k: int| i <= k < skip_ws(s, i) ==> is_ws(#[trigger] s[k]),
    decreases s.len() - i,
{
    if i < s.len() && is_ws(s[i]) {
        lemma_skip_ws(s, i + 1);
    }
}

proof fn lemma_run_ends(s: Seq<char>, i: int)
    requires
        0 <= i <= s.len(),
    ensures
        i <= ident_end(s, i) <= s.len(),
        i <= digits_end(s, i) <= s.len(),
    decreases s.len() - i,
{
    if i < s.len() {
        lemma_run_ends(s, i + 1);
    }
}

proof fn lemma_line_col_bound(s: Seq<char>, j: int)
    requires
        0 <= j,
    ensures
        1 <= line_col(s, j).0 <= j + 1,
        1 <= line_col(s, j).1 <= j + 1,
    decreases j,
{
    if j > 0 {
        lemma_line_col_bound(s, j - 1);
    }
}

/// Copy the characters of `source` into a vector.
fn chars_of(source: &str) -> (r: Vec<char>)
    ensures
        r@ == source@,
{
    let n = source.unicode_len();
    let mut r: Vec<char> = Vec::new();
    let mut i: usize = 0;
    while i < n
        invariant
            n == source@.len(),
            i <= n,
            r@ == source@.subrange(0, i as int),
        decreases n - i,
    {
        let c = source.get_char(i);
        r.push(c);
        i = i + 1;
        assert(r@ =~= source@.subrange(0, i as int));
    }
    assert(r@ =~= source@);
    r
}

fn char_is_ws(c: char) -> (r: bool)
    ensures
        r == is_ws(c),
{
    c == ' ' || c == '\t' || c == '\n' || c == '\r'
}

fn char_is_digit(c: char) -> (r: bool)
    ensures
        r == is_digit(c),
{
    '0' <= c && c <= '9'
}

fn char_is_ident_start(c: char) -> (r: bool)
    ensures
        r == is_ident_start(c),
{
    ('a' <= c && c <= 'z') || ('A' <= c && c <= 'Z') || c == '_'
}

fn char_is_ident_char(c: char) -> (r: bool)
    ensures
        r == is_ident_char(c),
{
    char_is_ident_start(c) || char_is_digit(c)
}

fn single_kind_of(c: char) -> (r: Option<TokenKind>)
    ensures
        r == single_kind(c),
{
    if c == '(' {
        Some(TokenKind::LeftParen)
    } else if c == ')' {
        Some(TokenKind::RightParen)
    } else if c == '[' {
        Some(TokenKind::LeftBracket)
    } else if c == ']' {
        Some(TokenKind::RightBracket)
    } else if c == '{' {
        Some(TokenKind::LeftBrace)
    } else if c == '}' {
        Some(TokenKind::RightBrace)
    } else if c == ':' {
        Some(TokenKind::Colon)
    } else if c == ',' {
        Some(TokenKind::Comma)
    } else if c == '*' {
        Some(TokenKind::Star)
    } else if c == '+' {
        Some(TokenKind::Plus)
    } else if c == '-' {
        Some(TokenKind::Minus)
    } else if c == '/' {
        Some(TokenKind::Slash)
    } else if c == '&' {
        Some(TokenKind::And)
    } else if c == '|' {
        Some(TokenKind::Or)
    } else if c == '!' || c == '~' {
        Some(TokenKind::Not)
    } else if c == '@' {
        Some(TokenKind::At)
    } else if c == '<' {
        Some(TokenKind::LeftChevron)
    } else if c == '>' {
        Some(TokenKind::RightChevron)
    } else {
        None
    }
}

fn double_kind_of(c: char, d: char) -> (r: Option<TokenKind>)
    ensures
        r == double_kind(c, d),
{
    if c == ':' && d == '=' {
        Some(TokenKind::Walrus)
    } else if c == '<' && d == '=' {
        Some(TokenKind::LeftChevronEqual)
    } else if c == '>' && d == '=' {
        Some(TokenKind::RightChevronEqual)
    } else {
        None
    }
}

fn word_kind_of(w: &Vec<char>, from: usize, to: usize) -> (r: TokenKind)
    requires
        from <= to <= w@.len(),
    ensures
        r == word_kind(w@.subrange(from as int, to as int)),
{
    let ghost sub = w@.subrange(from as int, to as int);
    if to - from == 1 && w[from] == 'E' {
        assert(sub =~= seq!['E']);
        TokenKind::Exists
    } else if to - from == 1 && w[from] == 'A' {
        assert(sub =~= seq!['A']);
        assert(sub != seq!['E']) by {
            assert(seq!['E'][0] == 'E');
        }
        TokenKind::Forall
    } else if to - from == 8 && w[from] == 'N' && w[from + 1] == 'o' && w[from + 2] == 'n'
        && w[from + 3] == 'E' && w[from + 4] == 'm' && w[from + 5] == 'p' && w[from + 6] == 't'
        && w[from + 7] == 'y' {
        assert(sub =~= seq!['N', 'o', 'n', 'E', 'm', 'p', 't', 'y']);
        assert(sub.len() != seq!['E'].len());
        assert(sub.len() != seq!['A'].len());
        TokenKind::NonEmpty
    } else {
        assert(sub != seq!['E']) by {
            if sub == seq!['E'] {
                assert(sub.len() == 1 && sub[0] == 'E');
            }
        }
        assert(sub != seq!['A']) by {
            if sub == seq!['A'] {
                assert(sub.len() == 1 && sub[0] == 'A');
            }
        }
        assert(sub != seq!['N', 'o', 'n', 'E', 'm', 'p', 't', 'y']) by {
            if sub == seq!['N', 'o', 'n', 'E', 'm', 'p', 't', 'y'] {
                assert(sub.len() == 8);
                assert(sub[0] == 'N' && sub[1] == 'o' && sub[2] == 'n' && sub[3] == 'E');
                assert(sub[4] == 'm' && sub[5] == 'p' && sub[6] == 't' && sub[7] == 'y');
            }
        }
        TokenKind::Identifier
    }
}

fn skip_whitespace(s: &Vec<char>, i: usize) -> (r: usize)
    requires
        i <= s@.len(),
    ensures
        r == skip_ws(s@, i as int),
    decreases s@.len() - i,
{
    if i < s.len() && char_is_ws(s[i]) {
        skip_whitespace(s, i + 1)
    } else {
        i
    }
}

fn ident_run(s: &Vec<char>, i: usize) -> (r: usize)
    requires
        i <= s@.len(),
    ensures
        r == ident_end(s@, i as int),
    decreases s@.len() - i,
{
    if i < s.len() && char_is_ident_char(s[i]) {
        ident_run(s, i + 1)
    } else {
        i
    }
}

fn digit_run(s: &Vec<char>, i: usize) -> (r: usize)
    requires
        i <= s@.len(),
    ensures
        r == digits_end(s@, i as int),
    decreases s@.len() - i,
{
    if i < s.len() && char_is_digit(s[i]) {
        digit_run(s, i + 1)
    } else {
        i
    }
}

/// The longest token at `j`, as [`next_token`] describes it.
fn next_token_at(s: &Vec<char>, j: usize) -> (r: Option<(TokenKind, usize)>)
    requires
        j < s@.len(),
    ensures
        match r {
            None => next_token(s@, j as int) is None,
            Some((k, e)) => next_token(s@, j as int) == Some((k, e as int)) && j < e <= s@.len(),
        },
{
    proof {
        lemma_run_ends(s@, j as int);
    }
    let c = s[j];
    if char_is_ident_start(c) {
        let e = ident_run(s, j);
        proof {
            lemma_run_ends(s@, j + 1);
        }
        let k = word_kind_of(s, j, e);
        Some((k, e))
    } else if char_is_digit(c) {
        let d = digit_run(s, j);
        proof {
            lemma_run_ends(s@, j + 1);
        }
        if d < s.len() && d + 1 < s.len() && s[d] == '.' && char_is_digit(s[d + 1]) {
            let e = digit_run(s, d + 1);
            proof {
                lemma_run_ends(s@, d + 1);
            }
            Some((TokenKind::Real, e))
        } else {
            Some((TokenKind::Integer, d))
        }
    } else {
        let two = if j < s.len() - 1 {
            double_kind_of(c, s[j + 1])
        } else {
            None
        };
        match two {
            Some(k) => Some((k, j + 2)),
            None => match single_kind_of(c) {
                Some(k) => Some((k, j + 1)),
                None => None,
            },
        }
    }
}

/// Move a line/column position forward over the characters `from..to`.
fn advance(s: &Vec<char>, from: usize, to: usize, line: usize, col: usize) -> (r: (usize, usize))
    requires
        from <= to <= s@.len(),
        s@.len() < usize::MAX,
        (line as int, col as int) == line_col(s@, from as int),
    ensures
        (r.0 as int, r.1 as int) == line_col(s@, to as int),
{
    let mut p = from;
    let mut l = line;
    let mut c = col;
    while p < to
        invariant
            from <= p <= to <= s@.len(),
            s@.len() < usize::MAX,
            (l as int, c as int) == line_col(s@, p as int),
        decreases to - p,
    {
        proof {
            lemma_line_col_bound(s@, p as int);
        }
        if s[p] == '\n' {
            l = l + 1;
            c = 1;
        } else {
            c = c + 1;
        }
        p = p + 1;
    }
    (l, c)
}

/// Split `source` into tokens, ending with an `EndOfFile` token.
///
/// Fails on the first character that starts no token.
pub fn tokenize(source: &str) -> (r: Result<Vec<Token>, LexError>)
    requires
        source@.len() < usize::MAX,
    ensures
        match scan(source@, 0) {
            Ok(ts) => r is Ok && r->Ok_0@.len() == ts.len() && forall|i: int|
                0 <= i < ts.len() ==> token_matches(#[trigger] r->Ok_0@[i], ts[i], source@),
            Err(p) => r is Err && r->Err_0.found == source@[p] && (
            r->Err_0.line as int,
            r->Err_0.col as int,
            ) == line_col(source@, p),
        },
{
    let s = chars_of(source);
    let n = s.len();
    let mut out: Vec<Token> = Vec::new();
    let mut i: usize = 0;
    let mut line: usize = 1;
    let mut col: usize = 1;
    let ghost done: Seq<SpanToken> = Seq::empty();
    loop
        invariant
            s@ == source@,
            n == s@.len(),
            n < usize::MAX,
            i <= n,
            (line as int, col as int) == line_col(s@, i as int),
            out@.len() == done.len(),
            forall|k: int| 0 <= k < done.len() ==> token_matches(#[trigger] out@[k], done[k], s@),
            scan(s@, 0) == match scan(s@, i as int) {
                Ok(rest) => Ok(done + rest),
                Err(p) => Err(p),
            },
        decreases n - i,
    {
        let j = skip_whitespace(&s, i);
        proof {
            lemma_skip_ws(s@, i as int);
        }
        let (lj, cj) = advance(&s, i, j, line, col);
        if j >= n {
            let eof = Token {
                kind: TokenKind::EndOfFile,
                lexeme: String::new(),
                line: lj,
                col: cj,
                offset: j,
            };
            let ghost st = SpanToken { kind: TokenKind::EndOfFile, start: j as int, end: j as int };
            assert(s@.subrange(j as int, j as int) =~= Seq::<char>::empty());
            let ghost prev = out@;
            out.push(eof);
            proof {
                assert(scan(s@, i as int) == Ok::<Seq<SpanToken>, int>(seq![st]));
                assert forall|k: int| 0 <= k < done.len() + 1 implies token_matches(
                    #[trigger] out@[k],
                    (done + seq![st])[k],
                    s@,
                ) by {
                    if k < done.len() {
                        assert(out@[k] == prev[k]);
                    }
                }
                done = done + seq![st];
            }
            return Ok(out);
        }
        match next_token_at(&s, j) {
            None => {
                return Err(LexError { line: lj, col: cj, found: s[j] });
            },
            Some((k, e)) => {
                let lexeme = source.substring_char(j, e).to_owned();
                let t = Token { kind: k, lexeme, line: lj, col: cj, offset: j };
                let ghost st = SpanToken { kind: k, start: j as int, end: e as int };
                let ghost prev = out@;
                out.push(t);
                proof {
                    assert forall|q: int| 0 <= q < done.len() + 1 implies token_matches(
                        #[trigger] out@[q],
                        (done + seq![st])[q],
                        s@,
                    ) by {
                        if q < done.len() {
                            assert(out@[q] == prev[q]);
                        }
                    }
                    match scan(s@, e as int) {
                        Ok(rest) => {
                            assert(done + (seq![st] + rest) =~= (done + seq![st]) + rest);
                        },
                        Err(p) => {},
                    }
                    done = done + seq![st];
                }
                let (le, ce) = advance(&s, j, e, lj, cj);
                i = e;
                line = le;
                col = ce;
            },
        }
    }
}

} // verus!
