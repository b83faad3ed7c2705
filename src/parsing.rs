use vstd::prelude::*;

use crate::conditions::{
    Condition, Expr, Match, Operator, Pattern, Property, Test, eval, lemma_evaluation_deterministic,
    pattern_compiles,
};
use crate::text::{chars_of, string_between, string_of};

verus! {

/// The part of the grammar that a parse error points at.
#[derive(Debug, Clone, Copy, PartialEq, Eq, Structural)]
pub enum Production {
    /// a property name: `class`, `name` or `role`
    Property,
    /// a comparison operator: `=` or `~`
    Comparison,
    /// a double-quoted string
    StringLiteral,
    /// `&&` or `||`
    Connective,
    /// a character that starts no token
    Token,
    /// a match, a negation or a group
    Expression,
    /// the `)` that closes a group
    Grouping,
    /// the end of the input, after a complete expression
    EndOfInput,
}

/// Why a condition text was refused. Positions count characters from the
/// start of the text.
#[derive(Debug, Clone, Copy, PartialEq, Eq, Structural)]
pub enum ParseError {
    /// The text breaks the grammar at `position`.
    Syntax { expected: Production, position: usize },
    /// The pattern of a `~` match, whose string starts at `position`, does not compile.
    InvalidPattern { position: usize },
}

/// A grammar error at `position`.
pub open spec fn syntax_error(expected: Production, position: int) -> ParseError {
    ParseError::Syntax { expected, position: position as usize }
}

/// Whether `c` is a space or a tab, which may stand between tokens.
pub open spec fn is_space(c: char) -> bool {
    c == ' ' || c == '\t'
}

/// Whether `c` is an ASCII letter.
pub open spec fn is_letter(c: char) -> bool {
    ('a' <= c && c <= 'z') || ('A' <= c && c <= 'Z')
}

/// Whether `w` stands in `s` at `i`.
pub open spec fn word_at(s: Seq<char>, i: int, w: Seq<char>) -> bool {
    0 <= i && i + w.len() <= s.len() && s.subrange(i, i + w.len()) == w
}

/// The property name at `i`, and the position after it.
pub open spec fn property_at(s: Seq<char>, i: int) -> Option<(Property, int)> {
    if word_at(s, i, seq!['c', 'l', 'a', 's', 's']) {
        Some((Property::Class, i + 5))
    } else if word_at(s, i, seq!['n', 'a', 'm', 'e']) {
        Some((Property::Name, i + 4))
    } else if word_at(s, i, seq!['r', 'o', 'l', 'e']) {
        Some((Property::Role, i + 4))
    } else {
        None
    }
}

/// An escape at `i`: a backslash before `"` or a backslash. Gives the
/// character it stands for and the position after it.
pub open spec fn escape_at(s: Seq<char>, i: int) -> Option<(char, int)> {
    if 0 <= i && i + 1 < s.len() && s[i] == '\\' && (s[i + 1] == '"' || s[i + 1] == '\\') {
        Some((s[i + 1], i + 2))
    } else {
        None
    }
}

/// Whether `c` stands for itself inside a string.
pub open spec fn is_plain(c: char) -> bool {
    c != '\\' && c != '"'
}

/// The end of the run of plain characters that starts at `i`.
pub open spec fn plain_run_end(s: Seq<char>, i: int) -> int
    decreases s.len() - i,
{
    if 0 <= i < s.len() && is_plain(s[i]) {
        plain_run_end(s, i + 1)
    } else {
        i
    }
}

/// The end of the spaces and tabs that start at `i`.
pub open spec fn spaces_end(s: Seq<char>, i: int) -> int
    decreases s.len() - i,
{
    if 0 <= i < s.len() && is_space(s[i]) {
        spaces_end(s, i + 1)
    } else {
        i
    }
}

/// The rest of a string whose content so far is `acc`, from `i` on: its
/// whole content and the position after the closing quote.
pub open spec fn string_rest(s: Seq<char>, i: int, acc: Seq<char>) -> Option<(Seq<char>, int)>
    decreases s.len() - i,
{
    if i < 0 || i >= s.len() {
        None
    } else if s[i] == '"' {
        Some((acc, i + 1))
    } else if s[i] == '\\' {
        match escape_at(s, i) {
            Some((c, j)) => string_rest(s, j, acc.push(c)),
            None => None,
        }
    } else {
        string_rest(s, i + 1, acc.push(s[i]))
    }
}

/// The double-quoted string at `i`: its content, with escapes replaced, and
/// the position after it.
pub open spec fn quoted_at(s: Seq<char>, i: int) -> Option<(Seq<char>, int)> {
    if 0 <= i < s.len() && s[i] == '"' {
        string_rest(s, i + 1, Seq::empty())
    } else {
        None
    }
}

/// A token of the condition language.
pub enum Token {
    Prop(Property),
    Equal,
    Tilde,
    Text(Seq<char>),
    Open,
    Close,
    Bang,
    AndAnd,
    OrOr,
}

/// The tokens of `s` from `i` on, after the tokens `acc`; each token comes
/// with the position where it starts. Spaces and tabs between tokens are skipped.
pub open spec fn lex(s: Seq<char>, i: int, acc: Seq<(Token, int)>) -> Result<Seq<(Token, int)>, ParseError>
    decreases s.len() - i,
{
    if i < 0 || i >= s.len() {
        Ok(acc)
    } else {
        let c = s[i];
        if is_space(c) {
            lex(s, i + 1, acc)
        } else if c == '(' {
            lex(s, i + 1, acc.push((Token::Open, i)))
        } else if c == ')' {
            lex(s, i + 1, acc.push((Token::Close, i)))
        } else if c == '!' {
            lex(s, i + 1, acc.push((Token::Bang, i)))
        } else if c == '=' {
            lex(s, i + 1, acc.push((Token::Equal, i)))
        } else if c == '~' {
            lex(s, i + 1, acc.push((Token::Tilde, i)))
        } else if c == '&' {
            if i + 1 < s.len() && s[i + 1] == '&' {
                lex(s, i + 2, acc.push((Token::AndAnd, i)))
            } else {
                Err(syntax_error(Production::Connective, i))
            }
        } else if c == '|' {
            if i + 1 < s.len() && s[i + 1] == '|' {
                lex(s, i + 2, acc.push((Token::OrOr, i)))
            } else {
                Err(syntax_error(Production::Connective, i))
            }
        } else if c == '"' {
            match quoted_at(s, i) {
                Some((t, j)) => if i < j <= s.len() {
                    lex(s, j, acc.push((Token::Text(t), i)))
                } else {
                    Err(syntax_error(Production::StringLiteral, i))
                },
                None => Err(syntax_error(Production::StringLiteral, i)),
            }
        } else {
            match property_at(s, i) {
                Some((p, j)) => lex(s, j, acc.push((Token::Prop(p), i))),
                None => if is_letter(c) {
                    Err(syntax_error(Production::Property, i))
                } else {
                    Err(syntax_error(Production::Token, i))
                },
            }
        }
    }
}

/// A token as the lexer hands it on.
pub enum TokenKind {
    Prop(Property),
    Equal,
    Tilde,
    Text(Vec<char>),
    Open,
    Close,
    Bang,
    AndAnd,
    OrOr,
}

/// A token and the position where it starts.
pub struct Lexeme {
    pub kind: TokenKind,
    pub position: usize,
}

impl View for Lexeme {
    type V = (Token, int);

    open spec fn view(&self) -> (Token, int) {
        let t = match &self.kind {
            TokenKind::Prop(p) => Token::Prop(*p),
            TokenKind::Equal => Token::Equal,
            TokenKind::Tilde => Token::Tilde,
            TokenKind::Text(v) => Token::Text(v@),
            TokenKind::Open => Token::Open,
            TokenKind::Close => Token::Close,
            TokenKind::Bang => Token::Bang,
            TokenKind::AndAnd => Token::AndAnd,
            TokenKind::OrOr => Token::OrOr,
        };
        (t, self.position as int)
    }
}

/// The tokens of a lexer's output, with their positions.
pub open spec fn lexemes_view(v: Seq<Lexeme>) -> Seq<(Token, int)> {
    v.map_values(|l: Lexeme| l@)
}

/// Whether the characters of `w` stand in `s` at `i`.
fn word_at_exec(s: &Vec<char>, i: usize, w: &Vec<char>) -> (r: bool)
    ensures
        r == word_at(s@, i as int, w@),
        r ==> i + w.len() <= s.len(),
{
    if w.len() > s.len() || i > s.len() - w.len() {
        return false;
    }
    let mut k: usize = 0;
    while k < w.len()
        invariant
            k <= w.len(),
            i + w.len() <= s.len(),
            forall|m: int| 0 <= m < k ==> s@[i + m] == w@[m],
        decreases w.len() - k,
    {
        if s[i + k] != w[k] {
            assert(s@.subrange(i as int, i + w.len())[k as int] != w@[k as int]);
            return false;
        }
        k = k + 1;
    }
    assert(s@.subrange(i as int, i + w.len()) =~= w@);
    true
}

/// The property name at `i` and the position after it.
pub fn property_at_exec(s: &Vec<char>, i: usize) -> (r: Option<(Property, usize)>)
    ensures
        match r {
            Some((p, j)) => property_at(s@, i as int) == Some((p, j as int)),
            None => property_at(s@, i as int) is None,
        },
{
    let class = vec!['c', 'l', 'a', 's', 's'];
    let name = vec!['n', 'a', 'm', 'e'];
    let role = vec!['r', 'o', 'l', 'e'];
    assert(class@ =~= seq!['c', 'l', 'a', 's', 's']);
    assert(name@ =~= seq!['n', 'a', 'm', 'e']);
    assert(role@ =~= seq!['r', 'o', 'l', 'e']);
    assert(class.len() == 5 && name.len() == 4 && role.len() == 4);
    if word_at_exec(s, i, &class) {
        Some((Property::Class, i + 5))
    } else if word_at_exec(s, i, &name) {
        Some((Property::Name, i + 4))
    } else if word_at_exec(s, i, &role) {
        Some((Property::Role, i + 4))
    } else {
        None
    }
}

/// The escape at `i`: the character it stands for and the position after it.
pub fn escape_at_exec(s: &Vec<char>, i: usize) -> (r: Option<(char, usize)>)
    ensures
        match r {
            Some((c, j)) => escape_at(s@, i as int) == Some((c, j as int)),
            None => escape_at(s@, i as int) is None,
        },
{
    if i < s.len() && s.len() - i > 1 && s[i] == '\\' && (s[i + 1] == '"' || s[i + 1] == '\\') {
        Some((s[i + 1], i + 2))
    } else {
        None
    }
}

/// The end of the run of plain characters that starts at `i`.
pub fn plain_run_end_exec(s: &Vec<char>, i: usize) -> (r: usize)
    requires
        i <= s.len(),
    ensures
        r as int == plain_run_end(s@, i as int),
        i <= r <= s.len(),
{
    let mut j = i;
    while j < s.len() && s[j] != '\\' && s[j] != '"'
        invariant
            i <= j <= s.len(),
            plain_run_end(s@, i as int) == plain_run_end(s@, j as int),
        decreases s.len() - j,
    {
        j = j + 1;
    }
    j
}

/// The double-quoted string at `i`: its content and the position after it.
pub fn quoted_at_exec(s: &Vec<char>, i: usize) -> (r: Option<(Vec<char>, usize)>)
    ensures
        match r {
            Some((v, j)) => quoted_at(s@, i as int) == Some((v@, j as int)) && i < j <= s.len(),
            None => quoted_at(s@, i as int) is None,
        },
{
    if i >= s.len() || s[i] != '"' {
        return None;
    }
    let mut acc: Vec<char> = Vec::new();
    let mut j = i + 1;
    while j < s.len()
        invariant
            i < j <= s.len(),
            quoted_at(s@, i as int) == string_rest(s@, j as int, acc@),
        decreases s.len() - j,
    {
        let c = s[j];
        if c == '"' {
            return Some((acc, j + 1));
        } else if c == '\\' {
            match escape_at_exec(s, j) {
                Some((e, k)) => {
                    acc.push(e);
                    j = k;
                },
                None => {
                    return None;
                },
            }
        } else {
            acc.push(c);
            j = j + 1;
        }
    }
    None
}

/// Splits the characters of a condition into tokens.
#[verifier::spinoff_prover]
#[verifier::rlimit(20)]
pub fn lex_exec(s: &Vec<char>) -> (r: Result<Vec<Lexeme>, ParseError>)
    ensures
        match r {
            Ok(v) => lex(s@, 0, Seq::empty()) == Ok::<Seq<(Token, int)>, ParseError>(lexemes_view(v@)),
            Err(e) => lex(s@, 0, Seq::empty()) == Err::<Seq<(Token, int)>, ParseError>(e),
        },
{
    let mut toks: Vec<Lexeme> = Vec::new();
    let mut i: usize = 0;
    assert(lexemes_view(toks@) =~= Seq::empty());
    while i < s.len()
        invariant
            i <= s.len(),
            lex(s@, 0, Seq::empty()) == lex(s@, i as int, lexemes_view(toks@)),
        decreases s.len() - i,
    {
        let c = s[i];
        let old_view = Ghost(lexemes_view(toks@));
        let kind: TokenKind;
        let next: usize;
        if c == ' ' || c == '\t' {
            i = i + 1;
            continue;
        } else if c == '(' {
            kind = TokenKind::Open;
            next = i + 1;
        } else if c == ')' {
            kind = TokenKind::Close;
            next = i + 1;
        } else if c == '!' {
            kind = TokenKind::Bang;
            next = i + 1;
        } else if c == '=' {
            kind = TokenKind::Equal;
            next = i + 1;
        } else if c == '~' {
            kind = TokenKind::Tilde;
            next = i + 1;
        } else if c == '&' {
            if i + 1 < s.len() && s[i + 1] == '&' {
                kind = TokenKind::AndAnd;
                next = i + 2;
            } else {
                return Err(ParseError::Syntax { expected: Production::Connective, position: i });
            }
        } else if c == '|' {
            if i + 1 < s.len() && s[i + 1] == '|' {
                kind = TokenKind::OrOr;
                next = i + 2;
            } else {
                return Err(ParseError::Syntax { expected: Production::Connective, position: i });
            }
        } else if c == '"' {
            match quoted_at_exec(s, i) {
                Some((t, j)) => {
                    kind = TokenKind::Text(t);
                    next = j;
                },
                None => {
                    return Err(ParseError::Syntax { expected: Production::StringLiteral, position: i });
                },
            }
        } else {
            match property_at_exec(s, i) {
                Some((p, j)) => {
                    kind = TokenKind::Prop(p);
                    next = j;
                },
                None => {
                    if ('a' <= c && c <= 'z') || ('A' <= c && c <= 'Z') {
                        return Err(ParseError::Syntax { expected: Production::Property, position: i });
                    } else {
                        return Err(ParseError::Syntax { expected: Production::Token, position: i });
                    }
                },
            }
        }
        let l = Lexeme { kind, position: i };
        toks.push(l);
        assert(lexemes_view(toks@) =~= old_view@.push(l@));
        i = next;
    }
    Ok(toks)
}

/// What parsing from a token gives: an expression and the index of the
/// token after it, or an error.
pub type Parsed = Result<(Expr, int), ParseError>;

/// The position of token `t`, or the end of the text after the last token.
pub open spec fn position_of(ts: Seq<(Token, int)>, n: int, t: int) -> int {
    if 0 <= t < ts.len() {
        ts[t].1
    } else {
        n
    }
}

/// Whether token `t` of `ts` is `k`.
pub open spec fn token_is(ts: Seq<(Token, int)>, t: int, k: Token) -> bool {
    0 <= t < ts.len() && ts[t].0 == k
}

/// The match that starts with property `p` at token `t`: an operator and a string.
pub open spec fn parse_match(ts: Seq<(Token, int)>, n: int, t: int, p: Property) -> Parsed {
    if token_is(ts, t + 1, Token::Equal) || token_is(ts, t + 1, Token::Tilde) {
        if 0 <= t + 2 < ts.len() && ts[t + 2].0 is Text {
            let v = ts[t + 2].0->Text_0;
            if ts[t + 1].0 == Token::Equal {
                Ok((Expr::Pure(p, Test::Equal(v)), t + 3))
            } else if pattern_compiles(v) {
                Ok((Expr::Pure(p, Test::Regex(v)), t + 3))
            } else {
                Err(ParseError::InvalidPattern { position: ts[t + 2].1 as usize })
            }
        } else {
            Err(syntax_error(Production::StringLiteral, position_of(ts, n, t + 2)))
        }
    } else {
        Err(syntax_error(Production::Comparison, position_of(ts, n, t + 1)))
    }
}

/// A group in parentheses or a match.
pub open spec fn parse_primary(ts: Seq<(Token, int)>, n: int, t: int) -> Parsed
    decreases ts.len() - t, 0nat,
{
    if token_is(ts, t, Token::Open) {
        match parse_or(ts, n, t + 1) {
            Ok((e, j)) => if token_is(ts, j, Token::Close) {
                Ok((e, j + 1))
            } else {
                Err(syntax_error(Production::Grouping, position_of(ts, n, j)))
            },
            Err(x) => Err(x),
        }
    } else if 0 <= t < ts.len() && ts[t].0 is Prop {
        parse_match(ts, n, t, ts[t].0->Prop_0)
    } else {
        Err(syntax_error(Production::Expression, position_of(ts, n, t)))
    }
}

/// Any number of `!` before a primary expression.
pub open spec fn parse_not(ts: Seq<(Token, int)>, n: int, t: int) -> Parsed
    decreases ts.len() - t, 1nat,
{
    if token_is(ts, t, Token::Bang) {
        match parse_not(ts, n, t + 1) {
            Ok((e, j)) => Ok((Expr::Not(Box::new(e)), j)),
            Err(x) => Err(x),
        }
    } else {
        parse_primary(ts, n, t)
    }
}

/// Operands joined by `&&`, grouped to the left.
pub open spec fn parse_and(ts: Seq<(Token, int)>, n: int, t: int) -> Parsed
    decreases ts.len() - t, 2nat,
{
    match parse_not(ts, n, t) {
        Ok((e, j)) => if t < j <= ts.len() {
            and_rest(ts, n, j, e)
        } else {
            Err(syntax_error(Production::Expression, position_of(ts, n, t)))
        },
        Err(x) => Err(x),
    }
}

/// The `&& operand` pairs that follow the operands already joined into `acc`.
pub open spec fn and_rest(ts: Seq<(Token, int)>, n: int, t: int, acc: Expr) -> Parsed
    decreases ts.len() - t, 2nat,
{
    if token_is(ts, t, Token::AndAnd) {
        match parse_not(ts, n, t + 1) {
            Ok((e, j)) => if t + 1 < j <= ts.len() {
                and_rest(ts, n, j, Expr::And(Box::new(acc), Box::new(e)))
            } else {
                Err(syntax_error(Production::Expression, position_of(ts, n, t + 1)))
            },
            Err(x) => Err(x),
        }
    } else {
        Ok((acc, t))
    }
}

/// Operands joined by `||`, grouped to the left; `&&` binds tighter.
pub open spec fn parse_or(ts: Seq<(Token, int)>, n: int, t: int) -> Parsed
    decreases ts.len() - t, 3nat,
{
    match parse_and(ts, n, t) {
        Ok((e, j)) => if t < j <= ts.len() {
            or_rest(ts, n, j, e)
        } else {
            Err(syntax_error(Production::Expression, position_of(ts, n, t)))
        },
        Err(x) => Err(x),
    }
}

/// The `|| operand` pairs that follow the operands already joined into `acc`.
pub open spec fn or_rest(ts: Seq<(Token, int)>, n: int, t: int, acc: Expr) -> Parsed
    decreases ts.len() - t, 3nat,
{
    if token_is(ts, t, Token::OrOr) {
        match parse_and(ts, n, t + 1) {
            Ok((e, j)) => if t + 1 < j <= ts.len() {
                or_rest(ts, n, j, Expr::Or(Box::new(acc), Box::new(e)))
            } else {
                Err(syntax_error(Production::Expression, position_of(ts, n, t + 1)))
            },
            Err(x) => Err(x),
        }
    } else {
        Ok((acc, t))
    }
}

/// A whole condition: one expression and nothing after it.
pub open spec fn parse_tokens(ts: Seq<(Token, int)>, n: int) -> Result<Expr, ParseError> {
    match parse_or(ts, n, 0) {
        Ok((e, j)) => if j == ts.len() {
            Ok(e)
        } else {
            Err(syntax_error(Production::EndOfInput, position_of(ts, n, j)))
        },
        Err(x) => Err(x),
    }
}

/// What a condition text means: its expression, or the first error in it.
pub open spec fn parse_spec(s: Seq<char>) -> Result<Expr, ParseError> {
    match lex(s, 0, Seq::empty()) {
        Ok(ts) => parse_tokens(ts, s.len() as int),
        Err(x) => Err(x),
    }
}

/// What a parsing function returned, as the spec parser states it.
pub open spec fn parsed_view(r: Result<(Condition, usize), ParseError>) -> Parsed {
    match r {
        Ok((c, j)) => Ok((c@, j as int)),
        Err(x) => Err(x),
    }
}

/// What the parsing functions promise: the spec's answer, and on success
/// progress past token `t`.
pub open spec fn parsed_as(r: Result<(Condition, usize), ParseError>, expected: Parsed, t: int, len: int) -> bool {
    parsed_view(r) == expected && (r matches Ok((_, j)) ==> t < j <= len)
}

fn position_of_exec(ts: &Vec<Lexeme>, n: usize, t: usize) -> (r: usize)
    ensures
        r as int == position_of(lexemes_view(ts@), n as int, t as int),
{
    if t < ts.len() {
        ts[t].position
    } else {
        n
    }
}

#[verifier::spinoff_prover]
#[verifier::rlimit(20)]
fn parse_match_exec(ts: &Vec<Lexeme>, n: usize, t: usize, p: Property) -> (r: Result<(Condition, usize), ParseError>)
    requires
        t < ts.len(),
    ensures
        parsed_as(r, parse_match(lexemes_view(ts@), n as int, t as int, p), t as int, ts.len() as int),
{
    let ghost tv = lexemes_view(ts@);
    let regex = if t + 1 < ts.len() {
        match ts[t + 1].kind {
            TokenKind::Equal => false,
            TokenKind::Tilde => true,
            _ => {
                return Err(ParseError::Syntax { expected: Production::Comparison, position: position_of_exec(ts, n, t + 1) });
            },
        }
    } else {
        return Err(ParseError::Syntax { expected: Production::Comparison, position: n });
    };
    assert(token_is(tv, t + 1, Token::Equal) || token_is(tv, t + 1, Token::Tilde));
    if t + 2 < ts.len() {
        if let TokenKind::Text(v) = &ts[t + 2].kind {
            let text = string_of(v.as_slice());
            if !regex {
                let c = Condition::Pure(Match { prop: p, op: Operator::Equal(text) });
                return Ok((c, t + 3));
            }
            match Pattern::new(text.as_str()) {
                Some(pat) => {
                    let c = Condition::Pure(Match { prop: p, op: Operator::Regex(pat) });
                    return Ok((c, t + 3));
                },
                None => {
                    return Err(ParseError::InvalidPattern { position: ts[t + 2].position });
                },
            }
        }
    }
    Err(ParseError::Syntax { expected: Production::StringLiteral, position: position_of_exec(ts, n, t + 2) })
}

fn parse_primary_exec(ts: &Vec<Lexeme>, n: usize, t: usize) -> (r: Result<(Condition, usize), ParseError>)
    requires
        t <= ts.len(),
    ensures
        parsed_as(r, parse_primary(lexemes_view(ts@), n as int, t as int), t as int, ts.len() as int),
    decreases ts.len() - t, 0nat,
{
    let ghost tv = lexemes_view(ts@);
    if t < ts.len() {
        match ts[t].kind {
            TokenKind::Open => {
                assert(token_is(tv, t as int, Token::Open));
                let (e, j) = parse_or_exec(ts, n, t + 1)?;
                if j < ts.len() {
                    if let TokenKind::Close = ts[j].kind {
                        return Ok((e, j + 1));
                    }
                }
                return Err(ParseError::Syntax { expected: Production::Grouping, position: position_of_exec(ts, n, j) });
            },
            TokenKind::Prop(p) => {
                return parse_match_exec(ts, n, t, p);
            },
            _ => {},
        }
    }
    Err(ParseError::Syntax { expected: Production::Expression, position: position_of_exec(ts, n, t) })
}

fn parse_not_exec(ts: &Vec<Lexeme>, n: usize, t: usize) -> (r: Result<(Condition, usize), ParseError>)
    requires
        t <= ts.len(),
    ensures
        parsed_as(r, parse_not(lexemes_view(ts@), n as int, t as int), t as int, ts.len() as int),
    decreases ts.len() - t, 1nat,
{
    let ghost tv = lexemes_view(ts@);
    if t < ts.len() {
        if let TokenKind::Bang = ts[t].kind {
            assert(token_is(tv, t as int, Token::Bang));
            let (e, j) = parse_not_exec(ts, n, t + 1)?;
            return Ok((Condition::Not(Box::new(e)), j));
        }
    }
    parse_primary_exec(ts, n, t)
}

fn parse_and_exec(ts: &Vec<Lexeme>, n: usize, t: usize) -> (r: Result<(Condition, usize), ParseError>)
    requires
        t <= ts.len(),
    ensures
        parsed_as(r, parse_and(lexemes_view(ts@), n as int, t as int), t as int, ts.len() as int),
    decreases ts.len() - t, 2nat,
{
    let ghost tv = lexemes_view(ts@);
    let (first, j0) = parse_not_exec(ts, n, t)?;
    let mut acc = first;
    let mut j = j0;
    while j < ts.len()
        invariant
            t < j <= ts.len(),
            tv == lexemes_view(ts@),
            parse_and(tv, n as int, t as int) == and_rest(tv, n as int, j as int, acc@),
        decreases ts.len() - j,
    {
        if let TokenKind::AndAnd = ts[j].kind {
            assert(token_is(tv, j as int, Token::AndAnd));
            let (e, k) = parse_not_exec(ts, n, j + 1)?;
            acc = Condition::And(Box::new(acc), Box::new(e));
            j = k;
        } else {
            return Ok((acc, j));
        }
    }
    Ok((acc, j))
}

fn parse_or_exec(ts: &Vec<Lexeme>, n: usize, t: usize) -> (r: Result<(Condition, usize), ParseError>)
    requires
        t <= ts.len(),
    ensures
        parsed_as(r, parse_or(lexemes_view(ts@), n as int, t as int), t as int, ts.len() as int),
    decreases ts.len() - t, 3nat,
{
    let ghost tv = lexemes_view(ts@);
    let (first, j0) = parse_and_exec(ts, n, t)?;
    let mut acc = first;
    let mut j = j0;
    while j < ts.len()
        invariant
            t < j <= ts.len(),
            tv == lexemes_view(ts@),
            parse_or(tv, n as int, t as int) == or_rest(tv, n as int, j as int, acc@),
        decreases ts.len() - j,
    {
        if let TokenKind::OrOr = ts[j].kind {
            assert(token_is(tv, j as int, Token::OrOr));
            let (e, k) = parse_and_exec(ts, n, j + 1)?;
            acc = Condition::Or(Box::new(acc), Box::new(e));
            j = k;
        } else {
            return Ok((acc, j));
        }
    }
    Ok((acc, j))
}

/// A single match at `i`: a property, `=` or `~`, and a string, with spaces
/// or tabs allowed between them. Gives the match and the position after it.
pub open spec fn match_at(s: Seq<char>, i: int) -> Result<(Property, Test, int), ParseError> {
    match property_at(s, i) {
        None => Err(syntax_error(Production::Property, i)),
        Some((p, j)) => {
            let k = spaces_end(s, j);
            if 0 <= k < s.len() && (s[k] == '=' || s[k] == '~') {
                let m = spaces_end(s, k + 1);
                match quoted_at(s, m) {
                    None => Err(syntax_error(Production::StringLiteral, m)),
                    Some((v, e)) => if s[k] == '=' {
                        Ok((p, Test::Equal(v), e))
                    } else if pattern_compiles(v) {
                        Ok((p, Test::Regex(v), e))
                    } else {
                        Err(ParseError::InvalidPattern { position: m as usize })
                    },
                }
            } else {
                Err(syntax_error(Production::Comparison, k))
            }
        },
    }
}

/// Whether `rest` is what follows position `j` of `s`.
pub open spec fn rest_from(s: Seq<char>, j: int, rest: Seq<char>) -> bool {
    0 <= j <= s.len() && rest == s.subrange(j, s.len() as int)
}

fn spaces_end_exec(s: &Vec<char>, i: usize) -> (r: usize)
    requires
        i <= s.len(),
    ensures
        r as int == spaces_end(s@, i as int),
        i <= r <= s.len(),
{
    let mut j = i;
    while j < s.len() && (s[j] == ' ' || s[j] == '\t')
        invariant
            i <= j <= s.len(),
            spaces_end(s@, i as int) == spaces_end(s@, j as int),
        decreases s.len() - j,
    {
        j = j + 1;
    }
    j
}

/// Reads a property name at the start of `input`; gives the rest of the input and the property.
#[verifier::spinoff_prover]
#[verifier::rlimit(20)]
pub fn property(input: &str) -> (r: Result<(String, Property), ParseError>)
    ensures
        match r {
            Ok((rest, p)) => property_at(input@, 0) == Some((p, input@.len() - rest@.len())) && rest_from(input@, input@.len() - rest@.len(), rest@),
            Err(x) => property_at(input@, 0) is None && x == syntax_error(Production::Property, 0),
        },
{
    let cs = chars_of(input);
    match property_at_exec(&cs, 0) {
        Some((p, j)) => Ok((string_between(&cs, j, cs.len()), p)),
        None => Err(ParseError::Syntax { expected: Production::Property, position: 0 }),
    }
}

/// Reads an escape (`\"` or `\\`) at the start of `input`; gives the rest of
/// the input and the character it stands for.
#[verifier::spinoff_prover]
#[verifier::rlimit(20)]
pub fn escape(input: &str) -> (r: Result<(String, String), ParseError>)
    ensures
        match r {
            Ok((rest, c)) => escape_at(input@, 0) == Some((c@[0], input@.len() - rest@.len()))
                && c@.len() == 1 && rest_from(input@, input@.len() - rest@.len(), rest@),
            Err(x) => escape_at(input@, 0) is None && x == syntax_error(Production::StringLiteral, 0),
        },
{
    let cs = chars_of(input);
    match escape_at_exec(&cs, 0) {
        Some((c, j)) => {
            let one = vec![c];
            Ok((string_between(&cs, j, cs.len()), string_of(one.as_slice())))
        },
        None => Err(ParseError::Syntax { expected: Production::StringLiteral, position: 0 }),
    }
}

/// Reads the characters at the start of `input` that are neither a backslash
/// nor a double quote, at least one; gives the rest of the input and those characters.
#[verifier::spinoff_prover]
#[verifier::rlimit(20)]
pub fn no_escapes(input: &str) -> (r: Result<(String, String), ParseError>)
    ensures
        match r {
            Ok((rest, run)) => plain_run_end(input@, 0) > 0
                && run@ == input@.subrange(0, plain_run_end(input@, 0))
                && rest_from(input@, plain_run_end(input@, 0), rest@),
            Err(x) => plain_run_end(input@, 0) == 0 && x == syntax_error(Production::StringLiteral, 0),
        },
{
    let cs = chars_of(input);
    let end = plain_run_end_exec(&cs, 0);
    if end == 0 {
        Err(ParseError::Syntax { expected: Production::StringLiteral, position: 0 })
    } else {
        Ok((string_between(&cs, end, cs.len()), string_between(&cs, 0, end)))
    }
}

/// Reads a double-quoted string at the start of `input`; gives the rest of
/// the input and the string's content with its escapes replaced.
#[verifier::spinoff_prover]
#[verifier::rlimit(20)]
pub fn quoted_string(input: &str) -> (r: Result<(String, String), ParseError>)
    ensures
        match r {
            Ok((rest, v)) => quoted_at(input@, 0) == Some((v@, input@.len() - rest@.len()))
                && rest_from(input@, input@.len() - rest@.len(), rest@),
            Err(x) => quoted_at(input@, 0) is None && x == syntax_error(Production::StringLiteral, 0),
        },
{
    let cs = chars_of(input);
    match quoted_at_exec(&cs, 0) {
        Some((v, j)) => Ok((string_between(&cs, j, cs.len()), string_of(v.as_slice()))),
        None => Err(ParseError::Syntax { expected: Production::StringLiteral, position: 0 }),
    }
}

/// Reads one match at the start of `input`; gives the rest of the input and the match.
#[verifier::spinoff_prover]
#[verifier::rlimit(20)]
pub fn match_(input: &str) -> (r: Result<(String, Match), ParseError>)
    ensures
        match r {
            Ok((rest, m)) => match_at(input@, 0) == Ok::<(Property, Test, int), ParseError>((m.prop, m.op@, input@.len() - rest@.len()))
                && rest_from(input@, input@.len() - rest@.len(), rest@),
            Err(x) => match_at(input@, 0) == Err::<(Property, Test, int), ParseError>(x),
        },
{
    let cs = chars_of(input);
    let (p, j) = match property_at_exec(&cs, 0) {
        Some(found) => found,
        None => {
            return Err(ParseError::Syntax { expected: Production::Property, position: 0 });
        },
    };
    let k = spaces_end_exec(&cs, j);
    if k >= cs.len() || (cs[k] != '=' && cs[k] != '~') {
        return Err(ParseError::Syntax { expected: Production::Comparison, position: k });
    }
    let m = spaces_end_exec(&cs, k + 1);
    let (v, e) = match quoted_at_exec(&cs, m) {
        Some(found) => found,
        None => {
            return Err(ParseError::Syntax { expected: Production::StringLiteral, position: m });
        },
    };
    let text = string_of(v.as_slice());
    let op = if cs[k] == '=' {
        Operator::Equal(text)
    } else {
        match Pattern::new(text.as_str()) {
            Some(pat) => Operator::Regex(pat),
            None => {
                return Err(ParseError::InvalidPattern { position: m });
            },
        }
    };
    Ok((string_between(&cs, e, cs.len()), Match { prop: p, op }))
}

/// Parses a condition text. The whole text must form one expression.
#[verifier::spinoff_prover]
#[verifier::rlimit(20)]
pub fn parse(text: &str) -> (r: Result<Condition, ParseError>)
    ensures
        match r {
            Ok(c) => parse_spec(text@) == Ok::<Expr, ParseError>(c@),
            Err(x) => parse_spec(text@) == Err::<Expr, ParseError>(x),
        },
{
    let cs = chars_of(text);
    let ts = lex_exec(&cs)?;
    let (c, j) = parse_or_exec(&ts, cs.len(), 0)?;
    if j == ts.len() {
        Ok(c)
    } else {
        Err(ParseError::Syntax { expected: Production::EndOfInput, position: position_of_exec(&ts, cs.len(), j) })
    }
}

/// Parses a whole condition text; gives what is left of it, which is always
/// empty, and the condition.
#[verifier::spinoff_prover]
#[verifier::rlimit(20)]
pub fn condition(input: &str) -> (r: Result<(String, Condition), ParseError>)
    ensures
        match r {
            Ok((rest, c)) => parse_spec(input@) == Ok::<Expr, ParseError>(c@) && rest@.len() == 0,
            Err(x) => parse_spec(input@) == Err::<Expr, ParseError>(x),
        },
{
    let c = parse(input)?;
    Ok((String::new(), c))
}

impl core::str::FromStr for Condition {
    type Err = ParseError;

    fn from_str(text: &str) -> Result<Condition, ParseError> {
        parse(text)
    }
}

/// A text that parses gives a tree whose evaluation is fixed by the property
/// values alone: under two tables that agree on every property it evaluates
/// to the same result.
pub proof fn lemma_parsed_evaluation_deterministic<E>(
    text: Seq<char>,
    env1: spec_fn(Property) -> Result<Option<Seq<char>>, E>,
    env2: spec_fn(Property) -> Result<Option<Seq<char>>, E>,
)
    requires
        parse_spec(text) is Ok,
        forall|p: Property| #[trigger] env1(p) == env2(p),
    ensures
        eval(parse_spec(text)->Ok_0, env1) == eval(parse_spec(text)->Ok_0, env2),
{
    lemma_evaluation_deterministic(parse_spec(text)->Ok_0, env1, env2);
}

/// Whether every pattern in `e` compiles.
pub open spec fn well_formed(e: Expr) -> bool
    decreases e,
{
    match e {
        Expr::Pure(_, Test::Regex(v)) => pattern_compiles(v),
        Expr::Pure(_, Test::Equal(_)) => true,
        Expr::And(a, b) => well_formed(*a) && well_formed(*b),
        Expr::Or(a, b) => well_formed(*a) && well_formed(*b),
        Expr::Not(a) => well_formed(*a),
    }
}

/// The tokens of `e` written out with every operand of a connective or a
/// negation in parentheses.
pub open spec fn tokens_of(e: Expr) -> Seq<Token>
    decreases e,
{
    match e {
        Expr::Pure(p, Test::Equal(v)) => seq![Token::Prop(p), Token::Equal, Token::Text(v)],
        Expr::Pure(p, Test::Regex(v)) => seq![Token::Prop(p), Token::Tilde, Token::Text(v)],
        Expr::And(a, b) => seq![Token::Open] + tokens_of(*a) + seq![Token::Close, Token::AndAnd, Token::Open]
            + tokens_of(*b) + seq![Token::Close],
        Expr::Or(a, b) => seq![Token::Open] + tokens_of(*a) + seq![Token::Close, Token::OrOr, Token::Open]
            + tokens_of(*b) + seq![Token::Close],
        Expr::Not(a) => seq![Token::Bang, Token::Open] + tokens_of(*a) + seq![Token::Close],
    }
}

/// Whether the tokens of `ts` from index `t` on are `w`.
pub open spec fn tokens_at(ts: Seq<(Token, int)>, t: int, w: Seq<Token>) -> bool {
    0 <= t && t + w.len() <= ts.len() && forall|k: int| 0 <= k < w.len() ==> #[trigger] ts[t + k].0 == w[k]
}

/// Whether index `j` of `ts` holds no `&&` or `||`, so that an expression ends there.
pub open spec fn ends_at(ts: Seq<(Token, int)>, j: int) -> bool {
    !token_is(ts, j, Token::AndAnd) && !token_is(ts, j, Token::OrOr)
}

proof fn lemma_tokens_len(e: Expr)
    ensures
        tokens_of(e).len() >= 3,
    decreases e,
{
    match e {
        Expr::And(a, b) => {
            lemma_tokens_len(*a);
        },
        Expr::Or(a, b) => {
            lemma_tokens_len(*a);
        },
        Expr::Not(a) => {
            lemma_tokens_len(*a);
        },
        _ => {},
    }
}

/// A group `( e )` at `t` parses as `e` at the level of negations.
proof fn lemma_group_parses(e: Expr, ts: Seq<(Token, int)>, n: int, t: int)
    requires
        well_formed(e),
        tokens_at(ts, t, seq![Token::Open] + tokens_of(e) + seq![Token::Close]),
    ensures
        parse_not(ts, n, t) == Ok::<(Expr, int), ParseError>((e, t + tokens_of(e).len() + 2)),
    decreases e, 2nat,
{
    let w = seq![Token::Open] + tokens_of(e) + seq![Token::Close];
    let len = tokens_of(e).len() as int;
    assert(ts[t + 0].0 == w[0]);
    assert(ts[t + (len + 1)].0 == w[len + 1]);
    assert(tokens_at(ts, t + 1, tokens_of(e))) by {
        assert forall|k: int| 0 <= k < len implies #[trigger] ts[t + 1 + k].0 == tokens_of(e)[k] by {
            assert(ts[t + (k + 1)].0 == w[k + 1]);
        }
    }
    lemma_expr_parses(e, ts, n, t + 1);
    assert(parse_primary(ts, n, t) == Ok::<(Expr, int), ParseError>((e, t + len + 2)));
}

/// The tokens of a well-formed `e` at `t`, followed by no connective, parse as `e`.
proof fn lemma_expr_parses(e: Expr, ts: Seq<(Token, int)>, n: int, t: int)
    requires
        well_formed(e),
        tokens_at(ts, t, tokens_of(e)),
        ends_at(ts, t + tokens_of(e).len()),
    ensures
        parse_or(ts, n, t) == Ok::<(Expr, int), ParseError>((e, t + tokens_of(e).len())),
    decreases e, 1nat,
{
    lemma_tokens_len(e);
    match e {
        Expr::Pure(p, test) => {
            let w = tokens_of(e);
            let end = t + w.len();
            assert(ts[t + 0].0 == w[0]);
            assert(ts[t + 1].0 == w[1]);
            assert(ts[t + 2].0 == w[2]);
            assert(parse_not(ts, n, t) == Ok::<(Expr, int), ParseError>((e, end)));
            assert(parse_and(ts, n, t) == Ok::<(Expr, int), ParseError>((e, end)));
        },
        Expr::Not(a) => lemma_not_parses(e, ts, n, t),
        Expr::And(a, b) => lemma_and_parses(e, ts, n, t),
        Expr::Or(a, b) => lemma_or_parses(e, ts, n, t),
    }
}

proof fn lemma_not_parses(e: Expr, ts: Seq<(Token, int)>, n: int, t: int)
    requires
        e is Not,
        well_formed(e),
        tokens_at(ts, t, tokens_of(e)),
        ends_at(ts, t + tokens_of(e).len()),
    ensures
        parse_or(ts, n, t) == Ok::<(Expr, int), ParseError>((e, t + tokens_of(e).len())),
    decreases e, 0nat,
{
    let a = *(e->Not_0);
    let w = tokens_of(e);
    let end = t + w.len();
    let g = seq![Token::Open] + tokens_of(a) + seq![Token::Close];
    assert(w =~= seq![Token::Bang] + g);
    assert(ts[t + 0].0 == w[0]);
    assert(tokens_at(ts, t + 1, g)) by {
        assert forall|k: int| 0 <= k < g.len() implies #[trigger] ts[t + 1 + k].0 == g[k] by {
            assert(ts[t + (k + 1)].0 == w[k + 1]);
        }
    }
    lemma_group_parses(a, ts, n, t + 1);
    assert(parse_not(ts, n, t) == Ok::<(Expr, int), ParseError>((e, end)));
    assert(parse_and(ts, n, t) == Ok::<(Expr, int), ParseError>((e, end)));
}

/// The two groups of a connective at `t`: `( a )`, the connective, `( b )`.
proof fn lemma_split_groups(a: Expr, b: Expr, mid: Token, ts: Seq<(Token, int)>, t: int)
    requires
        tokens_at(ts, t, seq![Token::Open] + tokens_of(a) + seq![Token::Close, mid, Token::Open]
            + tokens_of(b) + seq![Token::Close]),
    ensures
        tokens_at(ts, t, seq![Token::Open] + tokens_of(a) + seq![Token::Close]),
        ts[t + tokens_of(a).len() + 2].0 == mid,
        tokens_at(ts, t + tokens_of(a).len() + 3, seq![Token::Open] + tokens_of(b) + seq![Token::Close]),
{
    let w = seq![Token::Open] + tokens_of(a) + seq![Token::Close, mid, Token::Open] + tokens_of(b) + seq![Token::Close];
    let la = tokens_of(a).len() as int;
    let ga = seq![Token::Open] + tokens_of(a) + seq![Token::Close];
    let gb = seq![Token::Open] + tokens_of(b) + seq![Token::Close];
    assert(w =~= ga + seq![mid] + gb);
    assert forall|k: int| 0 <= k < ga.len() implies #[trigger] ts[t + k].0 == ga[k] by {
        assert(ts[t + k].0 == w[k]);
    }
    assert(ts[t + (la + 2)].0 == w[la + 2]);
    assert forall|k: int| 0 <= k < gb.len() implies #[trigger] ts[t + la + 3 + k].0 == gb[k] by {
        assert(ts[t + (la + 3 + k)].0 == w[la + 3 + k]);
    }
}

proof fn lemma_and_parses(e: Expr, ts: Seq<(Token, int)>, n: int, t: int)
    requires
        e is And,
        well_formed(e),
        tokens_at(ts, t, tokens_of(e)),
        ends_at(ts, t + tokens_of(e).len()),
    ensures
        parse_or(ts, n, t) == Ok::<(Expr, int), ParseError>((e, t + tokens_of(e).len())),
    decreases e, 0nat,
{
    let a = *(e->And_0);
    let b = *(e->And_1);
    let la = tokens_of(a).len() as int;
    let end = t + tokens_of(e).len();
    lemma_split_groups(a, b, Token::AndAnd, ts, t);
    lemma_group_parses(a, ts, n, t);
    lemma_group_parses(b, ts, n, t + la + 3);
    assert(and_rest(ts, n, end, e) == Ok::<(Expr, int), ParseError>((e, end)));
    assert(and_rest(ts, n, t + la + 2, a) == Ok::<(Expr, int), ParseError>((e, end)));
    assert(parse_and(ts, n, t) == Ok::<(Expr, int), ParseError>((e, end)));
}

proof fn lemma_or_parses(e: Expr, ts: Seq<(Token, int)>, n: int, t: int)
    requires
        e is Or,
        well_formed(e),
        tokens_at(ts, t, tokens_of(e)),
        ends_at(ts, t + tokens_of(e).len()),
    ensures
        parse_or(ts, n, t) == Ok::<(Expr, int), ParseError>((e, t + tokens_of(e).len())),
    decreases e, 0nat,
{
    let a = *(e->Or_0);
    let b = *(e->Or_1);
    let la = tokens_of(a).len() as int;
    let end = t + tokens_of(e).len();
    lemma_split_groups(a, b, Token::OrOr, ts, t);
    lemma_group_parses(a, ts, n, t);
    lemma_group_parses(b, ts, n, t + la + 3);
    assert(parse_and(ts, n, t) == Ok::<(Expr, int), ParseError>((a, t + la + 2)));
    assert(parse_and(ts, n, t + la + 3) == Ok::<(Expr, int), ParseError>((b, end)));
    assert(or_rest(ts, n, end, e) == Ok::<(Expr, int), ParseError>((e, end)));
    assert(or_rest(ts, n, t + la + 2, a) == Ok::<(Expr, int), ParseError>((e, end)));
}

/// Every well-formed expression, written out as tokens with its operands in
/// parentheses, parses back to itself, wherever the tokens stand in the text.
pub proof fn lemma_tokens_parse_back(e: Expr, ts: Seq<(Token, int)>, n: int)
    requires
        well_formed(e),
        ts.len() == tokens_of(e).len(),
        forall|k: int| 0 <= k < ts.len() ==> #[trigger] ts[k].0 == tokens_of(e)[k],
    ensures
        parse_tokens(ts, n) == Ok::<Expr, ParseError>(e),
{
    assert(tokens_at(ts, 0, tokens_of(e))) by {
        assert forall|k: int| 0 <= k < tokens_of(e).len() implies #[trigger] ts[0 + k].0 == tokens_of(e)[k] by {
            assert(ts[k].0 == tokens_of(e)[k]);
        }
    }
    lemma_expr_parses(e, ts, n, 0);
}

/// The characters of a string's content with `"` and `\` escaped.
pub open spec fn escaped(v: Seq<char>) -> Seq<char>
    decreases v.len(),
{
    if v.len() == 0 {
        Seq::empty()
    } else if v[0] == '"' || v[0] == '\\' {
        seq!['\\', v[0]] + escaped(v.drop_first())
    } else {
        seq![v[0]] + escaped(v.drop_first())
    }
}

/// How a token is written.
pub open spec fn token_chars(t: Token) -> Seq<char> {
    match t {
        Token::Prop(Property::Class) => seq!['c', 'l', 'a', 's', 's'],
        Token::Prop(Property::Name) => seq!['n', 'a', 'm', 'e'],
        Token::Prop(Property::Role) => seq!['r', 'o', 'l', 'e'],
        Token::Equal => seq!['='],
        Token::Tilde => seq!['~'],
        Token::Text(v) => seq!['"'] + escaped(v) + seq!['"'],
        Token::Open => seq!['('],
        Token::Close => seq![')'],
        Token::Bang => seq!['!'],
        Token::AndAnd => seq!['&', '&'],
        Token::OrOr => seq!['|', '|'],
    }
}

/// Tokens written out, each followed by a space.
pub open spec fn render_tokens(ws: Seq<Token>) -> Seq<char>
    decreases ws.len(),
{
    if ws.len() == 0 {
        Seq::empty()
    } else {
        token_chars(ws[0]) + seq![' '] + render_tokens(ws.drop_first())
    }
}

/// A condition text for `e`, with every operand of a connective or a negation
/// in parentheses.
pub open spec fn render(e: Expr) -> Seq<char> {
    render_tokens(tokens_of(e))
}

/// Whether the characters of `s` from `i` on are `w`.
pub open spec fn chars_at(s: Seq<char>, i: int, w: Seq<char>) -> bool {
    0 <= i && i + w.len() <= s.len() && forall|k: int| 0 <= k < w.len() ==> #[trigger] s[i + k] == w[k]
}

proof fn lemma_chars_split(s: Seq<char>, i: int, w1: Seq<char>, w2: Seq<char>)
    requires
        chars_at(s, i, w1 + w2),
    ensures
        chars_at(s, i, w1),
        chars_at(s, i + w1.len(), w2),
{
    let w = w1 + w2;
    assert forall|k: int| 0 <= k < w1.len() implies #[trigger] s[i + k] == w1[k] by {
        assert(s[i + k] == w[k]);
    }
    assert forall|k: int| 0 <= k < w2.len() implies #[trigger] s[i + w1.len() + k] == w2[k] by {
        assert(s[i + (w1.len() + k)] == w[w1.len() + k]);
    }
}

/// Reading an escaped string content and its closing quote gives the content back.
proof fn lemma_string_rest_escaped(s: Seq<char>, i: int, acc: Seq<char>, v: Seq<char>)
    requires
        chars_at(s, i, escaped(v) + seq!['"']),
    ensures
        string_rest(s, i, acc) == Some((acc + v, i + escaped(v).len() + 1)),
    decreases v.len(),
{
    if v.len() == 0 {
        assert(s[i + 0] == (escaped(v) + seq!['"'])[0]);
        assert(acc + v =~= acc);
    } else {
        let c = v[0];
        let rest = v.drop_first();
        let head = if c == '"' || c == '\\' { seq!['\\', c] } else { seq![c] };
        assert(escaped(v) == head + escaped(rest));
        assert(escaped(v) + seq!['"'] =~= head + (escaped(rest) + seq!['"']));
        lemma_chars_split(s, i, head, escaped(rest) + seq!['"']);
        assert(s[i + 0] == head[0]);
        assert(acc.push(c) + rest =~= acc + v);
        if c == '"' || c == '\\' {
            assert(s[i + 1] == head[1]);
            assert(escape_at(s, i) == Some((c, i + 2)));
            lemma_string_rest_escaped(s, i + 2, acc.push(c), rest);
        } else {
            lemma_string_rest_escaped(s, i + 1, acc.push(c), rest);
        }
    }
}

/// Lexing a written token and the space after it gives that token.
proof fn lemma_lex_token(s: Seq<char>, i: int, acc: Seq<(Token, int)>, tok: Token)
    requires
        chars_at(s, i, token_chars(tok) + seq![' ']),
    ensures
        lex(s, i, acc) == lex(s, i + token_chars(tok).len() + 1, acc.push((tok, i))),
{
    let w = token_chars(tok);
    let j = i + w.len();
    lemma_chars_split(s, i, w, seq![' ']);
    assert(s[j + 0] == seq![' '][0]);
    assert(lex(s, j, acc.push((tok, i))) == lex(s, j + 1, acc.push((tok, i))));
    assert(s[i + 0] == w[0]);
    match tok {
        Token::Prop(p) => {
            assert(s[i + 1] == w[1]);
            assert(s[i + 2] == w[2]);
            assert(s[i + 3] == w[3]);
            assert(s.subrange(i, i + w.len()) =~= w) by {
                assert forall|k: int| 0 <= k < w.len() implies #[trigger] s.subrange(i, i + w.len())[k] == w[k] by {
                    assert(s[i + k] == w[k]);
                }
            }
            let class = seq!['c', 'l', 'a', 's', 's'];
            let name = seq!['n', 'a', 'm', 'e'];
            if p != Property::Class {
                assert(s.subrange(i, i + 5)[0] == s[i]);
                assert(!word_at(s, i, class));
            }
            if p == Property::Role {
                assert(s.subrange(i, i + 4)[0] == s[i]);
                assert(!word_at(s, i, name));
            }
            assert(property_at(s, i) == Some((p, j)));
        },
        Token::AndAnd => {
            assert(s[i + 1] == w[1]);
        },
        Token::OrOr => {
            assert(s[i + 1] == w[1]);
        },
        Token::Text(v) => {
            assert(w =~= seq!['"'] + (escaped(v) + seq!['"']));
            lemma_chars_split(s, i, seq!['"'], escaped(v) + seq!['"']);
            lemma_string_rest_escaped(s, i + 1, Seq::empty(), v);
            assert(Seq::<char>::empty() + v =~= v);
            assert(quoted_at(s, i) == Some((v, j)));
        },
        _ => {},
    }
}

/// Lexing written tokens up to the end of the text gives those tokens.
proof fn lemma_lex_render(s: Seq<char>, i: int, acc: Seq<(Token, int)>, ws: Seq<Token>)
    requires
        chars_at(s, i, render_tokens(ws)),
        i + render_tokens(ws).len() == s.len(),
    ensures
        lex(s, i, acc) matches Ok(out) && out.len() == acc.len() + ws.len()
            && (forall|k: int| 0 <= k < acc.len() ==> #[trigger] out[k] == acc[k])
            && forall|k: int| 0 <= k < ws.len() ==> #[trigger] out[acc.len() + k].0 == ws[k],
    decreases ws.len(),
{
    if ws.len() == 0 {
        assert(lex(s, i, acc) == Ok::<Seq<(Token, int)>, ParseError>(acc));
    } else {
        let tok = ws[0];
        let rest = ws.drop_first();
        let first = token_chars(tok) + seq![' '];
        assert(render_tokens(ws) == first + render_tokens(rest));
        lemma_chars_split(s, i, first, render_tokens(rest));
        lemma_lex_token(s, i, acc, tok);
        let acc2 = acc.push((tok, i));
        lemma_lex_render(s, i + first.len(), acc2, rest);
        let out = lex(s, i, acc)->Ok_0;
        assert forall|k: int| 0 <= k < acc.len() implies #[trigger] out[k] == acc[k] by {
            assert(out[k] == acc2[k]);
        }
        assert forall|k: int| 0 <= k < ws.len() implies #[trigger] out[acc.len() + k].0 == ws[k] by {
            if k == 0 {
                assert(out[acc.len() as int] == acc2[acc.len() as int]);
            } else {
                assert(out[acc2.len() + (k - 1)].0 == rest[k - 1]);
            }
        }
    }
}

/// Every well-formed expression, written out with its operands in
/// parentheses, parses back to itself.
pub proof fn lemma_render_parses_back(e: Expr)
    requires
        well_formed(e),
    ensures
        parse_spec(render(e)) == Ok::<Expr, ParseError>(e),
{
    let s = render(e);
    assert(chars_at(s, 0, s)) by {
        assert forall|k: int| 0 <= k < s.len() implies #[trigger] s[0 + k] == s[k] by {}
    }
    lemma_lex_render(s, 0, Seq::empty(), tokens_of(e));
    let ts = lex(s, 0, Seq::empty())->Ok_0;
    assert forall|k: int| 0 <= k < ts.len() implies #[trigger] ts[k].0 == tokens_of(e)[k] by {
        assert(ts[0 + k].0 == tokens_of(e)[k]);
    }
    lemma_tokens_parse_back(e, ts, s.len() as int);
}

} // verus!
