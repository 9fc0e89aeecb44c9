use vstd::prelude::*;
use crate::ast::{arity_consistent, rule_text, Ast, AstNodeType, Bnf, Expr, Expr0, Name, RemainExpr, RemainStmt};

verus! {

/// What the parser was looking for where it stopped.
#[derive(Clone, Copy, Debug, PartialEq, Eq, Structural)]
pub enum Expected {
    /// `::=`
    Define,
    /// `<`
    Open,
    /// `>`
    Close,
    /// a closing `"`
    Quote,
    /// `|` or the end of the text
    Bar,
    /// `E`, `<` or `"`
    ExprStart,
    /// `<` or `"`
    AtomStart,
    /// `E`, `<`, `"`, `|` or the end of the text
    Continuation,
    /// a name character, `>` or `"`
    NameChar,
}

/// Why a text is not a rule: the production that failed, the tokens it
/// expected, and the text that was left where it failed.
#[derive(Debug)]
pub struct ParseError {
    pub production: AstNodeType,
    pub expected: Expected,
    pub found: String,
}

/// A successful sub-parse: the tree, the text it matched and the text after it.
#[derive(Debug)]
pub struct ParseResult {
    pub r: Ast,
    pub matched: String,
    pub remain: String,
}

/// Outcome of a parse on a character sequence: the tree and the position
/// after it, or the failing production, what it expected and where.
pub type Parsed = Result<(Ast, int), (AstNodeType, Expected, int)>;

/// Characters a name may hold.
pub open spec fn is_name_char(c: char) -> bool {
    ('a' <= c && c <= 'z') || ('A' <= c && c <= 'Z') || ('0' <= c && c <= '9') || c == ' '
        || c == '+' || c == '-' || c == '*' || c == '/'
}

/// Order of the productions that may call each other at one position.
pub open spec fn rank(st: AstNodeType) -> nat {
    match st {
        AstNodeType::Name => 0,
        AstNodeType::Term => 1,
        AstNodeType::Expr0 => 2,
        AstNodeType::Expr => 3,
        AstNodeType::RemainExpr => 4,
        AstNodeType::RemainStmt => 5,
        AstNodeType::Stmt => 6,
        AstNodeType::Bnf => 7,
    }
}

pub open spec fn at(s: Seq<char>, i: int, c: char) -> bool {
    0 <= i < s.len() && s[i] == c
}

/// Number of alternatives of a statement whose remainder is `r`.
pub open spec fn arity_after(r: Ast) -> usize {
    match r {
        Ast::RemainStmt(RemainStmt::Epsilon) => 1,
        Ast::RemainStmt(RemainStmt::OrStmt { stmt }) => match *stmt {
            Ast::Stmt { parallels, .. } => (parallels + 1) as usize,
            _ => 0,
        },
        _ => 0,
    }
}

/// The predictive parser of the rule grammar, reading production `st` from
/// position `pos` of `s`.
pub open spec fn parse_at(s: Seq<char>, pos: int, st: AstNodeType) -> Parsed
    decreases (s.len() - pos) as nat, rank(st),
{
    match st {
        AstNodeType::Bnf => match parse_at(s, pos, AstNodeType::Term) {
            Err(f) => Err(f),
            Ok((t, e)) => if pos <= e && at(s, e, ':') && at(s, e + 1, ':') && at(s, e + 2, '=') {
                match parse_at(s, e + 3, AstNodeType::Stmt) {
                    Err(f) => Err(f),
                    Ok((b, e2)) => Ok(
                        (Ast::Bnf(Bnf { term: Box::new(t), stmt: Box::new(b) }), e2),
                    ),
                }
            } else {
                Err((AstNodeType::Bnf, Expected::Define, e))
            },
        },
        AstNodeType::Term => if at(s, pos, '<') {
            match parse_at(s, pos + 1, AstNodeType::Name) {
                Err(f) => Err(f),
                Ok((n, e)) => if at(s, e, '>') {
                    Ok((Ast::Term { name: Box::new(n) }, e + 1))
                } else {
                    Err((AstNodeType::Term, Expected::Close, e))
                },
            }
        } else {
            Err((AstNodeType::Term, Expected::Open, pos))
        },
        AstNodeType::Stmt => match parse_at(s, pos, AstNodeType::Expr) {
            Err(f) => Err(f),
            Ok((x, e)) => if pos <= e <= s.len() {
                match parse_at(s, e, AstNodeType::RemainStmt) {
                    Err(f) => Err(f),
                    Ok((r, e2)) => Ok(
                        (
                            Ast::Stmt {
                                expr: Box::new(x),
                                parallels: arity_after(r),
                                remain_stmt: Box::new(r),
                            },
                            e2,
                        ),
                    ),
                }
            } else {
                Err((AstNodeType::Stmt, Expected::ExprStart, e))
            },
        },
        AstNodeType::RemainStmt => if pos >= s.len() {
            Ok((Ast::RemainStmt(RemainStmt::Epsilon), pos))
        } else if at(s, pos, '|') {
            match parse_at(s, pos + 1, AstNodeType::Stmt) {
                Err(f) => Err(f),
                Ok((b, e)) => Ok((Ast::RemainStmt(RemainStmt::OrStmt { stmt: Box::new(b) }), e)),
            }
        } else {
            Err((AstNodeType::RemainStmt, Expected::Bar, pos))
        },
        AstNodeType::Expr => if at(s, pos, '<') || at(s, pos, '"') {
            match parse_at(s, pos, AstNodeType::Expr0) {
                Err(f) => Err(f),
                Ok((a, e)) => if pos < e <= s.len() {
                    match parse_at(s, e, AstNodeType::RemainExpr) {
                        Err(f) => Err(f),
                        Ok((r, e2)) => Ok(
                            (
                                Ast::Expr(
                                    Expr::Expr0Remain {
                                        expr0: Box::new(a),
                                        remain_expr: Box::new(r),
                                    },
                                ),
                                e2,
                            ),
                        ),
                    }
                } else {
                    Err((AstNodeType::Expr, Expected::ExprStart, e))
                },
            }
        } else if at(s, pos, 'E') {
            Ok((Ast::Expr(Expr::LetterE), pos + 1))
        } else {
            Err((AstNodeType::Expr, Expected::ExprStart, pos))
        },
        AstNodeType::Expr0 => if at(s, pos, '<') {
            match parse_at(s, pos, AstNodeType::Term) {
                Err(f) => Err(f),
                Ok((t, e)) => Ok((Ast::Expr0(Expr0::NonTerminal { term: Box::new(t) }), e)),
            }
        } else if at(s, pos, '"') {
            match parse_at(s, pos + 1, AstNodeType::Name) {
                Err(f) => Err(f),
                Ok((n, e)) => if at(s, e, '"') {
                    Ok((Ast::Expr0(Expr0::Terminal { name: Box::new(n) }), e + 1))
                } else {
                    Err((AstNodeType::Expr0, Expected::Quote, e))
                },
            }
        } else {
            Err((AstNodeType::Expr0, Expected::AtomStart, pos))
        },
        AstNodeType::RemainExpr => if pos >= s.len() {
            Ok((Ast::RemainExpr(RemainExpr::Epsilon), pos))
        } else if at(s, pos, 'E') || at(s, pos, '<') || at(s, pos, '"') {
            match parse_at(s, pos, AstNodeType::Expr) {
                Err(f) => Err(f),
                Ok((x, e)) => Ok((Ast::RemainExpr(RemainExpr::Expr { expr: Box::new(x) }), e)),
            }
        } else if at(s, pos, '|') {
            Ok((Ast::RemainExpr(RemainExpr::Epsilon), pos))
        } else {
            Err((AstNodeType::RemainExpr, Expected::Continuation, pos))
        },
        AstNodeType::Name => if pos >= s.len() {
            Ok((Ast::Name(Name::Epsilon), pos))
        } else if pos >= 0 && is_name_char(s[pos]) {
            match parse_at(s, pos + 1, AstNodeType::Name) {
                Err(f) => Err(f),
                Ok((n, e)) => Ok((Ast::Name(Name::HeadTail { head: s[pos], tail: Box::new(n) }), e)),
            }
        } else if at(s, pos, '>') || at(s, pos, '"') {
            Ok((Ast::Name(Name::Epsilon), pos))
        } else {
            Err((AstNodeType::Name, Expected::NameChar, pos))
        },
    }
}

/// A parse never moves backwards nor past the end; a term, an atom and an
/// expression take at least one character.
pub proof fn lemma_parse_bounds(s: Seq<char>, pos: int, st: AstNodeType)
    requires
        0 <= pos <= s.len(),
    ensures
        parse_at(s, pos, st) matches Ok((_, e)) ==> pos <= e <= s.len(),
        parse_at(s, pos, st) matches Ok((_, e)) ==> (st == AstNodeType::Term || st
            == AstNodeType::Expr0 || st == AstNodeType::Expr ==> pos < e),
        parse_at(s, pos, st) matches Err((_, _, e)) ==> pos <= e <= s.len(),
    decreases (s.len() - pos) as nat, rank(st),
{
    match st {
        AstNodeType::Bnf => {
            lemma_parse_bounds(s, pos, AstNodeType::Term);
            if let Ok((t, e)) = parse_at(s, pos, AstNodeType::Term) {
                if pos <= e && at(s, e, ':') && at(s, e + 1, ':') && at(s, e + 2, '=') {
                    lemma_parse_bounds(s, e + 3, AstNodeType::Stmt);
                }
            }
        },
        AstNodeType::Term => {
            if at(s, pos, '<') {
                lemma_parse_bounds(s, pos + 1, AstNodeType::Name);
            }
        },
        AstNodeType::Stmt => {
            lemma_parse_bounds(s, pos, AstNodeType::Expr);
            if let Ok((x, e)) = parse_at(s, pos, AstNodeType::Expr) {
                lemma_parse_bounds(s, e, AstNodeType::RemainStmt);
            }
        },
        AstNodeType::RemainStmt => {
            if pos < s.len() && at(s, pos, '|') {
                lemma_parse_bounds(s, pos + 1, AstNodeType::Stmt);
            }
        },
        AstNodeType::Expr => {
            if at(s, pos, '<') || at(s, pos, '"') {
                lemma_parse_bounds(s, pos, AstNodeType::Expr0);
                if let Ok((a, e)) = parse_at(s, pos, AstNodeType::Expr0) {
                    lemma_parse_bounds(s, e, AstNodeType::RemainExpr);
                }
            }
        },
        AstNodeType::Expr0 => {
            if at(s, pos, '<') {
                lemma_parse_bounds(s, pos, AstNodeType::Term);
            } else if at(s, pos, '"') {
                lemma_parse_bounds(s, pos + 1, AstNodeType::Name);
            }
        },
        AstNodeType::RemainExpr => {
            if pos < s.len() && (at(s, pos, 'E') || at(s, pos, '<') || at(s, pos, '"')) {
                lemma_parse_bounds(s, pos, AstNodeType::Expr);
            }
        },
        AstNodeType::Name => {
            if pos < s.len() && is_name_char(s[pos]) {
                lemma_parse_bounds(s, pos + 1, AstNodeType::Name);
            }
        },
    }
}

/// The parse outcome with positions as integers.
pub open spec fn outcome(r: Result<(Ast, usize), (AstNodeType, Expected, usize)>) -> Parsed {
    match r {
        Ok((t, e)) => Ok((t, e as int)),
        Err((p, x, e)) => Err((p, x, e as int)),
    }
}

fn char_at(s: &Vec<char>, i: usize, c: char) -> (r: bool)
    ensures
        r == at(s@, i as int, c),
{
    i < s.len() && s[i] == c
}

fn name_char(c: char) -> (r: bool)
    ensures
        r == is_name_char(c),
{
    ('a' <= c && c <= 'z') || ('A' <= c && c <= 'Z') || ('0' <= c && c <= '9') || c == ' '
        || c == '+' || c == '-' || c == '*' || c == '/'
}

/// Reads production `st` from position `pos` of `s`.
fn parse_from(s: &Vec<char>, pos: usize, st: AstNodeType) -> (res: Result<
    (Ast, usize),
    (AstNodeType, Expected, usize),
>)
    requires
        pos <= s.len(),
    ensures
        outcome(res) == parse_at(s@, pos as int, st),
    decreases s.len() - pos, rank(st),
{
    proof {
        lemma_parse_bounds(s@, pos as int, st);
    }
    match st {
        AstNodeType::Bnf => match parse_from(s, pos, AstNodeType::Term) {
            Err(f) => Err(f),
            Ok((t, e)) => {
                proof {
                    lemma_parse_bounds(s@, pos as int, AstNodeType::Term);
                }
                if char_at(s, e, ':') && char_at(s, e + 1, ':') && char_at(s, e + 2, '=') {
                    match parse_from(s, e + 3, AstNodeType::Stmt) {
                        Err(f) => Err(f),
                        Ok((b, e2)) => Ok(
                            (Ast::Bnf(Bnf { term: Box::new(t), stmt: Box::new(b) }), e2),
                        ),
                    }
                } else {
                    Err((AstNodeType::Bnf, Expected::Define, e))
                }
            },
        },
        AstNodeType::Term => if char_at(s, pos, '<') {
            match parse_from(s, pos + 1, AstNodeType::Name) {
                Err(f) => Err(f),
                Ok((n, e)) => {
                    proof {
                        lemma_parse_bounds(s@, pos + 1, AstNodeType::Name);
                    }
                    if char_at(s, e, '>') {
                        Ok((Ast::Term { name: Box::new(n) }, e + 1))
                    } else {
                        Err((AstNodeType::Term, Expected::Close, e))
                    }
                },
            }
        } else {
            Err((AstNodeType::Term, Expected::Open, pos))
        },
        AstNodeType::Stmt => match parse_from(s, pos, AstNodeType::Expr) {
            Err(f) => Err(f),
            Ok((x, e)) => {
                proof {
                    lemma_parse_bounds(s@, pos as int, AstNodeType::Expr);
                }
                match parse_from(s, e, AstNodeType::RemainStmt) {
                    Err(f) => Err(f),
                    Ok((r, e2)) => {
                        let parallels = remain_arity(&r, s, e);
                        Ok(
                            (
                                Ast::Stmt {
                                    expr: Box::new(x),
                                    remain_stmt: Box::new(r),
                                    parallels,
                                },
                                e2,
                            ),
                        )
                    },
                }
            },
        },
        AstNodeType::RemainStmt => if pos >= s.len() {
            Ok((Ast::RemainStmt(RemainStmt::Epsilon), pos))
        } else if char_at(s, pos, '|') {
            match parse_from(s, pos + 1, AstNodeType::Stmt) {
                Err(f) => Err(f),
                Ok((b, e)) => Ok((Ast::RemainStmt(RemainStmt::OrStmt { stmt: Box::new(b) }), e)),
            }
        } else {
            Err((AstNodeType::RemainStmt, Expected::Bar, pos))
        },
        AstNodeType::Expr => if char_at(s, pos, '<') || char_at(s, pos, '"') {
            match parse_from(s, pos, AstNodeType::Expr0) {
                Err(f) => Err(f),
                Ok((a, e)) => {
                    proof {
                        lemma_parse_bounds(s@, pos as int, AstNodeType::Expr0);
                    }
                    match parse_from(s, e, AstNodeType::RemainExpr) {
                        Err(f) => Err(f),
                        Ok((r, e2)) => Ok(
                            (
                                Ast::Expr(
                                    Expr::Expr0Remain {
                                        expr0: Box::new(a),
                                        remain_expr: Box::new(r),
                                    },
                                ),
                                e2,
                            ),
                        ),
                    }
                },
            }
        } else if char_at(s, pos, 'E') {
            Ok((Ast::Expr(Expr::LetterE), pos + 1))
        } else {
            Err((AstNodeType::Expr, Expected::ExprStart, pos))
        },
        AstNodeType::Expr0 => if char_at(s, pos, '<') {
            match parse_from(s, pos, AstNodeType::Term) {
                Err(f) => Err(f),
                Ok((t, e)) => Ok((Ast::Expr0(Expr0::NonTerminal { term: Box::new(t) }), e)),
            }
        } else if char_at(s, pos, '"') {
            match parse_from(s, pos + 1, AstNodeType::Name) {
                Err(f) => Err(f),
                Ok((n, e)) => {
                    proof {
                        lemma_parse_bounds(s@, pos + 1, AstNodeType::Name);
                    }
                    if char_at(s, e, '"') {
                        Ok((Ast::Expr0(Expr0::Terminal { name: Box::new(n) }), e + 1))
                    } else {
                        Err((AstNodeType::Expr0, Expected::Quote, e))
                    }
                },
            }
        } else {
            Err((AstNodeType::Expr0, Expected::AtomStart, pos))
        },
        AstNodeType::RemainExpr => if pos >= s.len() {
            Ok((Ast::RemainExpr(RemainExpr::Epsilon), pos))
        } else if char_at(s, pos, 'E') || char_at(s, pos, '<') || char_at(s, pos, '"') {
            match parse_from(s, pos, AstNodeType::Expr) {
                Err(f) => Err(f),
                Ok((x, e)) => Ok((Ast::RemainExpr(RemainExpr::Expr { expr: Box::new(x) }), e)),
            }
        } else if char_at(s, pos, '|') {
            Ok((Ast::RemainExpr(RemainExpr::Epsilon), pos))
        } else {
            Err((AstNodeType::RemainExpr, Expected::Continuation, pos))
        },
        AstNodeType::Name => if pos >= s.len() {
            Ok((Ast::Name(Name::Epsilon), pos))
        } else if name_char(s[pos]) {
            let head = s[pos];
            match parse_from(s, pos + 1, AstNodeType::Name) {
                Err(f) => Err(f),
                Ok((n, e)) => Ok((Ast::Name(Name::HeadTail { head, tail: Box::new(n) }), e)),
            }
        } else if char_at(s, pos, '>') || char_at(s, pos, '"') {
            Ok((Ast::Name(Name::Epsilon), pos))
        } else {
            Err((AstNodeType::Name, Expected::NameChar, pos))
        },
    }
}

/// The arity of a statement whose remainder `r` was read from position `pos`.
fn remain_arity(r: &Ast, s: &Vec<char>, pos: usize) -> (n: usize)
    requires
        pos <= s.len(),
        parse_at(s@, pos as int, AstNodeType::RemainStmt) matches Ok((t, _)) && t == *r,
    ensures
        n == arity_after(*r),
{
    match r {
        Ast::RemainStmt(RemainStmt::Epsilon) => 1,
        Ast::RemainStmt(RemainStmt::OrStmt { stmt }) => match &**stmt {
            Ast::Stmt { parallels, .. } => {
                proof {
                    lemma_arity_below(s@, pos as int);
                }
                *parallels + 1
            },
            _ => 0,
        },
        _ => 0,
    }
}

/// A statement read from `pos` to `e` has between one and `e - pos` alternatives.
pub proof fn lemma_stmt_arity(s: Seq<char>, pos: int)
    requires
        0 <= pos <= s.len(),
        s.len() <= usize::MAX,
    ensures
        parse_at(s, pos, AstNodeType::Stmt) matches Ok((t, e)) ==> (t matches Ast::Stmt {
            parallels,
            ..
        } && 1 <= parallels <= e - pos),
    decreases s.len() - pos,
{
    lemma_parse_bounds(s, pos, AstNodeType::Expr);
    if let Ok((x, e1)) = parse_at(s, pos, AstNodeType::Expr) {
        lemma_parse_bounds(s, e1, AstNodeType::RemainStmt);
        if e1 < s.len() && at(s, e1, '|') {
            lemma_stmt_arity(s, e1 + 1);
        }
    }
}

proof fn lemma_arity_below(s: Seq<char>, pos: int)
    requires
        0 <= pos <= s.len(),
        s.len() <= usize::MAX,
    ensures
        parse_at(s, pos, AstNodeType::RemainStmt) matches Ok((t, _)) ==> (t matches Ast::RemainStmt(
            RemainStmt::OrStmt { stmt },
        ) ==> (*stmt matches Ast::Stmt { parallels, .. } && parallels < usize::MAX)),
{
    if pos < s.len() && at(s, pos, '|') {
        lemma_stmt_arity(s, pos + 1);
        lemma_parse_bounds(s, pos + 1, AstNodeType::Stmt);
    }
}

/// The characters of `text`, in order.
pub(crate) fn chars_of(text: &str) -> (v: Vec<char>)
    ensures
        v@ == text@,
{
    let mut v: Vec<char> = Vec::new();
    for c in it: text.chars()
        invariant
            v@ == it.seq().take(it.index() as int),
            it.seq() == text@,
    {
        v.push(c);
    }
    v
}

/// A parse of production `st` at the start of `s`, as the public API reports it.
pub open spec fn parse_result_spec(s: Seq<char>, st: AstNodeType, res: Result<ParseResult, ParseError>) -> bool {
    match parse_at(s, 0, st) {
        Ok((t, e)) => res matches Ok(p) && p.r == t && p.matched@ == s.subrange(0, e)
            && p.remain@ == s.subrange(e, s.len() as int),
        Err((prod, x, e)) => res matches Err(f) && f.production == prod && f.expected == x
            && f.found@ == s.subrange(e, s.len() as int),
    }
}

/// Reads production `st` from the start of `bnfstr`: the tree, the text it
/// matched and the rest, or where and why it failed.
pub fn parse_bnf(bnfstr: &str, st: AstNodeType) -> (res: Result<ParseResult, ParseError>)
    ensures
        parse_result_spec(bnfstr@, st, res),
{
    let s = chars_of(bnfstr);
    let n = bnfstr.unicode_len();
    match parse_from(&s, 0, st) {
        Ok((r, e)) => {
            proof {
                lemma_parse_bounds(s@, 0, st);
            }
            let matched = String::from_str(bnfstr.substring_char(0, e));
            let remain = String::from_str(bnfstr.substring_char(e, n));
            Ok(ParseResult { r, matched, remain })
        },
        Err((production, expected, e)) => {
            proof {
                lemma_parse_bounds(s@, 0, st);
            }
            let found = String::from_str(bnfstr.substring_char(e, n));
            Err(ParseError { production, expected, found })
        },
    }
}

/// Reads one whole rule `<name>::=...`.
pub fn parse(b: &str) -> (res: Result<Ast, ParseError>)
    ensures
        match parse_at(b@, 0, AstNodeType::Bnf) {
            Ok((t, _)) => res == Ok::<Ast, ParseError>(t),
            Err((prod, x, e)) => res matches Err(f) && f.production == prod && f.expected == x
                && f.found@ == b@.subrange(e, b@.len() as int),
        },
{
    match parse_bnf(b, AstNodeType::Bnf) {
        Ok(p) => Ok(p.r),
        Err(f) => Err(f),
    }
}

impl ParseResult {
    /// Number of characters matched.
    pub fn len(&self) -> (n: usize)
        ensures
            n == self.matched@.len(),
    {
        self.matched.as_str().unicode_len()
    }
}

/// The canonical text of a parsed tree is exactly the text it was read from.
pub proof fn lemma_parse_text(s: Seq<char>, pos: int, st: AstNodeType)
    requires
        0 <= pos <= s.len(),
    ensures
        parse_at(s, pos, st) matches Ok((t, e)) ==> rule_text(t) == s.subrange(pos, e),
    decreases (s.len() - pos) as nat, rank(st),
{
    lemma_parse_bounds(s, pos, st);
    match st {
        AstNodeType::Bnf => {
            lemma_parse_text(s, pos, AstNodeType::Term);
            lemma_parse_bounds(s, pos, AstNodeType::Term);
            if let Ok((t, e)) = parse_at(s, pos, AstNodeType::Term) {
                if pos <= e && at(s, e, ':') && at(s, e + 1, ':') && at(s, e + 2, '=') {
                    lemma_parse_text(s, e + 3, AstNodeType::Stmt);
                    lemma_parse_bounds(s, e + 3, AstNodeType::Stmt);
                    if let Ok((b, e2)) = parse_at(s, e + 3, AstNodeType::Stmt) {
                        assert(s.subrange(pos, e2) =~= s.subrange(pos, e) + seq![':', ':', '=']
                            + s.subrange(e + 3, e2));
                    }
                }
            }
        },
        AstNodeType::Term => {
            if at(s, pos, '<') {
                lemma_parse_text(s, pos + 1, AstNodeType::Name);
                lemma_parse_bounds(s, pos + 1, AstNodeType::Name);
                if let Ok((n, e)) = parse_at(s, pos + 1, AstNodeType::Name) {
                    if at(s, e, '>') {
                        assert(s.subrange(pos, e + 1) =~= seq!['<'] + s.subrange(pos + 1, e)
                            + seq!['>']);
                    }
                }
            }
        },
        AstNodeType::Stmt => {
            lemma_parse_text(s, pos, AstNodeType::Expr);
            lemma_parse_bounds(s, pos, AstNodeType::Expr);
            if let Ok((x, e)) = parse_at(s, pos, AstNodeType::Expr) {
                lemma_parse_text(s, e, AstNodeType::RemainStmt);
                lemma_parse_bounds(s, e, AstNodeType::RemainStmt);
                if let Ok((r, e2)) = parse_at(s, e, AstNodeType::RemainStmt) {
                    assert(s.subrange(pos, e2) =~= s.subrange(pos, e) + s.subrange(e, e2));
                }
            }
        },
        AstNodeType::RemainStmt => {
            if pos >= s.len() {
                assert(s.subrange(pos, pos) =~= Seq::<char>::empty());
            } else if at(s, pos, '|') {
                lemma_parse_text(s, pos + 1, AstNodeType::Stmt);
                lemma_parse_bounds(s, pos + 1, AstNodeType::Stmt);
                if let Ok((b, e)) = parse_at(s, pos + 1, AstNodeType::Stmt) {
                    assert(s.subrange(pos, e) =~= seq!['|'] + s.subrange(pos + 1, e));
                }
            }
        },
        AstNodeType::Expr => {
            if at(s, pos, '<') || at(s, pos, '"') {
                lemma_parse_text(s, pos, AstNodeType::Expr0);
                lemma_parse_bounds(s, pos, AstNodeType::Expr0);
                if let Ok((a, e)) = parse_at(s, pos, AstNodeType::Expr0) {
                    lemma_parse_text(s, e, AstNodeType::RemainExpr);
                    lemma_parse_bounds(s, e, AstNodeType::RemainExpr);
                    if let Ok((r, e2)) = parse_at(s, e, AstNodeType::RemainExpr) {
                        assert(s.subrange(pos, e2) =~= s.subrange(pos, e) + s.subrange(e, e2));
                    }
                }
            } else if at(s, pos, 'E') {
                assert(s.subrange(pos, pos + 1) =~= seq!['E']);
            }
        },
        AstNodeType::Expr0 => {
            if at(s, pos, '<') {
                lemma_parse_text(s, pos, AstNodeType::Term);
            } else if at(s, pos, '"') {
                lemma_parse_text(s, pos + 1, AstNodeType::Name);
                lemma_parse_bounds(s, pos + 1, AstNodeType::Name);
                if let Ok((n, e)) = parse_at(s, pos + 1, AstNodeType::Name) {
                    if at(s, e, '"') {
                        assert(s.subrange(pos, e + 1) =~= seq!['"'] + s.subrange(pos + 1, e)
                            + seq!['"']);
                    }
                }
            }
        },
        AstNodeType::RemainExpr => {
            if pos >= s.len() {
                assert(s.subrange(pos, pos) =~= Seq::<char>::empty());
            } else if at(s, pos, 'E') || at(s, pos, '<') || at(s, pos, '"') {
                lemma_parse_text(s, pos, AstNodeType::Expr);
            } else if at(s, pos, '|') {
                assert(s.subrange(pos, pos) =~= Seq::<char>::empty());
            }
        },
        AstNodeType::Name => {
            if pos >= s.len() {
                assert(s.subrange(pos, pos) =~= Seq::<char>::empty());
            } else if is_name_char(s[pos]) {
                lemma_parse_text(s, pos + 1, AstNodeType::Name);
                lemma_parse_bounds(s, pos + 1, AstNodeType::Name);
                if let Ok((n, e)) = parse_at(s, pos + 1, AstNodeType::Name) {
                    assert(s.subrange(pos, e) =~= seq![s[pos]] + s.subrange(pos + 1, e));
                }
            } else if at(s, pos, '>') || at(s, pos, '"') {
                assert(s.subrange(pos, pos) =~= Seq::<char>::empty());
            }
        },
    }
}

/// A statement, once read, runs to the end of the text: a rule never
/// leaves trailing input.
pub proof fn lemma_stmt_to_end(s: Seq<char>, pos: int)
    requires
        0 <= pos <= s.len(),
    ensures
        parse_at(s, pos, AstNodeType::Stmt) matches Ok((_, e)) ==> e == s.len(),
        parse_at(s, pos, AstNodeType::Bnf) matches Ok((_, e)) ==> e == s.len(),
    decreases s.len() - pos,
{
    lemma_parse_bounds(s, pos, AstNodeType::Expr);
    if let Ok((x, e1)) = parse_at(s, pos, AstNodeType::Expr) {
        if e1 < s.len() && at(s, e1, '|') {
            lemma_stmt_to_end(s, e1 + 1);
        }
        lemma_parse_bounds(s, e1, AstNodeType::RemainStmt);
        if let Ok((r, e2)) = parse_at(s, e1, AstNodeType::RemainStmt) {
            assert(parse_at(s, pos, AstNodeType::Stmt) matches Ok((_, e)) && e == e2);
            assert(e2 == s.len());
        }
    }
    lemma_parse_bounds(s, pos, AstNodeType::Term);
    if let Ok((t, e)) = parse_at(s, pos, AstNodeType::Term) {
        if pos <= e && at(s, e, ':') && at(s, e + 1, ':') && at(s, e + 2, '=') {
            lemma_stmt_to_end(s, e + 3);
        }
    }
}

/// Round trip: a rule read from `s` is written back canonically as `s`
/// itself, and reading that text again gives the same rule.
pub proof fn lemma_round_trip(s: Seq<char>)
    ensures
        parse_at(s, 0, AstNodeType::Bnf) matches Ok((t, _)) ==> rule_text(t) == s && parse_at(
            rule_text(t),
            0,
            AstNodeType::Bnf,
        ) == parse_at(s, 0, AstNodeType::Bnf),
{
    lemma_parse_text(s, 0, AstNodeType::Bnf);
    lemma_stmt_to_end(s, 0);
    assert(s.subrange(0, s.len() as int) =~= s);
}

/// Arity: in every tree the parser builds, each statement counts one
/// alternative more than the statement after its `|`, or one if there is none.
pub proof fn lemma_parse_arity(s: Seq<char>, pos: int, st: AstNodeType)
    requires
        0 <= pos <= s.len(),
        s.len() <= usize::MAX,
    ensures
        parse_at(s, pos, st) matches Ok((t, _)) ==> arity_consistent(t),
    decreases (s.len() - pos) as nat, rank(st),
{
    match st {
        AstNodeType::Bnf => {
            lemma_parse_arity(s, pos, AstNodeType::Term);
            lemma_parse_bounds(s, pos, AstNodeType::Term);
            if let Ok((t, e)) = parse_at(s, pos, AstNodeType::Term) {
                if pos <= e && at(s, e, ':') && at(s, e + 1, ':') && at(s, e + 2, '=') {
                    lemma_parse_arity(s, e + 3, AstNodeType::Stmt);
                }
            }
        },
        AstNodeType::Term => {
            if at(s, pos, '<') {
                lemma_parse_arity(s, pos + 1, AstNodeType::Name);
            }
        },
        AstNodeType::Stmt => {
            lemma_parse_arity(s, pos, AstNodeType::Expr);
            lemma_parse_bounds(s, pos, AstNodeType::Expr);
            if let Ok((x, e)) = parse_at(s, pos, AstNodeType::Expr) {
                lemma_parse_arity(s, e, AstNodeType::RemainStmt);
                lemma_arity_below(s, e);
            }
        },
        AstNodeType::RemainStmt => {
            if pos < s.len() && at(s, pos, '|') {
                lemma_parse_arity(s, pos + 1, AstNodeType::Stmt);
            }
        },
        AstNodeType::Expr => {
            if at(s, pos, '<') || at(s, pos, '"') {
                lemma_parse_arity(s, pos, AstNodeType::Expr0);
                lemma_parse_bounds(s, pos, AstNodeType::Expr0);
                if let Ok((a, e)) = parse_at(s, pos, AstNodeType::Expr0) {
                    lemma_parse_arity(s, e, AstNodeType::RemainExpr);
                }
            }
        },
        AstNodeType::Expr0 => {
            if at(s, pos, '<') {
                lemma_parse_arity(s, pos, AstNodeType::Term);
            } else if at(s, pos, '"') {
                lemma_parse_arity(s, pos + 1, AstNodeType::Name);
            }
        },
        AstNodeType::RemainExpr => {
            if pos < s.len() && (at(s, pos, 'E') || at(s, pos, '<') || at(s, pos, '"')) {
                lemma_parse_arity(s, pos, AstNodeType::Expr);
            }
        },
        AstNodeType::Name => {
            if pos < s.len() && is_name_char(s[pos]) {
                lemma_parse_arity(s, pos + 1, AstNodeType::Name);
            }
        },
    }
}

/// The trees the parser builds for production `st`: each node of the kind
/// the grammar puts there, names of name characters only, and each
/// statement's arity counted from the statement after its `|`.
pub open spec fn wf_node(a: Ast, st: AstNodeType) -> bool
    decreases a,
{
    match st {
        AstNodeType::Bnf => match a {
            Ast::Bnf(b) => wf_node(*b.term, AstNodeType::Term) && wf_node(*b.stmt, AstNodeType::Stmt),
            _ => false,
        },
        AstNodeType::Term => match a {
            Ast::Term { name } => wf_node(*name, AstNodeType::Name),
            _ => false,
        },
        AstNodeType::Stmt => match a {
            Ast::Stmt { expr, remain_stmt, parallels } => wf_node(*expr, AstNodeType::Expr)
                && wf_node(*remain_stmt, AstNodeType::RemainStmt) && parallels == arity_after(
                *remain_stmt,
            ),
            _ => false,
        },
        AstNodeType::RemainStmt => match a {
            Ast::RemainStmt(RemainStmt::Epsilon) => true,
            Ast::RemainStmt(RemainStmt::OrStmt { stmt }) => wf_node(*stmt, AstNodeType::Stmt),
            _ => false,
        },
        AstNodeType::Expr => match a {
            Ast::Expr(Expr::LetterE) => true,
            Ast::Expr(Expr::Expr0Remain { expr0, remain_expr }) => wf_node(*expr0, AstNodeType::Expr0)
                && wf_node(*remain_expr, AstNodeType::RemainExpr),
            _ => false,
        },
        AstNodeType::Expr0 => match a {
            Ast::Expr0(Expr0::NonTerminal { term }) => wf_node(*term, AstNodeType::Term),
            Ast::Expr0(Expr0::Terminal { name }) => wf_node(*name, AstNodeType::Name),
            _ => false,
        },
        AstNodeType::RemainExpr => match a {
            Ast::RemainExpr(RemainExpr::Epsilon) => true,
            Ast::RemainExpr(RemainExpr::Expr { expr }) => wf_node(*expr, AstNodeType::Expr),
            _ => false,
        },
        AstNodeType::Name => match a {
            Ast::Name(Name::Epsilon) => true,
            Ast::Name(Name::HeadTail { head, tail }) => is_name_char(head) && wf_node(
                *tail,
                AstNodeType::Name,
            ),
            _ => false,
        },
    }
}

/// Every character the tree holds in a name is a name character.
pub open spec fn heads_ok(a: Ast) -> bool
    decreases a,
{
    match a {
        Ast::Bnf(b) => heads_ok(*b.term) && heads_ok(*b.stmt),
        Ast::Term { name } => heads_ok(*name),
        Ast::Stmt { expr, remain_stmt, .. } => heads_ok(*expr) && heads_ok(*remain_stmt),
        Ast::RemainStmt(RemainStmt::OrStmt { stmt }) => heads_ok(*stmt),
        Ast::Expr(Expr::Expr0Remain { expr0, remain_expr }) => heads_ok(*expr0) && heads_ok(
            *remain_expr,
        ),
        Ast::Expr0(Expr0::NonTerminal { term }) => heads_ok(*term),
        Ast::Expr0(Expr0::Terminal { name }) => heads_ok(*name),
        Ast::RemainExpr(RemainExpr::Expr { expr }) => heads_ok(*expr),
        Ast::Name(Name::HeadTail { head, tail }) => is_name_char(head) && heads_ok(*tail),
        _ => true,
    }
}

pub proof fn lemma_wf_heads(a: Ast, st: AstNodeType)
    requires
        wf_node(a, st),
    ensures
        heads_ok(a),
    decreases a,
{
    match a {
        Ast::Bnf(b) => {
            lemma_wf_heads(*b.term, AstNodeType::Term);
            lemma_wf_heads(*b.stmt, AstNodeType::Stmt);
        },
        Ast::Term { name } => lemma_wf_heads(*name, AstNodeType::Name),
        Ast::Stmt { expr, remain_stmt, .. } => {
            lemma_wf_heads(*expr, AstNodeType::Expr);
            lemma_wf_heads(*remain_stmt, AstNodeType::RemainStmt);
        },
        Ast::RemainStmt(RemainStmt::OrStmt { stmt }) => lemma_wf_heads(*stmt, AstNodeType::Stmt),
        Ast::Expr(Expr::Expr0Remain { expr0, remain_expr }) => {
            lemma_wf_heads(*expr0, AstNodeType::Expr0);
            lemma_wf_heads(*remain_expr, AstNodeType::RemainExpr);
        },
        Ast::Expr0(Expr0::NonTerminal { term }) => lemma_wf_heads(*term, AstNodeType::Term),
        Ast::Expr0(Expr0::Terminal { name }) => lemma_wf_heads(*name, AstNodeType::Name),
        Ast::RemainExpr(RemainExpr::Expr { expr }) => lemma_wf_heads(*expr, AstNodeType::Expr),
        Ast::Name(Name::HeadTail { tail, .. }) => lemma_wf_heads(*tail, AstNodeType::Name),
        _ => {},
    }
}

/// Every tree the parser builds for production `st` is well formed for it.
pub proof fn lemma_parse_wf(s: Seq<char>, pos: int, st: AstNodeType)
    requires
        0 <= pos <= s.len(),
    ensures
        parse_at(s, pos, st) matches Ok((t, _)) ==> wf_node(t, st),
    decreases (s.len() - pos) as nat, rank(st),
{
    match st {
        AstNodeType::Bnf => {
            lemma_parse_wf(s, pos, AstNodeType::Term);
            lemma_parse_bounds(s, pos, AstNodeType::Term);
            if let Ok((t, e)) = parse_at(s, pos, AstNodeType::Term) {
                if pos <= e && at(s, e, ':') && at(s, e + 1, ':') && at(s, e + 2, '=') {
                    lemma_parse_wf(s, e + 3, AstNodeType::Stmt);
                }
            }
        },
        AstNodeType::Term => {
            if at(s, pos, '<') {
                lemma_parse_wf(s, pos + 1, AstNodeType::Name);
            }
        },
        AstNodeType::Stmt => {
            lemma_parse_wf(s, pos, AstNodeType::Expr);
            lemma_parse_bounds(s, pos, AstNodeType::Expr);
            if let Ok((x, e)) = parse_at(s, pos, AstNodeType::Expr) {
                lemma_parse_wf(s, e, AstNodeType::RemainStmt);
            }
        },
        AstNodeType::RemainStmt => {
            if pos < s.len() && at(s, pos, '|') {
                lemma_parse_wf(s, pos + 1, AstNodeType::Stmt);
            }
        },
        AstNodeType::Expr => {
            if at(s, pos, '<') || at(s, pos, '"') {
                lemma_parse_wf(s, pos, AstNodeType::Expr0);
                lemma_parse_bounds(s, pos, AstNodeType::Expr0);
                if let Ok((a, e)) = parse_at(s, pos, AstNodeType::Expr0) {
                    lemma_parse_wf(s, e, AstNodeType::RemainExpr);
                }
            }
        },
        AstNodeType::Expr0 => {
            if at(s, pos, '<') {
                lemma_parse_wf(s, pos, AstNodeType::Term);
            } else if at(s, pos, '"') {
                lemma_parse_wf(s, pos + 1, AstNodeType::Name);
            }
        },
        AstNodeType::RemainExpr => {
            if pos < s.len() && (at(s, pos, 'E') || at(s, pos, '<') || at(s, pos, '"')) {
                lemma_parse_wf(s, pos, AstNodeType::Expr);
            }
        },
        AstNodeType::Name => {
            if pos < s.len() && is_name_char(s[pos]) {
                lemma_parse_wf(s, pos + 1, AstNodeType::Name);
            }
        },
    }
}

/// What may stand right after the text of production `st` for the parser
/// to stop there.
pub open spec fn follow_ok(s: Seq<char>, e: int, st: AstNodeType) -> bool {
    match st {
        AstNodeType::Name => e >= s.len() || s[e] == '>' || s[e] == '"',
        AstNodeType::Expr | AstNodeType::RemainExpr => e >= s.len() || s[e] == '|',
        AstNodeType::Stmt | AstNodeType::RemainStmt | AstNodeType::Bnf => e == s.len(),
        AstNodeType::Term | AstNodeType::Expr0 => true,
    }
}

proof fn lemma_split(s: Seq<char>, pos: int, a: Seq<char>, b: Seq<char>)
    requires
        0 <= pos,
        pos + a.len() + b.len() <= s.len(),
        s.subrange(pos, pos + a.len() + b.len()) == a + b,
    ensures
        s.subrange(pos, pos + a.len()) == a,
        s.subrange(pos + a.len(), pos + a.len() + b.len()) == b,
{
    assert(s.subrange(pos, pos + a.len()) =~= a) by {
        assert forall|i: int| 0 <= i < a.len() implies s.subrange(pos, pos + a.len())[i] == a[i] by {
            assert(s.subrange(pos, pos + a.len() + b.len())[i] == (a + b)[i]);
        }
    }
    assert(s.subrange(pos + a.len(), pos + a.len() + b.len()) =~= b) by {
        assert forall|i: int| 0 <= i < b.len() implies s.subrange(
            pos + a.len(),
            pos + a.len() + b.len(),
        )[i] == b[i] by {
            let k = a.len() + i;
            assert(s.subrange(pos + a.len(), pos + a.len() + b.len())[i] == s[pos + k]);
            assert(s.subrange(pos, pos + a.len() + b.len())[k] == s[pos + k]);
            assert((a + b)[k] == b[i]);
        }
    }
}

/// The canonical text of a well-formed tree of production `st`, found at
/// `pos` and followed by what may follow that production, reads back as
/// the same tree.
pub proof fn lemma_parse_canonical(t: Ast, st: AstNodeType, s: Seq<char>, pos: int)
    requires
        wf_node(t, st),
        0 <= pos,
        pos + rule_text(t).len() <= s.len(),
        s.subrange(pos, pos + rule_text(t).len()) == rule_text(t),
        follow_ok(s, pos + rule_text(t).len(), st),
    ensures
        parse_at(s, pos, st) == Ok::<(Ast, int), (AstNodeType, Expected, int)>(
            (t, pos + rule_text(t).len()),
        ),
    decreases t,
{
    let n = rule_text(t).len();
    match t {
        Ast::Bnf(b) => {
            let tt = rule_text(*b.term);
            let bt = rule_text(*b.stmt);
            lemma_split(s, pos, tt + seq![':', ':', '='], bt);
            lemma_split(s, pos, tt, seq![':', ':', '=']);
            lemma_parse_canonical(*b.term, AstNodeType::Term, s, pos);
            lemma_parse_canonical(*b.stmt, AstNodeType::Stmt, s, pos + tt.len() + 3);
            lemma_term_text(*b.term);
            assert(s.subrange(pos + tt.len(), pos + tt.len() + 3)[0] == s[pos + tt.len()]);
            assert(s.subrange(pos + tt.len(), pos + tt.len() + 3)[1] == s[pos + tt.len() + 1]);
            assert(s.subrange(pos + tt.len(), pos + tt.len() + 3)[2] == s[pos + tt.len() + 2]);
        },
        Ast::Term { name } => {
            let nt = rule_text(*name);
            lemma_split(s, pos, seq!['<'] + nt, seq!['>']);
            lemma_split(s, pos, seq!['<'], nt);
            assert(s.subrange(pos, pos + 1)[0] == s[pos]);
            assert(s.subrange(pos + 1 + nt.len(), pos + 2 + nt.len())[0] == s[pos + 1 + nt.len()]);
            lemma_parse_canonical(*name, AstNodeType::Name, s, pos + 1);
        },
        Ast::Stmt { expr, remain_stmt, .. } => {
            let xt = rule_text(*expr);
            let rt = rule_text(*remain_stmt);
            lemma_split(s, pos, xt, rt);
            lemma_remain_stmt_text(*remain_stmt);
            if rt.len() > 0 {
                assert(s.subrange(pos + xt.len(), pos + n)[0] == s[pos + xt.len()]);
            }
            lemma_parse_canonical(*expr, AstNodeType::Expr, s, pos);
            lemma_parse_canonical(*remain_stmt, AstNodeType::RemainStmt, s, pos + xt.len());
        },
        Ast::RemainStmt(RemainStmt::Epsilon) => {},
        Ast::RemainStmt(RemainStmt::OrStmt { stmt }) => {
            let st_t = rule_text(*stmt);
            lemma_split(s, pos, seq!['|'], st_t);
            assert(s.subrange(pos, pos + 1)[0] == s[pos]);
            lemma_parse_canonical(*stmt, AstNodeType::Stmt, s, pos + 1);
        },
        Ast::Expr(Expr::LetterE) => {
            assert(s.subrange(pos, pos + 1)[0] == s[pos]);
        },
        Ast::Expr(Expr::Expr0Remain { expr0, remain_expr }) => {
            let at_ = rule_text(*expr0);
            let rt = rule_text(*remain_expr);
            lemma_split(s, pos, at_, rt);
            lemma_expr0_text(*expr0);
            assert(s.subrange(pos, pos + at_.len())[0] == s[pos]);
            lemma_parse_canonical(*expr0, AstNodeType::Expr0, s, pos);
            lemma_parse_canonical(*remain_expr, AstNodeType::RemainExpr, s, pos + at_.len());
        },
        Ast::Expr0(Expr0::NonTerminal { term }) => {
            lemma_term_text(*term);
            lemma_parse_canonical(*term, AstNodeType::Term, s, pos);
        },
        Ast::Expr0(Expr0::Terminal { name }) => {
            let nt = rule_text(*name);
            lemma_split(s, pos, seq!['"'] + nt, seq!['"']);
            lemma_split(s, pos, seq!['"'], nt);
            assert(s.subrange(pos, pos + 1)[0] == s[pos]);
            assert(s.subrange(pos + 1 + nt.len(), pos + 2 + nt.len())[0] == s[pos + 1 + nt.len()]);
            lemma_parse_canonical(*name, AstNodeType::Name, s, pos + 1);
        },
        Ast::RemainExpr(RemainExpr::Epsilon) => {},
        Ast::RemainExpr(RemainExpr::Expr { expr }) => {
            lemma_expr_text(*expr);
            lemma_parse_canonical(*expr, AstNodeType::Expr, s, pos);
        },
        Ast::Name(Name::Epsilon) => {},
        Ast::Name(Name::HeadTail { head, tail }) => {
            let tt = rule_text(*tail);
            lemma_split(s, pos, seq![head], tt);
            assert(s.subrange(pos, pos + 1)[0] == s[pos]);
            lemma_parse_canonical(*tail, AstNodeType::Name, s, pos + 1);
        },
        Ast::Epsilon => {},
    }
}

proof fn lemma_term_text(t: Ast)
    requires
        wf_node(t, AstNodeType::Term),
    ensures
        rule_text(t).len() >= 2,
        rule_text(t)[0] == '<',
{
}

proof fn lemma_expr0_text(t: Ast)
    requires
        wf_node(t, AstNodeType::Expr0),
    ensures
        rule_text(t).len() >= 2,
        rule_text(t)[0] == '<' || rule_text(t)[0] == '"',
{
    if let Ast::Expr0(Expr0::NonTerminal { term }) = t {
        lemma_term_text(*term);
    }
}

proof fn lemma_expr_text(t: Ast)
    requires
        wf_node(t, AstNodeType::Expr),
    ensures
        rule_text(t).len() >= 1,
        rule_text(t)[0] == 'E' || rule_text(t)[0] == '<' || rule_text(t)[0] == '"',
{
    if let Ast::Expr(Expr::Expr0Remain { expr0, remain_expr }) = t {
        lemma_expr0_text(*expr0);
    }
}

proof fn lemma_remain_stmt_text(t: Ast)
    requires
        wf_node(t, AstNodeType::RemainStmt),
    ensures
        rule_text(t).len() == 0 || rule_text(t)[0] == '|',
{
}

/// Every well-formed rule tree reads back from its canonical text.
pub proof fn lemma_canonical_reparse(t: Ast)
    requires
        wf_node(t, AstNodeType::Bnf),
    ensures
        parse_at(rule_text(t), 0, AstNodeType::Bnf) == Ok::<(Ast, int), (AstNodeType, Expected, int)>(
            (t, rule_text(t).len() as int),
        ),
{
    let s = rule_text(t);
    assert(s.subrange(0, s.len() as int) =~= s);
    lemma_parse_canonical(t, AstNodeType::Bnf, s, 0);
}

} // verus!
