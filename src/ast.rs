use vstd::prelude::*;

verus! {

/// The productions of the rule grammar; selects what `parse_bnf` reads.
#[derive(Clone, Copy, Debug, PartialEq, Eq, Structural)]
pub enum AstNodeType {
    Bnf,
    Term,
    Stmt,
    RemainStmt,
    Expr,
    Expr0,
    RemainExpr,
    Name,
}

/// A whole rule: `<term>::=<stmt>`.
#[derive(Debug)]
pub struct Bnf {
    pub term: Box<Ast>,
    pub stmt: Box<Ast>,
}

/// `<remain_stmt> ::= E | "|" <stmt>`
#[derive(Debug)]
pub enum RemainStmt {
    Epsilon,
    OrStmt { stmt: Box<Ast> },
}

/// `<expr> ::= "E" | <expr0> <remain_expr>`
#[derive(Debug)]
pub enum Expr {
    LetterE,
    Expr0Remain { expr0: Box<Ast>, remain_expr: Box<Ast> },
}

/// `<expr0> ::= "<" <name> ">" | '"' <name> '"'`
#[derive(Debug)]
pub enum Expr0 {
    NonTerminal { term: Box<Ast> },
    Terminal { name: Box<Ast> },
}

/// `<remain_expr> ::= E | <expr>`
#[derive(Debug)]
pub enum RemainExpr {
    Epsilon,
    Expr { expr: Box<Ast> },
}

/// `<name> ::= <char> <name> | E`
#[derive(Debug)]
pub enum Name {
    Epsilon,
    HeadTail { head: char, tail: Box<Ast> },
}

/// A node of a derivation tree. A statement carries `parallels`, the number
/// of alternatives it starts.
#[derive(Debug)]
pub enum Ast {
    Bnf(Bnf),
    Term { name: Box<Ast> },
    Stmt { expr: Box<Ast>, remain_stmt: Box<Ast>, parallels: usize },
    RemainStmt(RemainStmt),
    Expr(Expr),
    Expr0(Expr0),
    RemainExpr(RemainExpr),
    Name(Name),
    Epsilon,
}

/// The characters held by a name list (empty for any other node).
pub open spec fn name_text(a: Ast) -> Seq<char>
    decreases a,
{
    match a {
        Ast::Name(Name::HeadTail { head, tail }) => seq![head] + name_text(*tail),
        _ => Seq::empty(),
    }
}

/// The name that a `<...>` term refers to (empty for any other node).
pub open spec fn term_name(a: Ast) -> Seq<char> {
    match a {
        Ast::Term { name } => name_text(*name),
        _ => Seq::empty(),
    }
}

/// Canonical rule text of a tree: atoms written next to each other,
/// alternatives joined by `|`, the empty expression as `E`.
pub open spec fn rule_text(a: Ast) -> Seq<char>
    decreases a,
{
    match a {
        Ast::Bnf(b) => rule_text(*b.term) + seq![':', ':', '='] + rule_text(*b.stmt),
        Ast::Term { name } => seq!['<'] + rule_text(*name) + seq!['>'],
        Ast::Stmt { expr, remain_stmt, .. } => rule_text(*expr) + rule_text(*remain_stmt),
        Ast::RemainStmt(RemainStmt::Epsilon) => Seq::empty(),
        Ast::RemainStmt(RemainStmt::OrStmt { stmt }) => seq!['|'] + rule_text(*stmt),
        Ast::Expr(Expr::LetterE) => seq!['E'],
        Ast::Expr(Expr::Expr0Remain { expr0, remain_expr }) => rule_text(*expr0) + rule_text(
            *remain_expr,
        ),
        Ast::Expr0(Expr0::NonTerminal { term }) => rule_text(*term),
        Ast::Expr0(Expr0::Terminal { name }) => seq!['"'] + rule_text(*name) + seq!['"'],
        Ast::RemainExpr(RemainExpr::Epsilon) => Seq::empty(),
        Ast::RemainExpr(RemainExpr::Expr { expr }) => rule_text(*expr),
        Ast::Name(Name::Epsilon) => Seq::empty(),
        Ast::Name(Name::HeadTail { head, tail }) => seq![head] + rule_text(*tail),
        Ast::Epsilon => Seq::empty(),
    }
}

/// Readable text of a tree: `[BNF] <a> ::= ...`, atoms separated by a space,
/// alternatives by `| `, the empty expression left out.
pub open spec fn bnf_text(a: Ast) -> Seq<char>
    decreases a,
{
    match a {
        Ast::Bnf(b) => seq!['[', 'B', 'N', 'F', ']', ' '] + bnf_text(*b.term) + seq![
            ' ',
            ':',
            ':',
            '=',
            ' ',
        ] + bnf_text(*b.stmt),
        Ast::Term { name } => seq!['<'] + bnf_text(*name) + seq!['>'],
        Ast::Stmt { expr, remain_stmt, .. } => bnf_text(*expr) + bnf_text(*remain_stmt),
        Ast::RemainStmt(RemainStmt::Epsilon) => Seq::empty(),
        Ast::RemainStmt(RemainStmt::OrStmt { stmt }) => seq!['|', ' '] + bnf_text(*stmt),
        Ast::Expr(Expr::LetterE) => Seq::empty(),
        Ast::Expr(Expr::Expr0Remain { expr0, remain_expr }) => bnf_text(*expr0) + seq![' ']
            + bnf_text(*remain_expr),
        Ast::Expr0(Expr0::NonTerminal { term }) => bnf_text(*term),
        Ast::Expr0(Expr0::Terminal { name }) => seq!['"'] + bnf_text(*name) + seq!['"'],
        Ast::RemainExpr(RemainExpr::Epsilon) => Seq::empty(),
        Ast::RemainExpr(RemainExpr::Expr { expr }) => bnf_text(*expr),
        Ast::Name(Name::Epsilon) => Seq::empty(),
        Ast::Name(Name::HeadTail { head, tail }) => seq![head] + bnf_text(*tail),
        Ast::Epsilon => Seq::empty(),
    }
}

/// The arity of the statement that follows an alternation: 0 when there is none.
pub open spec fn next_arity(r: Ast) -> int {
    match r {
        Ast::RemainStmt(RemainStmt::OrStmt { stmt }) => match *stmt {
            Ast::Stmt { parallels, .. } => parallels as int,
            _ => 0,
        },
        _ => 0,
    }
}

/// Every statement in the tree has `parallels == 1 + next_arity(remain_stmt)`.
pub open spec fn arity_consistent(a: Ast) -> bool
    decreases a,
{
    match a {
        Ast::Bnf(b) => arity_consistent(*b.term) && arity_consistent(*b.stmt),
        Ast::Term { name } => arity_consistent(*name),
        Ast::Stmt { expr, remain_stmt, parallels } => parallels == 1 + next_arity(*remain_stmt)
            && arity_consistent(*expr) && arity_consistent(*remain_stmt),
        Ast::RemainStmt(RemainStmt::OrStmt { stmt }) => arity_consistent(*stmt),
        Ast::Expr(Expr::Expr0Remain { expr0, remain_expr }) => arity_consistent(*expr0)
            && arity_consistent(*remain_expr),
        Ast::Expr0(Expr0::NonTerminal { term }) => arity_consistent(*term),
        Ast::Expr0(Expr0::Terminal { name }) => arity_consistent(*name),
        Ast::RemainExpr(RemainExpr::Expr { expr }) => arity_consistent(*expr),
        Ast::Name(Name::HeadTail { tail, .. }) => arity_consistent(*tail),
        _ => true,
    }
}

/// Relies on `String`'s `FromIterator<char>`, which appends the characters in order.
#[verifier::external_body]
pub(crate) fn string_of(v: &Vec<char>) -> (r: String)
    ensures
        r@ == v@,
{
    v.iter().collect()
}

impl Ast {
    /// Appends the canonical rule text of this tree to `out`.
    pub fn write_rule_text(&self, out: &mut Vec<char>)
        ensures
            final(out)@ == old(out)@ + rule_text(*self),
        decreases self,
    {
        match self {
            Ast::Bnf(b) => {
                b.term.write_rule_text(out);
                out.push(':');
                out.push(':');
                out.push('=');
                b.stmt.write_rule_text(out);
            },
            Ast::Term { name } => {
                out.push('<');
                name.write_rule_text(out);
                out.push('>');
            },
            Ast::Stmt { expr, remain_stmt, .. } => {
                expr.write_rule_text(out);
                remain_stmt.write_rule_text(out);
            },
            Ast::RemainStmt(RemainStmt::Epsilon) => {},
            Ast::RemainStmt(RemainStmt::OrStmt { stmt }) => {
                out.push('|');
                stmt.write_rule_text(out);
            },
            Ast::Expr(Expr::LetterE) => {
                out.push('E');
            },
            Ast::Expr(Expr::Expr0Remain { expr0, remain_expr }) => {
                expr0.write_rule_text(out);
                remain_expr.write_rule_text(out);
            },
            Ast::Expr0(Expr0::NonTerminal { term }) => {
                term.write_rule_text(out);
            },
            Ast::Expr0(Expr0::Terminal { name }) => {
                out.push('"');
                name.write_rule_text(out);
                out.push('"');
            },
            Ast::RemainExpr(RemainExpr::Epsilon) => {},
            Ast::RemainExpr(RemainExpr::Expr { expr }) => {
                expr.write_rule_text(out);
            },
            Ast::Name(Name::Epsilon) => {},
            Ast::Name(Name::HeadTail { head, tail }) => {
                out.push(*head);
                tail.write_rule_text(out);
            },
            Ast::Epsilon => {},
        }
        assert(out@ =~= old(out)@ + rule_text(*self));
    }

    /// The canonical rule text of this tree, which reads back as the same tree.
    pub fn to_rule_text(&self) -> (r: String)
        ensures
            r@ == rule_text(*self),
    {
        let mut out: Vec<char> = Vec::new();
        self.write_rule_text(&mut out);
        assert(out@ =~= rule_text(*self));
        string_of(&out)
    }

    /// Appends the readable text of this tree to `out`.
    pub fn write_bnf(&self, out: &mut Vec<char>)
        ensures
            final(out)@ == old(out)@ + bnf_text(*self),
        decreases self,
    {
        match self {
            Ast::Bnf(b) => {
                out.push('[');
                out.push('B');
                out.push('N');
                out.push('F');
                out.push(']');
                out.push(' ');
                b.term.write_bnf(out);
                out.push(' ');
                out.push(':');
                out.push(':');
                out.push('=');
                out.push(' ');
                b.stmt.write_bnf(out);
            },
            Ast::Term { name } => {
                out.push('<');
                name.write_bnf(out);
                out.push('>');
            },
            Ast::Stmt { expr, remain_stmt, .. } => {
                expr.write_bnf(out);
                remain_stmt.write_bnf(out);
            },
            Ast::RemainStmt(RemainStmt::Epsilon) => {},
            Ast::RemainStmt(RemainStmt::OrStmt { stmt }) => {
                out.push('|');
                out.push(' ');
                stmt.write_bnf(out);
            },
            Ast::Expr(Expr::LetterE) => {},
            Ast::Expr(Expr::Expr0Remain { expr0, remain_expr }) => {
                expr0.write_bnf(out);
                out.push(' ');
                remain_expr.write_bnf(out);
            },
            Ast::Expr0(Expr0::NonTerminal { term }) => {
                term.write_bnf(out);
            },
            Ast::Expr0(Expr0::Terminal { name }) => {
                out.push('"');
                name.write_bnf(out);
                out.push('"');
            },
            Ast::RemainExpr(RemainExpr::Epsilon) => {},
            Ast::RemainExpr(RemainExpr::Expr { expr }) => {
                expr.write_bnf(out);
            },
            Ast::Name(Name::Epsilon) => {},
            Ast::Name(Name::HeadTail { head, tail }) => {
                out.push(*head);
                tail.write_bnf(out);
            },
            Ast::Epsilon => {},
        }
        assert(out@ =~= old(out)@ + bnf_text(*self));
    }

    /// Readable text of this tree: `[BNF] <a> ::= "x" <b> | ...`.
    pub fn bnf(&self) -> (r: String)
        ensures
            r@ == bnf_text(*self),
    {
        let mut out: Vec<char> = Vec::new();
        self.write_bnf(&mut out);
        assert(out@ =~= bnf_text(*self));
        string_of(&out)
    }
}

} // verus!
