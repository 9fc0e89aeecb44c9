use vstd::prelude::*;
use crate::ast::{term_name, Ast, Expr, Expr0, Name, RemainExpr, RemainStmt};
use crate::policy::{moves_on, BranchPolicy};

verus! {

/// The nodes still to expand, the last one on top, and the output so far.
pub type Walk = (Seq<Ast>, Seq<char>);

/// Expands the node `top`: the nodes it leaves to expand (pushed in this
/// order, so the last is expanded first) and the characters it writes, or
/// the name of a rule that the table lacks. `out_len` is the output length so
/// far and `draw` the random draw that an alternation uses.
pub open spec fn step(
    rules: Map<Seq<char>, Ast>,
    policy: BranchPolicy,
    top: Ast,
    out_len: nat,
    draw: u32,
) -> Result<Walk, Seq<char>> {
    match top {
        Ast::Bnf(b) => Ok((seq![*b.stmt], seq![])),
        Ast::Term { name } => Ok((seq![*name], seq![])),
        Ast::Stmt { expr, remain_stmt, parallels } => if (*remain_stmt matches Ast::RemainStmt(
            RemainStmt::OrStmt { .. },
        )) && moves_on(policy, out_len as int, parallels as int, draw as int) {
            Ok((seq![*remain_stmt], seq![]))
        } else {
            Ok((seq![*expr], seq![]))
        },
        Ast::RemainStmt(RemainStmt::Epsilon) => Ok((seq![], seq![])),
        Ast::RemainStmt(RemainStmt::OrStmt { stmt }) => Ok((seq![*stmt], seq![])),
        Ast::Expr(Expr::LetterE) => Ok((seq![], seq![])),
        Ast::Expr(Expr::Expr0Remain { expr0, remain_expr }) => Ok(
            (seq![*remain_expr, *expr0], seq![]),
        ),
        Ast::Expr0(Expr0::NonTerminal { term }) => if rules.contains_key(term_name(*term)) {
            Ok((seq![rules[term_name(*term)]], seq![]))
        } else {
            Err(term_name(*term))
        },
        Ast::Expr0(Expr0::Terminal { name }) => Ok((seq![*name], seq![])),
        Ast::RemainExpr(RemainExpr::Epsilon) => Ok((seq![], seq![])),
        Ast::RemainExpr(RemainExpr::Expr { expr }) => Ok((seq![*expr], seq![])),
        Ast::Name(Name::Epsilon) => Ok((seq![], seq![])),
        Ast::Name(Name::HeadTail { head, tail }) => Ok((seq![*tail], seq![head])),
        Ast::Epsilon => Ok((seq![], seq![])),
    }
}

/// The walk from the nodes `init` after one step per draw of `draws`; once
/// nothing is left to expand, further draws change nothing.
pub open spec fn run(
    rules: Map<Seq<char>, Ast>,
    policy: BranchPolicy,
    init: Seq<Ast>,
    draws: Seq<u32>,
) -> Result<Walk, Seq<char>>
    decreases draws.len(),
{
    if draws.len() == 0 {
        Ok((init, seq![]))
    } else {
        match run(rules, policy, init, draws.drop_last()) {
            Err(n) => Err(n),
            Ok((stack, out)) => if stack.len() == 0 {
                Ok((stack, out))
            } else {
                match step(rules, policy, stack.last(), out.len(), draws.last()) {
                    Err(n) => Err(n),
                    Ok((pushed, written)) => Ok((stack.drop_last() + pushed, out + written)),
                }
            },
        }
    }
}

/// `out` is a complete derivation of `start` under some sequence of draws.
pub open spec fn derives(
    rules: Map<Seq<char>, Ast>,
    policy: BranchPolicy,
    start: Ast,
    out: Seq<char>,
) -> bool {
    exists|draws: Seq<u32>| run(rules, policy, seq![start], draws) == Ok::<Walk, Seq<char>>((seq![], out))
}

/// Some sequence of draws leads the walk from `start` to a reference to `name`,
/// which the table lacks.
pub open spec fn reaches_undefined(
    rules: Map<Seq<char>, Ast>,
    policy: BranchPolicy,
    start: Ast,
    name: Seq<char>,
) -> bool {
    exists|draws: Seq<u32>| run(rules, policy, seq![start], draws) == Err::<Walk, Seq<char>>(name)
}

/// Some sequence of `steps` draws leaves the walk from `start` unfinished.
pub open spec fn unfinished_after(
    rules: Map<Seq<char>, Ast>,
    policy: BranchPolicy,
    start: Ast,
    steps: nat,
) -> bool {
    exists|draws: Seq<u32>|
        draws.len() == steps && (run(rules, policy, seq![start], draws) matches Ok((stack, _))
            && stack.len() > 0)
}

/// Every reference in the tree names a rule of the table.
pub open spec fn refs_defined(rules: Map<Seq<char>, Ast>, a: Ast) -> bool
    decreases a,
{
    match a {
        Ast::Bnf(b) => refs_defined(rules, *b.term) && refs_defined(rules, *b.stmt),
        Ast::Term { name } => refs_defined(rules, *name),
        Ast::Stmt { expr, remain_stmt, .. } => refs_defined(rules, *expr) && refs_defined(
            rules,
            *remain_stmt,
        ),
        Ast::RemainStmt(RemainStmt::OrStmt { stmt }) => refs_defined(rules, *stmt),
        Ast::Expr(Expr::Expr0Remain { expr0, remain_expr }) => refs_defined(rules, *expr0)
            && refs_defined(rules, *remain_expr),
        Ast::Expr0(Expr0::NonTerminal { term }) => rules.contains_key(term_name(*term)),
        Ast::Expr0(Expr0::Terminal { name }) => refs_defined(rules, *name),
        Ast::RemainExpr(RemainExpr::Expr { expr }) => refs_defined(rules, *expr),
        Ast::Name(Name::HeadTail { tail, .. }) => refs_defined(rules, *tail),
        _ => true,
    }
}

/// Every reference in every rule of the table names a rule of the table.
pub open spec fn closed(rules: Map<Seq<char>, Ast>) -> bool {
    forall|k: Seq<char>| #[trigger] rules.contains_key(k) ==> refs_defined(rules, rules[k])
}

proof fn lemma_run_stays_defined(
    rules: Map<Seq<char>, Ast>,
    policy: BranchPolicy,
    start: Ast,
    draws: Seq<u32>,
)
    requires
        closed(rules),
        refs_defined(rules, start),
    ensures
        run(rules, policy, seq![start], draws) matches Ok((stack, _)) && forall|i: int|
            0 <= i < stack.len() ==> refs_defined(rules, #[trigger] stack[i]),
    decreases draws.len(),
{
    if draws.len() > 0 {
        lemma_run_stays_defined(rules, policy, start, draws.drop_last());
        if let Ok((stack, out)) = run(rules, policy, seq![start], draws.drop_last()) {
            if stack.len() > 0 {
                let top = stack.last();
                assert(refs_defined(rules, top));
                if let Ast::Expr0(Expr0::NonTerminal { term }) = top {
                    assert(rules.contains_key(term_name(*term)));
                }
                if let Ok((pushed, written)) = step(rules, policy, top, out.len(), draws.last()) {
                    let next = stack.drop_last() + pushed;
                    assert forall|i: int| 0 <= i < next.len() implies refs_defined(
                        rules,
                        #[trigger] next[i],
                    ) by {
                        if i >= stack.len() - 1 {
                            assert(next[i] == pushed[i - (stack.len() - 1)]);
                        } else {
                            assert(next[i] == stack[i]);
                        }
                    }
                }
            }
        }
    } else {
        assert(seq![start][0] == start);
    }
}

/// On a table where every reference names a rule, no sequence of draws
/// leads a walk from one of its rules to an undefined name.
pub proof fn lemma_closed_never_undefined(
    rules: Map<Seq<char>, Ast>,
    policy: BranchPolicy,
    start: Seq<char>,
    name: Seq<char>,
)
    requires
        closed(rules),
        rules.contains_key(start),
    ensures
        !reaches_undefined(rules, policy, rules[start], name),
{
    assert forall|draws: Seq<u32>|
        run(rules, policy, seq![rules[start]], draws) != Err::<Walk, Seq<char>>(name) by {
        lemma_run_stays_defined(rules, policy, rules[start], draws);
    }
}

} // verus!
