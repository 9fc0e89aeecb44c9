use vstd::prelude::*;
use vstd::wrapping::usize_specs::{wrapping_add, wrapping_mul};
use crate::ast::{string_of, Ast, Expr, Expr0, Name, RemainExpr, RemainStmt};

verus! {

/// One level of a tree layout: each node's position number and label.
pub type Level = Seq<(usize, Seq<char>)>;

/// Offset added to the positions of level `k` of a right subtree: `2^k`,
/// wrapping at the width of `usize`.
pub open spec fn delay_at(k: nat) -> usize
    decreases k,
{
    if k == 0 {
        1
    } else {
        wrapping_mul(delay_at((k - 1) as nat), 2)
    }
}

pub open spec fn shifted(r: Level, d: usize) -> Level {
    r.map_values(|e: (usize, Seq<char>)| (wrapping_add(e.0, d), e.1))
}

/// Places the levels of a right subtree `right` beside those of `left`,
/// level by level, offsetting the right positions of level `k` by `2^k`.
pub open spec fn beside(left: Seq<Level>, right: Seq<Level>) -> Seq<Level> {
    Seq::new(
        if left.len() >= right.len() {
            left.len()
        } else {
            right.len()
        },
        |k: int|
            (if k < left.len() {
                left[k]
            } else {
                Seq::empty()
            }) + (if k < right.len() {
                shifted(right[k], delay_at(k as nat))
            } else {
                Seq::empty()
            }),
    )
}

proof fn lemma_beside_at(left: Seq<Level>, right: Seq<Level>, k: int)
    requires
        0 <= k < beside(left, right).len(),
    ensures
        beside(left, right)[k] == (if k < left.len() {
            left[k]
        } else {
            Seq::empty()
        }) + (if k < right.len() {
            shifted(right[k], delay_at(k as nat))
        } else {
            Seq::empty()
        }),
{
}

pub open spec fn titled(label: Seq<char>, rest: Seq<Level>) -> Seq<Level> {
    seq![seq![(0usize, label)]] + rest
}

pub open spec fn leaf(label: Seq<char>, below: Seq<char>) -> Seq<Level> {
    seq![seq![(0usize, label)], seq![(0usize, below)]]
}

/// Adds `e` at the end of the second level.
pub open spec fn mark_second(v: Seq<Level>, e: (usize, Seq<char>)) -> Seq<Level> {
    v.update(1, v[1].push(e))
}

/// The tree drawn level by level: each level lists its nodes' labels with
/// their position numbers.
pub open spec fn layout(a: Ast) -> Seq<Level>
    decreases a,
{
    match a {
        Ast::Bnf(b) => titled("bnf ::="@, beside(layout(*b.term), layout(*b.stmt))),
        Ast::Expr(Expr::LetterE) => leaf("expr"@, "E"@),
        Ast::Expr(Expr::Expr0Remain { expr0, remain_expr }) => titled(
            "Expr"@,
            beside(layout(*expr0), layout(*remain_expr)),
        ),
        Ast::Expr0(Expr0::Terminal { name }) => mark_second(
            titled("Expr"@, layout(*name)),
            (1usize, "\"\""@),
        ),
        Ast::Expr0(Expr0::NonTerminal { term }) => titled("Expr"@, layout(*term)),
        Ast::Name(Name::Epsilon) => leaf("Name"@, "e"@),
        Ast::Name(Name::HeadTail { head, tail }) => titled(
            "Name"@,
            beside(seq![seq![(0usize, seq!['"', head, '"'])]], layout(*tail)),
        ),
        Ast::RemainExpr(RemainExpr::Epsilon) => leaf("RemainExpr"@, "e"@),
        Ast::RemainExpr(RemainExpr::Expr { expr }) => titled("RemainExpr"@, layout(*expr)),
        Ast::RemainStmt(RemainStmt::Epsilon) => leaf("RemainStmt"@, "e"@),
        Ast::RemainStmt(RemainStmt::OrStmt { stmt }) => titled(
            "RemainStmt"@,
            beside(seq![seq![(0usize, "|"@)]], layout(*stmt)),
        ),
        Ast::Stmt { expr, remain_stmt, .. } => titled(
            "Stmt"@,
            beside(layout(*expr), layout(*remain_stmt)),
        ),
        Ast::Term { name } => mark_second(titled("Term"@, layout(*name)), (1usize, "<>"@)),
        Ast::Epsilon => seq![seq![]],
    }
}

pub open spec fn row_view(r: Seq<(usize, String)>) -> Level {
    r.map_values(|e: (usize, String)| (e.0, e.1@))
}

pub open spec fn rows_view(v: Seq<Vec<(usize, String)>>) -> Seq<Level> {
    v.map_values(|r: Vec<(usize, String)>| row_view(r@))
}

/// Appends the entries of `row` to `out`, positions offset by `d`.
fn append_shifted(out: &mut Vec<(usize, String)>, row: &Vec<(usize, String)>, d: usize)
    ensures
        row_view(final(out)@) == row_view(old(out)@) + shifted(row_view(row@), d),
{
    let ghost start = old(out)@;
    for j in 0..row.len()
        invariant
            row_view(out@) == row_view(start) + shifted(row_view(row@), d).take(j as int),
    {
        let e = (row[j].0.wrapping_add(d), row[j].1.clone());
        let ghost before = out@;
        out.push(e);
        proof {
            assert(e.1@ == row@[j as int].1@);
            assert(e.0 == wrapping_add(row@[j as int].0, d));
            assert(row_view(out@) =~= row_view(before).push((e.0, e.1@)));
            assert(shifted(row_view(row@), d).take(j + 1) =~= shifted(row_view(row@), d).take(
                j as int,
            ).push((e.0, e.1@)));
            assert(row_view(out@) =~= row_view(start) + shifted(row_view(row@), d).take(
                j + 1,
            ));
        }
    }
    assert(shifted(row_view(row@), d).take(row@.len() as int) =~= shifted(row_view(row@), d));
}

/// The levels of `left` and `right` side by side (see `beside`).
fn beside_rows(left: &Vec<Vec<(usize, String)>>, right: &Vec<Vec<(usize, String)>>) -> (r: Vec<
    Vec<(usize, String)>,
>)
    ensures
        rows_view(r@) == beside(rows_view(left@), rows_view(right@)),
{
    let n = if left.len() >= right.len() {
        left.len()
    } else {
        right.len()
    };
    let ghost target = beside(rows_view(left@), rows_view(right@));
    let mut out: Vec<Vec<(usize, String)>> = Vec::new();
    let mut delay: usize = 1;
    for k in 0..n
        invariant
            target == beside(rows_view(left@), rows_view(right@)),
            n == target.len(),
            delay == delay_at(k as nat),
            rows_view(out@) == target.take(k as int),
    {
        let mut row: Vec<(usize, String)> = Vec::new();
        assert(row_view(row@) =~= Seq::<(usize, Seq<char>)>::empty());
        if k < left.len() {
            append_shifted(&mut row, &left[k], 0);
            assert(shifted(row_view(left@[k as int]@), 0) =~= row_view(left@[k as int]@));
            assert(rows_view(left@)[k as int] == row_view(left@[k as int]@));
        }
        let ghost mid = row_view(row@);
        if k < right.len() {
            append_shifted(&mut row, &right[k], delay);
            assert(rows_view(right@)[k as int] == row_view(right@[k as int]@));
        } else {
            assert(mid + Seq::<(usize, Seq<char>)>::empty() =~= mid);
        }
        let ghost lpart = if k < left.len() {
            rows_view(left@)[k as int]
        } else {
            Seq::<(usize, Seq<char>)>::empty()
        };
        let ghost rpart = if k < right.len() {
            shifted(rows_view(right@)[k as int], delay_at(k as nat))
        } else {
            Seq::<(usize, Seq<char>)>::empty()
        };
        assert(mid == lpart);
        assert(rows_view(left@).len() == left@.len());
        assert(rows_view(right@).len() == right@.len());
        proof {
            lemma_beside_at(rows_view(left@), rows_view(right@), k as int);
        }
        assert(target[k as int] == lpart + rpart);
        assert(row_view(row@) =~= target[k as int]);
        let ghost before = out@;
        out.push(row);
        assert(rows_view(out@) =~= rows_view(before).push(row_view(row@)));
        assert(target.take(k + 1) =~= target.take(k as int).push(target[k as int]));
        delay = delay.wrapping_mul(2);
    }
    assert(target.take(n as int) =~= target);
    out
}

/// A level holding the single entry `(0, label)`, above the levels `rest`.
fn titled_rows(label: &str, rest: Vec<Vec<(usize, String)>>) -> (r: Vec<Vec<(usize, String)>>)
    ensures
        rows_view(r@) == titled(label@, rows_view(rest@)),
{
    let mut top: Vec<(usize, String)> = Vec::new();
    top.push((0, String::from_str(label)));
    assert(row_view(top@) =~= seq![(0usize, label@)]);
    let mut out: Vec<Vec<(usize, String)>> = Vec::new();
    out.push(top);
    let mut rest = rest;
    let ghost below = rest@;
    out.append(&mut rest);
    assert(out@ =~= seq![top] + below);
    assert(rows_view(out@) =~= titled(label@, rows_view(below)));
    out
}

/// The two levels `(0, label)` and `(0, below)`.
fn leaf_rows(label: &str, below: &str) -> (r: Vec<Vec<(usize, String)>>)
    ensures
        rows_view(r@) == leaf(label@, below@),
{
    let mut second: Vec<(usize, String)> = Vec::new();
    second.push((0, String::from_str(below)));
    assert(row_view(second@) =~= seq![(0usize, below@)]);
    let mut rest: Vec<Vec<(usize, String)>> = Vec::new();
    rest.push(second);
    let r = titled_rows(label, rest);
    assert(rows_view(r@) =~= leaf(label@, below@));
    r
}

/// Adds `(1, label)` at the end of the second level.
fn mark_second_rows(v: &mut Vec<Vec<(usize, String)>>, label: &str)
    requires
        old(v)@.len() >= 2,
    ensures
        rows_view(final(v)@) == mark_second(rows_view(old(v)@), (1usize, label@)),
{
    let ghost start = old(v)@;
    let mut row = v.remove(1);
    let ghost taken = row@;
    row.push((1, String::from_str(label)));
    assert(row_view(row@) =~= row_view(taken).push((1usize, label@)));
    v.insert(1, row);
    assert(v@ =~= start.update(1, row));
    assert(rows_view(v@) =~= mark_second(rows_view(old(v)@), (1usize, label@)));
}

impl Ast {
    /// The tree drawn level by level: for each level, its nodes' position
    /// numbers and labels.
    pub fn mk_str_vec(&self) -> (r: Vec<Vec<(usize, String)>>)
        ensures
            rows_view(r@) == layout(*self),
        decreases self,
    {
        match self {
            Ast::Bnf(b) => titled_rows("bnf ::=", beside_rows(&b.term.mk_str_vec(), &b.stmt.mk_str_vec())),
            Ast::Expr(Expr::LetterE) => leaf_rows("expr", "E"),
            Ast::Expr(Expr::Expr0Remain { expr0, remain_expr }) => titled_rows(
                "Expr",
                beside_rows(&expr0.mk_str_vec(), &remain_expr.mk_str_vec()),
            ),
            Ast::Expr0(Expr0::Terminal { name }) => {
                let below = name.mk_str_vec();
                proof {
                    lemma_layout_nonempty(**name);
                }
                let mut r = titled_rows("Expr", below);
                assert(rows_view(r@).len() == r@.len());
                mark_second_rows(&mut r, "\"\"");
                r
            },
            Ast::Expr0(Expr0::NonTerminal { term }) => titled_rows("Expr", term.mk_str_vec()),
            Ast::Name(Name::Epsilon) => leaf_rows("Name", "e"),
            Ast::Name(Name::HeadTail { head, tail }) => {
                let mut quoted: Vec<char> = Vec::new();
                quoted.push('"');
                quoted.push(*head);
                quoted.push('"');
                assert(quoted@ =~= seq!['"', *head, '"']);
                let mut first: Vec<(usize, String)> = Vec::new();
                first.push((0, string_of(&quoted)));
                assert(row_view(first@) =~= seq![(0usize, seq!['"', *head, '"'])]);
                let mut left: Vec<Vec<(usize, String)>> = Vec::new();
                left.push(first);
                assert(rows_view(left@) =~= seq![seq![(0usize, seq!['"', *head, '"'])]]);
                titled_rows("Name", beside_rows(&left, &tail.mk_str_vec()))
            },
            Ast::RemainExpr(RemainExpr::Epsilon) => leaf_rows("RemainExpr", "e"),
            Ast::RemainExpr(RemainExpr::Expr { expr }) => titled_rows(
                "RemainExpr",
                expr.mk_str_vec(),
            ),
            Ast::RemainStmt(RemainStmt::Epsilon) => leaf_rows("RemainStmt", "e"),
            Ast::RemainStmt(RemainStmt::OrStmt { stmt }) => {
                let mut first: Vec<(usize, String)> = Vec::new();
                first.push((0, String::from_str("|")));
                assert(row_view(first@) =~= seq![(0usize, "|"@)]);
                let mut left: Vec<Vec<(usize, String)>> = Vec::new();
                left.push(first);
                assert(rows_view(left@) =~= seq![seq![(0usize, "|"@)]]);
                titled_rows("RemainStmt", beside_rows(&left, &stmt.mk_str_vec()))
            },
            Ast::Stmt { expr, remain_stmt, .. } => titled_rows(
                "Stmt",
                beside_rows(&expr.mk_str_vec(), &remain_stmt.mk_str_vec()),
            ),
            Ast::Term { name } => {
                let below = name.mk_str_vec();
                proof {
                    lemma_layout_nonempty(**name);
                }
                let mut r = titled_rows("Term", below);
                assert(rows_view(r@).len() == r@.len());
                mark_second_rows(&mut r, "<>");
                r
            },
            Ast::Epsilon => {
                let mut r: Vec<Vec<(usize, String)>> = Vec::new();
                let empty: Vec<(usize, String)> = Vec::new();
                assert(row_view(empty@) =~= Seq::<(usize, Seq<char>)>::empty());
                r.push(empty);
                assert(rows_view(r@) =~= seq![Seq::<(usize, Seq<char>)>::empty()]);
                r
            },
        }
    }
}

/// Every layout has at least one level.
pub proof fn lemma_layout_nonempty(a: Ast)
    ensures
        layout(a).len() >= 1,
    decreases a,
{
    match a {
        Ast::Expr0(Expr0::Terminal { name }) => {
            lemma_layout_nonempty(*name);
        },
        Ast::Term { name } => {
            lemma_layout_nonempty(*name);
        },
        _ => {},
    }
}

} // verus!
