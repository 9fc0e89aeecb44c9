use vstd::prelude::*;
use crate::ast::{
    name_text, string_of, term_name, Ast, AstNodeType, Expr, Expr0, Name, RemainExpr, RemainStmt,
};
use crate::derivation::{derives, reaches_undefined, run, step, unfinished_after, Walk};
use crate::parser::{
    chars_of, heads_ok, is_name_char, lemma_parse_wf, lemma_wf_heads, parse, parse_at, wf_node,
    ParseError,
};
use crate::policy::BranchPolicy;

verus! {

/// Most expansion steps one generation takes before it gives up.
pub const STEP_LIMIT: u64 = 0xffff_ffff_ffff_ffff;

/// What can go wrong when adding a rule or generating text.
#[derive(Debug)]
pub enum GrammarError {
    /// The rule text does not parse.
    Parse(ParseError),
    /// A name that no rule defines.
    UndefinedNonTerminal(String),
    /// A parse that gave something other than a rule.
    NotARule,
    /// The derivation ran for `STEP_LIMIT` steps without finishing.
    StepLimit,
}

/// The name a rule tree defines (empty for any other node).
pub open spec fn rule_name(t: Ast) -> Seq<char> {
    match t {
        Ast::Bnf(b) => term_name(*b.term),
        _ => Seq::empty(),
    }
}

/// A table of rules keyed by the name each one defines, with the policy
/// that generation uses at alternations.
pub struct Collection {
    h: Vec<(Vec<char>, Ast)>,
    policy: BranchPolicy,
}

/// Appends the characters of a name list to `out`.
fn write_name(a: &Ast, out: &mut Vec<char>)
    ensures
        final(out)@ == old(out)@ + name_text(*a),
    decreases a,
{
    match a {
        Ast::Name(Name::HeadTail { head, tail }) => {
            out.push(*head);
            write_name(tail, out);
            assert(out@ =~= old(out)@ + name_text(*a));
        },
        _ => {
            assert(out@ =~= old(out)@ + name_text(*a));
        },
    }
}

/// The name a `<...>` term refers to.
fn name_key(t: &Ast) -> (v: Vec<char>)
    ensures
        v@ == term_name(*t),
{
    let mut v: Vec<char> = Vec::new();
    if let Ast::Term { name } = t {
        write_name(name, &mut v);
    }
    assert(v@ =~= term_name(*t));
    v
}

fn same_chars(a: &Vec<char>, b: &Vec<char>) -> (r: bool)
    ensures
        r == (a@ == b@),
{
    if a.len() != b.len() {
        return false;
    }
    let mut i: usize = 0;
    while i < a.len()
        invariant
            a.len() == b.len(),
            i <= a.len(),
            forall|j: int| 0 <= j < i ==> a@[j] == b@[j],
        decreases a.len() - i,
    {
        if a[i] != b[i] {
            return false;
        }
        i = i + 1;
    }
    assert(a@ =~= b@);
    true
}

/// Relies on `rand::random::<u32>`: a draw from the thread's generator.
/// Any `u32` may come back.
#[verifier::external_body]
fn draw_u32() -> u32 {
    rand::random::<u32>()
}

impl Collection {
    /// No two entries share a name.
    /// Each entry holds a well-formed rule (the kind of tree the parser
    /// builds) under the name it defines.
    pub closed spec fn wf(&self) -> bool {
        &&& forall|i: int, j: int|
            0 <= i < self.h@.len() && 0 <= j < self.h@.len() && i != j ==> self.h@[i].0@
                != self.h@[j].0@
        &&& forall|i: int|
            0 <= i < self.h@.len() ==> wf_node(#[trigger] self.h@[i].1, AstNodeType::Bnf)
                && self.h@[i].0@ == rule_name(self.h@[i].1)
    }

    /// The rules, by the name each defines.
    pub closed spec fn rules(&self) -> Map<Seq<char>, Ast> {
        Map::new(
            |k: Seq<char>| exists|i: int| 0 <= i < self.h@.len() && self.h@[i].0@ == k,
            |k: Seq<char>|
                self.h@[choose|i: int| 0 <= i < self.h@.len() && self.h@[i].0@ == k].1,
        )
    }

    /// The policy used at alternations.
    pub closed spec fn branch_policy(&self) -> BranchPolicy {
        self.policy
    }

    proof fn lemma_entry(&self, i: int)
        requires
            self.wf(),
            0 <= i < self.h@.len(),
        ensures
            self.rules().contains_key(self.h@[i].0@),
            self.rules()[self.h@[i].0@] == self.h@[i].1,
    {
        let k = self.h@[i].0@;
        assert(self.rules().dom().contains(k));
        let j = choose|j: int| 0 <= j < self.h@.len() && self.h@[j].0@ == k;
        assert(j == i);
    }

    /// An empty table with the standard policy.
    pub fn new() -> (c: Self)
        ensures
            c.wf(),
            c.rules() == Map::<Seq<char>, Ast>::empty(),
            c.branch_policy() == (BranchPolicy { divisor: 50, additive: 1 }),
    {
        let c = Collection { h: Vec::new(), policy: BranchPolicy::standard() };
        assert(c.rules() =~= Map::<Seq<char>, Ast>::empty());
        c
    }

    /// An empty table with the given policy.
    pub fn with_policy(policy: BranchPolicy) -> (c: Self)
        ensures
            c.wf(),
            c.rules() == Map::<Seq<char>, Ast>::empty(),
            c.branch_policy() == policy,
    {
        let c = Collection { h: Vec::new(), policy };
        assert(c.rules() =~= Map::<Seq<char>, Ast>::empty());
        c
    }

    /// The index of the entry named `key`, if any.
    fn find(&self, key: &Vec<char>) -> (r: Option<usize>)
        requires
            self.wf(),
        ensures
            match r {
                Some(i) => i < self.h@.len() && self.h@[i as int].0@ == key@,
                None => !self.rules().contains_key(key@),
            },
    {
        let mut i: usize = 0;
        while i < self.h.len()
            invariant
                i <= self.h@.len(),
                forall|j: int| 0 <= j < i ==> self.h@[j].0@ != key@,
            decreases self.h.len() - i,
        {
            if same_chars(&self.h[i].0, key) {
                return Some(i);
            }
            i = i + 1;
        }
        None
    }

    /// Stores `rule` under `key`, replacing a rule of that name.
    fn insert(&mut self, key: Vec<char>, rule: Ast)
        requires
            old(self).wf(),
            wf_node(rule, AstNodeType::Bnf),
            key@ == rule_name(rule),
        ensures
            final(self).wf(),
            final(self).rules() == old(self).rules().insert(key@, rule),
            final(self).policy == old(self).policy,
    {
        let ghost k = key@;
        match self.find(&key) {
            Some(i) => {
                self.h[i] = (key, rule);
                assert(self.h@[i as int].1 == rule);
                assert forall|j: int| 0 <= j < self.h@.len() && j != i implies self.h@[j]
                    == old(self).h@[j] by {}
                assert(self.rules() =~= old(self).rules().insert(k, rule)) by {
                    assert forall|x: Seq<char>|
                        self.rules().contains_key(x) implies old(self).rules().insert(
                            k,
                            rule,
                        ).contains_key(x) by {
                        let j = choose|j: int| 0 <= j < self.h@.len() && self.h@[j].0@ == x;
                        if j != i {
                            old(self).lemma_entry(j);
                        }
                    }
                    assert forall|x: Seq<char>|
                        old(self).rules().insert(k, rule).contains_key(x) implies self.rules().contains_key(x) by {
                        if x != k {
                            let j = choose|j: int| 0 <= j < old(self).h@.len() && old(self).h@[j].0@ == x;
                            assert(self.h@[j].0@ == x);
                        }
                    }
                    assert forall|x: Seq<char>| self.rules().contains_key(x) implies self.rules()[x]
                        == old(self).rules().insert(k, rule)[x] by {
                        let j = choose|j: int| 0 <= j < self.h@.len() && self.h@[j].0@ == x;
                        self.lemma_entry(j);
                        if j != i {
                            old(self).lemma_entry(j);
                        }
                    }
                }
            },
            None => {
                self.h.push((key, rule));
                let ghost n = old(self).h@.len() as int;
                assert(self.rules() =~= old(self).rules().insert(k, rule)) by {
                    assert forall|x: Seq<char>|
                        self.rules().contains_key(x) implies old(self).rules().insert(
                            k,
                            rule,
                        ).contains_key(x) by {
                        let j = choose|j: int| 0 <= j < self.h@.len() && self.h@[j].0@ == x;
                        if j != n {
                            old(self).lemma_entry(j);
                        }
                    }
                    assert forall|x: Seq<char>|
                        old(self).rules().insert(k, rule).contains_key(x) implies self.rules().contains_key(x) by {
                        if x != k {
                            let j = choose|j: int| 0 <= j < old(self).h@.len() && old(self).h@[j].0@ == x;
                            assert(self.h@[j].0@ == x);
                        } else {
                            assert(self.h@[n].0@ == x);
                        }
                    }
                    assert forall|x: Seq<char>| self.rules().contains_key(x) implies self.rules()[x]
                        == old(self).rules().insert(k, rule)[x] by {
                        let j = choose|j: int| 0 <= j < self.h@.len() && self.h@[j].0@ == x;
                        self.lemma_entry(j);
                        if j != n {
                            old(self).lemma_entry(j);
                        }
                    }
                }
            },
        }
    }

    /// Parses `bnf_expr` and stores the rule under the name it defines,
    /// replacing an earlier rule of that name. On a parse failure the table
    /// is left as it was.
    pub fn add(&mut self, bnf_expr: &str) -> (r: Result<(), GrammarError>)
        requires
            old(self).wf(),
        ensures
            final(self).wf(),
            final(self).branch_policy() == old(self).branch_policy(),
            match parse_at(bnf_expr@, 0, AstNodeType::Bnf) {
                Ok((t, _)) => r is Ok && final(self).rules() == old(self).rules().insert(
                    rule_name(t),
                    t,
                ),
                Err((prod, x, e)) => r matches Err(GrammarError::Parse(f)) && f.production == prod
                    && f.expected == x && f.found@ == bnf_expr@.subrange(e, bnf_expr@.len() as int)
                    && *final(self) == *old(self),
            },
    {
        proof {
            lemma_parse_wf(bnf_expr@, 0, AstNodeType::Bnf);
        }
        match parse(bnf_expr) {
            Ok(Ast::Bnf(b)) => {
                let key = name_key(&b.term);
                self.insert(key, Ast::Bnf(b));
                Ok(())
            },
            Ok(_) => Err(GrammarError::NotARule),
            Err(e) => Err(GrammarError::Parse(e)),
        }
    }

    /// Derives a random text from the rule named `bnf`.
    pub fn gen(&self, bnf: &str) -> (r: Result<String, GrammarError>)
        requires
            self.wf(),
        ensures
            !self.rules().contains_key(bnf@) ==> (r matches Err(
                GrammarError::UndefinedNonTerminal(n),
            ) && n@ == bnf@),
            self.rules().contains_key(bnf@) ==> generated(
                self.rules(),
                self.branch_policy(),
                self.rules()[bnf@],
                r,
            ),
            r matches Ok(s) ==> forall|i: int| 0 <= i < s@.len() ==> is_name_char(#[trigger] s@[i]),
    {
        let key = chars_of(bnf);
        match self.find(&key) {
            None => Err(GrammarError::UndefinedNonTerminal(String::from_str(bnf))),
            Some(i) => {
                proof {
                    self.lemma_entry(i as int);
                    lemma_wf_heads(self.h@[i as int].1, AstNodeType::Bnf);
                }
                self.walk(&self.h[i].1)
            },
        }
    }

    /// Expands `root` depth-first, left to right, with an explicit stack.
    fn walk(&self, root: &Ast) -> (r: Result<String, GrammarError>)
        requires
            self.wf(),
            heads_ok(*root),
        ensures
            generated(self.rules(), self.policy, *root, r),
            r matches Ok(s) ==> forall|i: int| 0 <= i < s@.len() ==> is_name_char(#[trigger] s@[i]),
    {
        let ghost rules = self.rules();
        let ghost policy = self.policy;
        let mut stack: Vec<&Ast> = Vec::new();
        stack.push(root);
        let mut text: Vec<char> = Vec::new();
        let ghost mut draws: Seq<u32> = Seq::empty();
        let mut steps: u64 = 0;
        assert(nodes(stack@) =~= seq![*root]);
        assert(text@ =~= Seq::<char>::empty());
        while stack.len() > 0
            invariant
                self.wf(),
                rules == self.rules(),
                policy == self.policy,
                draws.len() == steps,
                run(rules, policy, seq![*root], draws) == Ok::<Walk, Seq<char>>(
                    (nodes(stack@), text@),
                ),
                forall|i: int| 0 <= i < stack@.len() ==> heads_ok(#[trigger] nodes(stack@)[i]),
                forall|i: int| 0 <= i < text@.len() ==> is_name_char(#[trigger] text@[i]),
            decreases STEP_LIMIT - steps,
        {
            if steps == STEP_LIMIT {
                assert(draws.len() == STEP_LIMIT && nodes(stack@).len() > 0);
                return Err(GrammarError::StepLimit);
            }
            let ghost before = nodes(stack@);
            let ghost written = text@;
            let top = stack.pop().unwrap();
            assert(nodes(stack@) =~= before.drop_last());
            assert(*top == before.last());
            let mut draw: u32 = 0;
            let ghost mut pushed: Seq<Ast> = seq![];
            let ghost mut emitted: Seq<char> = seq![];
            match top {
                Ast::Bnf(b) => {
                    stack.push(&*b.stmt);
                    proof { pushed = seq![*b.stmt]; }
                },
                Ast::Term { name } => {
                    stack.push(&**name);
                    proof { pushed = seq![**name]; }
                },
                Ast::Stmt { expr, remain_stmt, parallels } => {
                    if let Ast::RemainStmt(RemainStmt::OrStmt { .. }) = &**remain_stmt {
                        draw = draw_u32();
                        if self.policy.moves_on(text.len(), *parallels, draw) {
                            stack.push(&**remain_stmt);
                            proof { pushed = seq![**remain_stmt]; }
                        } else {
                            stack.push(&**expr);
                            proof { pushed = seq![**expr]; }
                        }
                    } else {
                        stack.push(&**expr);
                        proof { pushed = seq![**expr]; }
                    }
                },
                Ast::RemainStmt(RemainStmt::Epsilon) => {},
                Ast::RemainStmt(RemainStmt::OrStmt { stmt }) => {
                    stack.push(&**stmt);
                    proof { pushed = seq![**stmt]; }
                },
                Ast::Expr(Expr::LetterE) => {},
                Ast::Expr(Expr::Expr0Remain { expr0, remain_expr }) => {
                    stack.push(&**remain_expr);
                    stack.push(&**expr0);
                    proof { pushed = seq![**remain_expr, **expr0]; }
                },
                Ast::Expr0(Expr0::NonTerminal { term }) => {
                    let key = name_key(term);
                    match self.find(&key) {
                        Some(i) => {
                            proof {
                                self.lemma_entry(i as int);
                                lemma_wf_heads(self.h@[i as int].1, AstNodeType::Bnf);
                            }
                            stack.push(&self.h[i].1);
                            proof { pushed = seq![self.h@[i as int].1]; }
                        },
                        None => {
                            proof {
                                let d = draws.push(0);
                                assert(d.drop_last() =~= draws);
                                assert(run(rules, policy, seq![*root], d) == Err::<Walk, Seq<char>>(
                                    key@,
                                ));
                            }
                            return Err(GrammarError::UndefinedNonTerminal(string_of(&key)));
                        },
                    }
                },
                Ast::Expr0(Expr0::Terminal { name }) => {
                    stack.push(&**name);
                    proof { pushed = seq![**name]; }
                },
                Ast::RemainExpr(RemainExpr::Epsilon) => {},
                Ast::RemainExpr(RemainExpr::Expr { expr }) => {
                    stack.push(&**expr);
                    proof { pushed = seq![**expr]; }
                },
                Ast::Name(Name::Epsilon) => {},
                Ast::Name(Name::HeadTail { head, tail }) => {
                    stack.push(&**tail);
                    text.push(*head);
                    proof {
                        pushed = seq![**tail];
                        emitted = seq![*head];
                    }
                },
                Ast::Epsilon => {},
            }
            proof {
                let d = draws.push(draw);
                assert(d.drop_last() =~= draws);
                assert(step(rules, policy, *top, written.len(), draw) == Ok::<Walk, Seq<char>>(
                    (pushed, emitted),
                ));
                assert(nodes(stack@) =~= before.drop_last() + pushed);
                assert(text@ =~= written + emitted);
                assert(heads_ok(*top));
                assert forall|j: int| 0 <= j < pushed.len() implies heads_ok(#[trigger] pushed[j]) by {}
                assert forall|j: int| 0 <= j < emitted.len() implies is_name_char(
                    #[trigger] emitted[j],
                ) by {}
                assert forall|j: int| 0 <= j < stack@.len() implies heads_ok(
                    #[trigger] nodes(stack@)[j],
                ) by {
                    if j < before.len() - 1 {
                        assert(nodes(stack@)[j] == before[j]);
                    } else {
                        assert(nodes(stack@)[j] == pushed[j - (before.len() - 1)]);
                    }
                }
                assert forall|j: int| 0 <= j < text@.len() implies is_name_char(#[trigger] text@[j]) by {
                    if j >= written.len() {
                        assert(text@[j] == emitted[j - written.len()]);
                    } else {
                        assert(text@[j] == written[j]);
                    }
                }
                draws = d;
            }
            steps = steps + 1;
        }
        assert(nodes(stack@) =~= Seq::<Ast>::empty());
        Ok(string_of(&text))
    }
}

/// The nodes a stack of references points to.
pub open spec fn nodes(s: Seq<&Ast>) -> Seq<Ast> {
    s.map_values(|a: &Ast| *a)
}

/// What a generation from `start` may return: a derivation of it, a name
/// that the table lacks and that some draws reach, or, after `STEP_LIMIT`
/// steps, a walk that some draws leave unfinished.
pub open spec fn generated(
    rules: Map<Seq<char>, Ast>,
    policy: BranchPolicy,
    start: Ast,
    r: Result<String, GrammarError>,
) -> bool {
    match r {
        Ok(s) => derives(rules, policy, start, s@),
        Err(GrammarError::UndefinedNonTerminal(n)) => !rules.contains_key(n@) && reaches_undefined(
            rules,
            policy,
            start,
            n@,
        ),
        Err(GrammarError::StepLimit) => unfinished_after(rules, policy, start, STEP_LIMIT as nat),
        Err(_) => false,
    }
}

} // verus!
