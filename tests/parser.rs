use bnfgen::{parse, parse_bnf, Ast, AstNodeType, Expected, RemainStmt};

#[test]
fn bnf() {
    assert_eq!(
        parse_bnf("<a>::=<aa>", AstNodeType::Bnf).unwrap().matched,
        "<a>::=<aa>"
    );
    assert_eq!(
        parse_bnf(r#"<a>::=<aa>|E|"aa"<a>"#, AstNodeType::Bnf)
            .unwrap()
            .matched,
        r#"<a>::=<aa>|E|"aa"<a>"#
    );
}

#[test]
fn name() {
    assert_eq!(parse_bnf("aaa", AstNodeType::Name).unwrap().matched, "aaa");
    assert_eq!(parse_bnf("aaa>", AstNodeType::Name).unwrap().remain, ">");
    assert_eq!(parse_bnf("", AstNodeType::Name).unwrap().matched, "");
}

#[test]
fn term() {
    assert_eq!(
        parse_bnf("<aaa>", AstNodeType::Term).unwrap().matched,
        "<aaa>"
    );
}

#[test]
fn expr0() {
    assert_eq!(
        parse_bnf("<aaa>", AstNodeType::Expr0).unwrap().matched,
        "<aaa>"
    );
    assert_eq!(
        parse_bnf(r#""aaa""#, AstNodeType::Expr0).unwrap().matched,
        r#""aaa""#
    );
}

#[test]
fn expr() {
    assert_eq!(
        parse_bnf("<aaa><aa>", AstNodeType::Expr).unwrap().matched,
        "<aaa><aa>"
    );
    assert_eq!(
        parse_bnf("<aaa>\"aa\"<aa>\"a\"", AstNodeType::Expr)
            .unwrap()
            .matched,
        "<aaa>\"aa\"<aa>\"a\""
    );
    assert_eq!(parse_bnf("E", AstNodeType::Expr).unwrap().matched, "E");
}

#[test]
fn stmt() {
    assert_eq!(
        parse_bnf(r#"<aaa>"a"<aa>"aa"|"a"<aaaa>"a"|E"#, AstNodeType::Stmt)
            .unwrap()
            .matched,
        r#"<aaa>"a"<aa>"aa"|"a"<aaaa>"a"|E"#
    );
}

#[test]
fn parse_result_len_counts_matched_chars() {
    let p = parse_bnf("ab c>rest", AstNodeType::Name).unwrap();
    assert_eq!(p.len(), 4);
    assert_eq!(p.remain, ">rest");
}

#[test]
fn canonical_text_reads_back_as_same_rule() {
    let text = r#"<a b>::="x"<y>|E|<a b>"+-*/""#;
    let t = parse(text).unwrap();
    let back = t.to_rule_text();
    assert_eq!(back, text);
    let again = parse(&back).unwrap();
    assert_eq!(again.to_rule_text(), text);
    assert_eq!(again.bnf(), t.bnf());
}

#[test]
fn readable_text_of_rule() {
    let t = parse(r#"<a>::="x"<b>|E"#).unwrap();
    assert_eq!(t.bnf(), "[BNF] <a> ::= \"x\" <b> | ");
}

fn arity_chain(stmt: &Ast) -> Vec<usize> {
    let mut out = Vec::new();
    let mut cur = stmt;
    loop {
        match cur {
            Ast::Stmt { remain_stmt, parallels, .. } => {
                out.push(*parallels);
                match &**remain_stmt {
                    Ast::RemainStmt(RemainStmt::OrStmt { stmt }) => cur = stmt,
                    _ => break,
                }
            }
            _ => panic!("not a statement"),
        }
    }
    out
}

#[test]
fn arity_counts_remaining_alternatives() {
    let p = parse_bnf(r#""x"|"y"|E|<z>"#, AstNodeType::Stmt).unwrap();
    assert_eq!(arity_chain(&p.r), vec![4, 3, 2, 1]);
    let one = parse_bnf("E", AstNodeType::Stmt).unwrap();
    assert_eq!(arity_chain(&one.r), vec![1]);
}

#[test]
fn missing_definition_sign_is_reported() {
    let e = parse("<a>:=\"x\"").unwrap_err();
    assert_eq!(e.production, AstNodeType::Bnf);
    assert_eq!(e.expected, Expected::Define);
    assert_eq!(e.found, ":=\"x\"");
}

#[test]
fn missing_open_bracket_is_reported() {
    let e = parse("a>::=E").unwrap_err();
    assert_eq!(e.production, AstNodeType::Term);
    assert_eq!(e.expected, Expected::Open);
    assert_eq!(e.found, "a>::=E");
}

#[test]
fn missing_close_bracket_is_reported() {
    let e = parse("<a::=E").unwrap_err();
    assert_eq!(e.production, AstNodeType::Name);
    assert_eq!(e.expected, Expected::NameChar);
    assert_eq!(e.found, "::=E");
    let e = parse_bnf("<ab", AstNodeType::Term).unwrap_err();
    assert_eq!(e.production, AstNodeType::Term);
    assert_eq!(e.expected, Expected::Close);
    assert_eq!(e.found, "");
}

#[test]
fn unclosed_literal_is_reported() {
    let e = parse("<a>::=\"x").unwrap_err();
    assert_eq!(e.production, AstNodeType::Expr0);
    assert_eq!(e.expected, Expected::Quote);
    assert_eq!(e.found, "");
}

#[test]
fn empty_body_is_reported() {
    let e = parse("<a>::=").unwrap_err();
    assert_eq!(e.production, AstNodeType::Expr);
    assert_eq!(e.expected, Expected::ExprStart);
    assert_eq!(e.found, "");
    let e = parse_bnf("", AstNodeType::Expr0).unwrap_err();
    assert_eq!(e.expected, Expected::AtomStart);
}

#[test]
fn trailing_text_is_rejected() {
    let e = parse("<a>::=\"x\">").unwrap_err();
    assert_eq!(e.production, AstNodeType::RemainExpr);
    assert_eq!(e.expected, Expected::Continuation);
    assert_eq!(e.found, ">");
    let e = parse("<a>::=E\"x\"").unwrap_err();
    assert_eq!(e.production, AstNodeType::RemainStmt);
    assert_eq!(e.expected, Expected::Bar);
    assert_eq!(e.found, "\"x\"");
}

#[test]
fn whitespace_around_tokens_is_not_skipped() {
    let e = parse("<a> ::= \"x\"").unwrap_err();
    assert_eq!(e.expected, Expected::Define);
    assert_eq!(e.found, " ::= \"x\"");
}

#[test]
fn letter_e_inside_a_literal_is_text() {
    let t = parse("<a>::=\"E\"").unwrap();
    assert_eq!(t.to_rule_text(), "<a>::=\"E\"");
}

#[test]
fn empty_name_is_a_name() {
    let t = parse("<>::=\"\"").unwrap();
    assert_eq!(t.bnf(), "[BNF] <> ::= \"\" ");
}
