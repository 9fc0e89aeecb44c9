use bnfgen::{parse_bnf, Ast, AstNodeType};

fn entry(n: usize, s: &str) -> (usize, String) {
    (n, s.to_string())
}

#[test]
fn literal_layout_by_level() {
    let p = parse_bnf("\"a\"", AstNodeType::Expr0).unwrap();
    assert_eq!(
        p.r.mk_str_vec(),
        vec![
            vec![entry(0, "Expr")],
            vec![entry(0, "Name"), entry(1, "\"\"")],
            vec![entry(0, "\"a\""), entry(1, "Name")],
            vec![entry(2, "e")],
        ]
    );
}

#[test]
fn empty_node_layout() {
    assert_eq!(Ast::Epsilon.mk_str_vec(), vec![Vec::<(usize, String)>::new()]);
}

#[test]
fn deep_layout_does_not_overflow() {
    let name: String = std::iter::repeat('a').take(100).collect();
    let p = parse_bnf(&name, AstNodeType::Name).unwrap();
    let levels = p.r.mk_str_vec();
    assert_eq!(levels.len(), 102);
}
