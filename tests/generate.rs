use bnfgen::{read_bnfs, AstNodeType, BranchPolicy, Collection, Expected, GrammarError};

fn table(rules: &[&str]) -> Collection {
    let mut c = Collection::new();
    for r in rules {
        c.add(r).unwrap();
    }
    c
}

#[test]
fn later_rule_overwrites_earlier() {
    let c = table(&["<a>::=\"x\"", "<a>::=\"y\""]);
    for _ in 0..100 {
        assert_eq!(c.gen("a").unwrap(), "y");
    }
}

#[test]
fn undefined_reference_fails_generation() {
    let c = table(&["<a>::=<b>"]);
    match c.gen("a") {
        Err(GrammarError::UndefinedNonTerminal(n)) => assert_eq!(n, "b"),
        other => panic!("unexpected {:?}", other),
    }
}

#[test]
fn undefined_start_fails_generation() {
    let c = table(&["<a>::=\"x\""]);
    match c.gen("q") {
        Err(GrammarError::UndefinedNonTerminal(n)) => assert_eq!(n, "q"),
        other => panic!("unexpected {:?}", other),
    }
    match Collection::new().gen("") {
        Err(GrammarError::UndefinedNonTerminal(n)) => assert_eq!(n, ""),
        other => panic!("unexpected {:?}", other),
    }
}

#[test]
fn epsilon_rule_yields_empty_text() {
    let c = table(&["<a>::=E"]);
    for _ in 0..100 {
        assert_eq!(c.gen("a").unwrap(), "");
    }
}

#[test]
fn concatenation_follows_references() {
    let c = table(&["<a>::=\"x\"<b>", "<b>::=\"y\""]);
    for _ in 0..100 {
        assert_eq!(c.gen("a").unwrap(), "xy");
    }
}

#[test]
fn literals_are_copied_in_order() {
    let c = table(&["<s>::=\"1 + 2\"<t>\"/\"", "<t>::=\"ab\"\"cd\""]);
    assert_eq!(c.gen("s").unwrap(), "1 + 2abcd/");
}

#[test]
fn self_reference_stays_short() {
    let c = table(&["<a>::=\"x\"<a>|E"]);
    let trials = 10_000;
    let mut total = 0usize;
    for _ in 0..trials {
        let s = c.gen("a").unwrap();
        assert!(s.chars().all(|ch| ch == 'x'));
        total += s.len();
    }
    let mean = total as f64 / trials as f64;
    assert!(mean < 200.0, "mean length {}", mean);
}

#[test]
fn every_alternative_is_chosen() {
    let mut seen = [false; 3];
    for _ in 0..1000 {
        let c = table(&["<a>::=\"x\"|\"y\"|\"z\""]);
        match c.gen("a").unwrap().as_str() {
            "x" => seen[0] = true,
            "y" => seen[1] = true,
            "z" => seen[2] = true,
            other => panic!("unexpected {}", other),
        }
    }
    assert_eq!(seen, [true, true, true]);
}

#[test]
fn failed_add_leaves_table_unchanged() {
    let mut c = table(&["<a>::=\"x\""]);
    match c.add("<a>::=\"y") {
        Err(GrammarError::Parse(e)) => {
            assert_eq!(e.production, AstNodeType::Expr0);
            assert_eq!(e.expected, Expected::Quote);
        }
        other => panic!("unexpected {:?}", other),
    }
    assert_eq!(c.gen("a").unwrap(), "x");
}

#[test]
fn names_with_spaces_and_signs_resolve() {
    let c = table(&["<a b>::=<c+d>\"*\"", "<c+d>::=\"cd\""]);
    assert_eq!(c.gen("a b").unwrap(), "cd*");
}

#[test]
fn policy_that_never_moves_on_takes_first_alternative() {
    let mut c = Collection::with_policy(BranchPolicy { divisor: 0, additive: 1 });
    c.add("<a>::=\"x\"|\"y\"").unwrap();
    for _ in 0..100 {
        assert_eq!(c.gen("a").unwrap(), "x");
    }
}

#[test]
fn decision_thresholds() {
    let p = BranchPolicy::standard();
    assert_eq!(p, BranchPolicy { divisor: 50, additive: 1 });
    // two alternatives, no output yet: moves on below one half
    assert!(p.moves_on(0, 2, (1u32 << 31) - 1));
    assert!(!p.moves_on(0, 2, 1u32 << 31));
    // a single alternative never moves on
    assert!(!p.moves_on(0, 1, 0));
    assert!(!p.moves_on(0, 0, 0));
    // three alternatives, no output yet: the length bound of one half wins
    // over two thirds
    assert!(p.moves_on(0, 3, (1u32 << 31) - 1));
    assert!(!p.moves_on(0, 3, 1u32 << 31));
    assert!(!p.moves_on(0, 3, 2576980378));
    // 49 characters of output: the length bound is 50 / 149
    assert!(p.moves_on(49, 3, 1441264193));
    assert!(!p.moves_on(49, 3, 1441264194));
    // 100 characters of output: the length bound is one quarter
    assert!(p.moves_on(100, 2, (1u32 << 30) - 1));
    assert!(!p.moves_on(100, 2, 1u32 << 30));
}

#[test]
fn decision_with_large_constants() {
    let p = BranchPolicy { divisor: u64::MAX, additive: u64::MAX };
    // p is about 1 / 2^64: only a zero draw moves on
    assert!(p.moves_on(0, 2, 0));
    assert!(!p.moves_on(0, 2, 1));
    let never = BranchPolicy { divisor: 0, additive: 0 };
    assert!(!never.moves_on(0, 2, 0));
}

#[test]
fn blocks_split_at_blank_lines() {
    let v = read_bnfs("<a>::=\"x\"\n\n<b>::=E\n\n\n<c>::=E".to_string());
    assert_eq!(v, vec!["<a>::=\"x\"", "<b>::=E", "\n<c>::=E"]);
    assert_eq!(read_bnfs(String::new()), vec![""]);
    assert_eq!(read_bnfs("a\n\n".to_string()), vec!["a", ""]);
    assert_eq!(read_bnfs("a\nb".to_string()), vec!["a\nb"]);
}

#[test]
fn output_uses_name_characters_only() {
    let c = table(&["<e>::=<t>\"+\"<e>|<t>", "<t>::=\"Q\"|\"1\"|\"x y\"|\"*/-\""]);
    let ok = |ch: char| ch.is_ascii_alphanumeric() || " +-*/".contains(ch);
    for _ in 0..200 {
        let s = c.gen("e").unwrap();
        assert!(s.chars().all(ok), "{}", s);
    }
}
