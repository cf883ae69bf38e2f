use earlgrey::{EarleyForest, EarleyParser, Grammar, GrammarBuilder, Matcher, ParseTrees, Rule, Span, SpanSource};

type Pred = fn(&str) -> bool;
type Action = Box<dyn Fn(Vec<String>) -> String>;

fn digits(s: &str) -> bool {
    !s.is_empty() && s.chars().all(|c| c.is_ascii_digit())
}

fn words(text: &str) -> Vec<String> {
    text.split_whitespace().map(|w| w.to_string()).collect()
}

fn lifted(_symbol: &str, token: &str) -> String {
    token.to_string()
}

type Lift = fn(&str, &str) -> String;

/// A forest that writes each tree as `head(part part ...)`.
fn writer(grammar: &Grammar<Pred>) -> EarleyForest<String, Lift, Action> {
    let mut forest = EarleyForest::new(lifted as Lift);
    for rule in &grammar.rules {
        let head = rule.head.clone();
        forest.action(
            &rule.to_string(),
            Box::new(move |args: Vec<String>| format!("{}({})", head, args.join(" "))) as Action,
        );
    }
    forest
}

/// E -> E + E | n
fn sums() -> Grammar<Pred> {
    GrammarBuilder::default()
        .nonterm("E")
        .terminal_with("+", Matcher::Exactly("+".to_string()))
        .terminal("n", digits as Pred)
        .rule("E", &["E", "+", "E"])
        .rule("E", &["n"])
        .into_grammar("E")
        .unwrap()
}

/// E -> E + E | E * E | n | ( E ) | ( E | E )
fn unmatched_parens() -> Grammar<Pred> {
    GrammarBuilder::default()
        .nonterm("E")
        .terminal_with("+", Matcher::Exactly("+".to_string()))
        .terminal_with("*", Matcher::Exactly("*".to_string()))
        .terminal_with("(", Matcher::Exactly("(".to_string()))
        .terminal_with(")", Matcher::Exactly(")".to_string()))
        .terminal("n", digits as Pred)
        .rule("E", &["E", "+", "E"])
        .rule("E", &["E", "*", "E"])
        .rule("E", &["n"])
        .rule("E", &["(", "E", ")"])
        .rule("E", &["(", "E"])
        .rule("E", &["E", ")"])
        .into_grammar("E")
        .unwrap()
}

/// S -> S | a
fn cyclic() -> Grammar<Pred> {
    GrammarBuilder::default()
        .nonterm("S")
        .terminal_with("a", Matcher::Exactly("a".to_string()))
        .rule("S", &["S"])
        .rule("S", &["a"])
        .into_grammar("S")
        .unwrap()
}

fn parsed(grammar: Grammar<Pred>, text: &str) -> ParseTrees {
    EarleyParser::new(grammar).parse(&words(text)).unwrap()
}

#[test]
fn a_single_parse_is_found_by_every_evaluation() {
    let trees = parsed(sums(), "1 + 2");
    let forest = writer(&sums());
    let expected = "E(E(1) + E(2))".to_string();
    assert_eq!(forest.eval(&trees), Ok(expected.clone()));
    assert_eq!(forest.eval_all(&trees), Ok(vec![expected.clone()]));
    assert_eq!(forest.eval_recursive(&trees), Ok(expected.clone()));
    assert_eq!(forest.eval_all_recursive(&trees), Ok(vec![expected]));
}

#[test]
fn every_parse_of_an_ambiguous_sum_is_enumerated_once() {
    let trees = parsed(sums(), "1 + 2 + 3");
    let mut all = writer(&sums()).eval_all(&trees).unwrap();
    all.sort();
    assert_eq!(
        all,
        vec![
            "E(E(1) + E(E(2) + E(3)))".to_string(),
            "E(E(E(1) + E(2)) + E(3))".to_string(),
        ]
    );
}

#[test]
fn the_number_of_parses_is_catalan() {
    let forest = writer(&sums());
    let texts = ["1", "1 + 2", "1 + 2 + 3", "1 + 2 + 3 + 4", "1 + 2 + 3 + 4 + 5"];
    let counts = [1, 1, 2, 5, 14];
    for (text, count) in texts.iter().zip(counts.iter()) {
        let trees = parsed(sums(), text);
        let mut all = forest.eval_all(&trees).unwrap();
        assert_eq!(all.len(), *count);
        all.sort();
        all.dedup();
        assert_eq!(all.len(), *count);
        let mut by_recursion = forest.eval_all_recursive(&trees).unwrap();
        by_recursion.sort();
        assert_eq!(by_recursion, all);
    }
}

#[test]
fn iteration_gives_what_eval_all_gives_element_for_element() {
    let trees = parsed(sums(), "1 + 2 + 3 + 4");
    let forest = writer(&sums());
    let all = forest.eval_all(&trees).unwrap();
    let mut it = forest.eval_iter(&trees);
    for expected in &all {
        assert_eq!(it.next(), Some(Ok(expected.clone())));
    }
    assert_eq!(it.next(), None);
    assert_eq!(it.next(), None);
    assert_eq!(forest.eval(&trees).unwrap(), all[0]);
    assert_eq!(forest.eval_recursive(&trees).unwrap(), all[0]);
}

#[test]
fn a_capped_evaluation_is_a_prefix_of_the_whole() {
    let trees = parsed(sums(), "1 + 2 + 3 + 4 + 5");
    let forest = writer(&sums());
    let all = forest.eval_all(&trees).unwrap();
    assert_eq!(all.len(), 14);
    assert_eq!(forest.eval_capped(&trees, 0), Ok(vec![]));
    assert_eq!(forest.eval_capped(&trees, 5), Ok(all[..5].to_vec()));
    assert_eq!(forest.eval_capped(&trees, 14), Ok(all.clone()));
    assert_eq!(forest.eval_capped(&trees, 100), Ok(all));
}

#[test]
fn a_capped_evaluation_does_not_walk_what_it_does_not_return() {
    // The second root has no action: only walking it would show.
    let trees = ParseTrees {
        rules: vec![
            Rule { head: "S".to_string(), spec: vec![] },
            Rule { head: "S".to_string(), spec: vec!["a".to_string()] },
        ],
        spans: vec![
            Span { rule: 0, dot: 0, start: 0, end: 0, sources: vec![] },
            Span { rule: 1, dot: 0, start: 0, end: 0, sources: vec![] },
            Span { rule: 1, dot: 1, start: 0, end: 1, sources: vec![SpanSource::Scan(1, "x".to_string())] },
        ],
        roots: vec![0, 2],
    };
    let mut forest: EarleyForest<String, Lift, Action> = EarleyForest::new(lifted as Lift);
    forest.action("S -> ", Box::new(|_| "empty".to_string()));
    assert_eq!(forest.eval_capped(&trees, 1), Ok(vec!["empty".to_string()]));
    let missing = Err("Missing Action: S -> a".to_string());
    assert_eq!(forest.eval_capped(&trees, 2), missing);
    assert_eq!(forest.eval_all(&trees), missing);
    let mut it = forest.eval_iter(&trees);
    assert_eq!(it.next(), Some(Ok("empty".to_string())));
    assert_eq!(it.next(), Some(Err("Missing Action: S -> a".to_string())));
    assert_eq!(it.next(), None);
    assert_eq!(it.next(), None);
}

#[test]
fn a_chart_without_roots_has_no_trees() {
    let trees = ParseTrees { rules: vec![], spans: vec![], roots: vec![] };
    let forest: EarleyForest<String, Lift, Action> = EarleyForest::new(lifted as Lift);
    assert_eq!(forest.eval_all(&trees), Ok(vec![]));
    assert_eq!(forest.eval_all_recursive(&trees), Ok(vec![]));
    assert_eq!(forest.eval_iter(&trees).next(), None);
}

#[test]
fn a_missing_action_is_reported_by_every_evaluation() {
    let trees = parsed(sums(), "1 + 2");
    let mut forest: EarleyForest<String, Lift, Action> = EarleyForest::new(lifted as Lift);
    forest.action("E -> n", Box::new(|args| args[0].clone()));
    let missing = "Missing Action: E -> E + E".to_string();
    assert_eq!(forest.eval(&trees), Err(missing.clone()));
    assert_eq!(forest.eval_all(&trees), Err(missing.clone()));
    assert_eq!(forest.eval_recursive(&trees), Err(missing.clone()));
    assert_eq!(forest.eval_all_recursive(&trees), Err(missing));
}

#[test]
fn actions_get_their_arguments_in_order_and_terminals_their_symbol() {
    let trees = parsed(sums(), "7 + 8");
    let mut forest = EarleyForest::new(|symbol: &str, token: &str| format!("{}:{}", symbol, token));
    forest.action("E -> n", Box::new(|args: Vec<String>| args[0].clone()) as Action);
    forest.action("E -> E + E", Box::new(|args: Vec<String>| args.join(",")) as Action);
    assert_eq!(forest.eval(&trees), Ok("n:7,+:+,n:8".to_string()));
}

#[test]
fn the_last_action_for_a_rule_counts() {
    let trees = parsed(sums(), "7");
    let mut forest: EarleyForest<String, Lift, Action> = EarleyForest::new(lifted as Lift);
    forest.action("E -> n", Box::new(|_| "first".to_string()));
    forest.action("E -> n", Box::new(|_| "second".to_string()));
    assert_eq!(forest.eval(&trees), Ok("second".to_string()));
}

#[test]
fn the_cap_on_steps_is_exact() {
    // Spans visited for `1 + 2`: four for the sum, two for each number.
    let trees = parsed(sums(), "1 + 2");
    let mut forest = writer(&sums());
    forest.max_steps_per_tree(8);
    assert_eq!(forest.eval(&trees), Ok("E(E(1) + E(2))".to_string()));
    forest.max_steps_per_tree(7);
    let message = "Bottomless grammar: eval_one exceeded max tree-walk steps 7".to_string();
    assert_eq!(forest.eval(&trees), Err(message.clone()));
    assert_eq!(forest.eval_all(&trees), Err(message.clone()));
    assert_eq!(forest.eval_capped(&trees, 3), Err(message.clone()));
    let mut it = forest.eval_iter(&trees);
    assert_eq!(it.next(), Some(Err(message)));
    assert_eq!(it.next(), None);
}

#[test]
fn a_bottomless_grammar_is_an_error() {
    let trees = parsed(cyclic(), "a");
    let forest = writer(&cyclic());
    // At the built-in cap, as soon as a span comes back to itself.
    let message = "Bottomless grammar: eval_one exceeded max tree-walk steps 100000".to_string();
    assert_eq!(forest.eval_all(&trees), Err(message.clone()));
    let mut it = forest.eval_iter(&trees);
    assert_eq!(it.next(), Some(Ok("S(a)".to_string())));
    assert_eq!(it.next(), Some(Ok("S(S(a))".to_string())));
    assert_eq!(it.next(), Some(Err(message.clone())));
    assert_eq!(it.next(), None);
    assert_eq!(
        forest.eval_capped(&trees, 2),
        Ok(vec!["S(a)".to_string(), "S(S(a))".to_string()])
    );
    assert_eq!(forest.eval_capped(&trees, 3), Err(message));
    // Recursion takes no back-pointer again on a way down.
    assert_eq!(
        forest.eval_all_recursive(&trees),
        Ok(vec!["S(a)".to_string(), "S(S(a))".to_string()])
    );
}

#[test]
fn a_cycle_through_other_symbols_is_an_error() {
    // S -> A x ; A -> B | a ; B -> A
    let grammar = || -> Grammar<Pred> {
        GrammarBuilder::default()
            .nonterm("S")
            .nonterm("A")
            .nonterm("B")
            .terminal_with("a", Matcher::Exactly("a".to_string()))
            .terminal_with("x", Matcher::Exactly("x".to_string()))
            .rule("S", &["A", "x"])
            .rule("A", &["B"])
            .rule("A", &["a"])
            .rule("B", &["A"])
            .into_grammar("S")
            .unwrap()
    };
    let trees = parsed(grammar(), "a x");
    let mut forest = writer(&grammar());
    let message = "Bottomless grammar: eval_one exceeded max tree-walk steps 100000".to_string();
    assert_eq!(forest.eval(&trees), Ok("S(A(a) x)".to_string()));
    assert_eq!(forest.eval_all(&trees), Err(message));
    // A priority that rules the cycle out leaves the trees that are not on it.
    forest.rule_priority("A -> a", 1);
    assert_eq!(forest.eval_all(&trees), Ok(vec!["S(A(a) x)".to_string()]));
    // One that leaves nothing else leaves no tree.
    forest.rule_priority("A -> B", 2);
    assert!(forest.eval(&trees).is_err());
    assert!(forest.eval_capped(&trees, 1).is_err());
}

#[test]
fn a_cycle_with_a_missing_action_is_an_error_too() {
    let trees = parsed(cyclic(), "a");
    let mut forest: EarleyForest<String, Lift, Action> = EarleyForest::new(lifted as Lift);
    forest.action("S -> a", Box::new(|_| "a".to_string()));
    assert_eq!(forest.eval_all(&trees), Err("Missing Action: S -> S".to_string()));
}

#[test]
fn a_loop_is_an_error() {
    // The first back-pointer of the root leads to the root itself.
    let trees = ParseTrees {
        rules: vec![Rule { head: "S".to_string(), spec: vec!["S".to_string()] }],
        spans: vec![
            Span { rule: 0, dot: 0, start: 0, end: 0, sources: vec![] },
            Span { rule: 0, dot: 1, start: 0, end: 0, sources: vec![SpanSource::Completion(0, 1)] },
        ],
        roots: vec![1],
    };
    let mut forest: EarleyForest<String, Lift, Action> = EarleyForest::new(lifted as Lift);
    forest.action("S -> S", Box::new(|_| "never".to_string()));
    let message = "Bottomless grammar: eval_one exceeded max tree-walk steps 100000".to_string();
    assert_eq!(forest.eval(&trees), Err(message.clone()));
    assert_eq!(forest.eval_all(&trees), Err(message));
    assert_eq!(
        forest.eval_recursive(&trees),
        Err("Bottomless grammar: walker exceeded max recursion depth 100".to_string())
    );
}

#[test]
fn recursion_is_bounded() {
    let mut text = "1".to_string();
    for _ in 0..120 {
        text.push_str(" + 1");
    }
    // L -> L + n | n : as deep as the text is long.
    let lists = || -> Grammar<Pred> {
        GrammarBuilder::default()
            .nonterm("L")
            .terminal_with("+", Matcher::Exactly("+".to_string()))
            .terminal("n", digits as Pred)
            .rule("L", &["L", "+", "n"])
            .rule("L", &["n"])
            .into_grammar("L")
            .unwrap()
    };
    let trees = parsed(lists(), &text);
    let forest = writer(&lists());
    assert!(forest.eval(&trees).is_ok());
    assert_eq!(
        forest.eval_recursive(&trees),
        Err("Bottomless grammar: walker exceeded max recursion depth 100".to_string())
    );
    assert_eq!(
        forest.eval_all_recursive(&trees),
        Err("Bottomless grammar: walker_all exceeded max recursion depth 100".to_string())
    );
}

#[test]
fn a_higher_priority_filters_the_others() {
    let trees = parsed(unmatched_parens(), "( 1 )");
    let mut forest = writer(&unmatched_parens());
    assert_eq!(forest.eval_all(&trees).unwrap().len(), 3);
    forest
        .rule_priority("E -> ( E )", 10)
        .rule_priority("E -> ( E", 1)
        .rule_priority("E -> E )", 1);
    assert_eq!(forest.eval_all(&trees), Ok(vec!["E(( E(1) ))".to_string()]));
    assert_eq!(forest.eval(&trees), Ok("E(( E(1) ))".to_string()));
}

#[test]
fn priorities_leave_unrelated_ambiguity() {
    let trees = parsed(unmatched_parens(), "( 1 + 2 )");
    let mut forest = writer(&unmatched_parens());
    forest.rule_priority("E -> ( E )", 10);
    let all = forest.eval_all(&trees).unwrap();
    assert_eq!(all, vec!["E(( E(E(1) + E(2)) ))".to_string()]);
}

#[test]
fn negative_priorities_lose_against_the_default() {
    // P -> S x ; S -> A | B ; A -> n ; B -> n
    let grammar = || -> Grammar<Pred> {
        GrammarBuilder::default()
            .nonterm("P")
            .nonterm("S")
            .nonterm("A")
            .nonterm("B")
            .terminal_with("x", Matcher::Exactly("x".to_string()))
            .terminal("n", digits as Pred)
            .rule("P", &["S", "x"])
            .rule("S", &["A"])
            .rule("S", &["B"])
            .rule("A", &["n"])
            .rule("B", &["n"])
            .into_grammar("P")
            .unwrap()
    };
    let trees = parsed(grammar(), "1 x");
    let mut forest = writer(&grammar());
    assert_eq!(forest.eval_all(&trees).unwrap().len(), 2);
    forest.rule_priority("S -> A", -1);
    assert_eq!(forest.eval_all(&trees), Ok(vec!["P(S(B(1)) x)".to_string()]));
    forest.rule_priority("S -> B", -2);
    assert_eq!(forest.eval_all(&trees), Ok(vec!["P(S(A(1)) x)".to_string()]));
    // Evaluation by recursion knows no priorities.
    assert_eq!(forest.eval_all_recursive(&trees).unwrap().len(), 2);
}

#[test]
fn roots_compete_by_priority() {
    // S -> A | B, where the two rules are the roots.
    let grammar = || -> Grammar<Pred> {
        GrammarBuilder::default()
            .nonterm("S")
            .nonterm("A")
            .terminal("n", digits as Pred)
            .rule("S", &["A"])
            .rule("S", &["n"])
            .rule("A", &["n"])
            .into_grammar("S")
            .unwrap()
    };
    let trees = parsed(grammar(), "1");
    let mut forest = writer(&grammar());
    let mut all = forest.eval_all(&trees).unwrap();
    all.sort();
    assert_eq!(all, vec!["S(1)".to_string(), "S(A(1))".to_string()]);
    forest.rule_priority("S -> n", 3);
    assert_eq!(forest.eval_all(&trees), Ok(vec!["S(1)".to_string()]));
    forest.rule_priority("S -> A", 4);
    assert_eq!(forest.eval_all(&trees), Ok(vec!["S(A(1))".to_string()]));
    assert_eq!(forest.eval(&trees), Ok("S(A(1))".to_string()));
}

#[test]
fn equal_priorities_keep_all_that_are_tied() {
    let trees = parsed(sums(), "1 + 2 + 3 + 4");
    let plain = writer(&sums()).eval_all(&trees).unwrap();
    let mut forest = writer(&sums());
    forest.rule_priority("E -> E + E", 5).rule_priority("E -> n", 5);
    assert_eq!(forest.eval_all(&trees).unwrap(), plain);
}

#[test]
fn empty_rules_are_evaluated() {
    // S -> x S | nothing
    let grammar = || -> Grammar<Pred> {
        GrammarBuilder::default()
            .nonterm("S")
            .terminal_with("x", Matcher::Exactly("x".to_string()))
            .rule("S", &["x", "S"])
            .rule("S", &[])
            .into_grammar("S")
            .unwrap()
    };
    let forest = writer(&grammar());
    let trees = parsed(grammar(), "x x");
    assert_eq!(forest.eval_all(&trees), Ok(vec!["S(x S(x S()))".to_string()]));
    let none = EarleyParser::new(grammar()).parse(&vec![]).unwrap();
    assert_eq!(forest.eval_all(&none), Ok(vec!["S()".to_string()]));
}

#[test]
fn a_span_that_is_met_twice_is_taken_every_way() {
    // S -> A A ; A -> B ; B -> C | D ; C -> ; D ->
    let grammar = || -> Grammar<Pred> {
        GrammarBuilder::default()
            .nonterm("S")
            .nonterm("A")
            .nonterm("B")
            .nonterm("C")
            .nonterm("D")
            .rule("S", &["A", "A"])
            .rule("A", &["B"])
            .rule("B", &["C"])
            .rule("B", &["D"])
            .rule("C", &[])
            .rule("D", &[])
            .into_grammar("S")
            .unwrap()
    };
    let trees = EarleyParser::new(grammar()).parse(&vec![]).unwrap();
    let mut forest = writer(&grammar());
    let expected = vec![
        "S(A(B(C())) A(B(C())))".to_string(),
        "S(A(B(C())) A(B(D())))".to_string(),
        "S(A(B(D())) A(B(C())))".to_string(),
        "S(A(B(D())) A(B(D())))".to_string(),
    ];
    // Both `A` are the same span.
    let mut all = forest.eval_all(&trees).unwrap();
    let mut by_recursion = forest.eval_all_recursive(&trees).unwrap();
    assert_eq!(forest.eval_capped(&trees, 3).unwrap(), all[..3].to_vec());
    all.sort();
    by_recursion.sort();
    assert_eq!(all, expected);
    assert_eq!(by_recursion, expected);
    // A priority filters wherever the span is met.
    forest.rule_priority("B -> D", 1);
    assert_eq!(forest.eval_all(&trees), Ok(vec![expected[3].clone()]));
}

#[test]
fn ambiguous_empty_constituents_of_their_own_are_all_enumerated() {
    // S -> A A ; A -> B | C ; B -> ; C ->
    let grammar = || -> Grammar<Pred> {
        GrammarBuilder::default()
            .nonterm("S")
            .nonterm("A")
            .nonterm("B")
            .nonterm("C")
            .rule("S", &["A", "A"])
            .rule("A", &["B"])
            .rule("A", &["C"])
            .rule("B", &[])
            .rule("C", &[])
            .into_grammar("S")
            .unwrap()
    };
    let trees = EarleyParser::new(grammar()).parse(&vec![]).unwrap();
    let forest = writer(&grammar());
    let mut all = forest.eval_all(&trees).unwrap();
    all.sort();
    assert_eq!(
        all,
        vec![
            "S(A(B()) A(B()))".to_string(),
            "S(A(B()) A(C()))".to_string(),
            "S(A(C()) A(B()))".to_string(),
            "S(A(C()) A(C()))".to_string(),
        ]
    );
}

/// Whether `some` is what is left of `all` when some of it is removed.
fn left_of(some: &[String], all: &[String]) -> bool {
    let mut rest = all.iter();
    some.iter().all(|x| rest.any(|y| x == y))
}

#[test]
fn priorities_only_remove_trees() {
    for text in ["( 1 )", "( 1 + 2 )", "( 1 * 2 ) + 3", "1 + ( 2"] {
        let trees = parsed(unmatched_parens(), text);
        let all = writer(&unmatched_parens()).eval_all(&trees).unwrap();
        for (rule, priority) in [("E -> ( E )", 10), ("E -> ( E", 2), ("E -> E + E", -3), ("E -> n", 1)] {
            let mut forest = writer(&unmatched_parens());
            forest.rule_priority(rule, priority);
            let some = forest.eval_all(&trees).unwrap();
            assert!(!some.is_empty());
            assert!(left_of(&some, &all));
        }
    }
}

#[test]
fn one_priority_for_all_rules_filters_nothing() {
    let trees = parsed(unmatched_parens(), "( 1 + 2 ) * 3");
    let all = writer(&unmatched_parens()).eval_all(&trees).unwrap();
    for priority in [-4, 0, 9] {
        let mut forest = writer(&unmatched_parens());
        for rule in &unmatched_parens().rules {
            forest.rule_priority(&rule.to_string(), priority);
        }
        assert_eq!(forest.eval_all(&trees).unwrap(), all);
    }
    let mut forest = writer(&unmatched_parens());
    forest.rule_priority("F -> nowhere", 7);
    assert_eq!(forest.eval_all(&trees).unwrap(), all);
}

#[test]
fn recursion_knows_neither_priorities_nor_the_cap() {
    let trees = parsed(unmatched_parens(), "( 1 + 2 )");
    let plain = writer(&unmatched_parens()).eval_all_recursive(&trees);
    let mut forest = writer(&unmatched_parens());
    forest.rule_priority("E -> ( E )", 10).max_steps_per_tree(1);
    assert_eq!(forest.eval_all_recursive(&trees), plain);
    assert!(forest.eval_all(&trees).is_err());
}

#[test]
fn recursion_goes_root_by_root() {
    let forest = writer(&unmatched_parens());
    let mut trees = parsed(unmatched_parens(), "( 1 )");
    let roots = trees.roots.clone();
    assert_eq!(roots.len(), 3);
    let whole = forest.eval_all_recursive(&trees).unwrap();
    let mut parts = Vec::new();
    for root in roots {
        trees.roots = vec![root];
        parts.extend(forest.eval_all_recursive(&trees).unwrap());
    }
    assert_eq!(parts, whole);
}
