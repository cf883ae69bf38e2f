use earlgrey::{EarleyForest, EarleyParser, Grammar, GrammarBuilder, Matcher};

type Pred = Box<dyn Fn(&str) -> bool>;

fn words(text: &str) -> Vec<String> {
    text.split_whitespace().map(|w| w.to_string()).collect()
}

fn arithmetic() -> Grammar<Pred> {
    GrammarBuilder::new()
        .nonterm("sum")
        .nonterm("product")
        .nonterm("factor")
        .terminal_with("num", Matcher::Digits)
        .terminal("op", Box::new(|s: &str| s == "+" || s == "-") as Pred)
        .terminal_with("*", Matcher::Exactly("*".to_string()))
        .terminal_with("(", Matcher::Exactly("(".to_string()))
        .terminal_with(")", Matcher::Exactly(")".to_string()))
        .rule("sum", &["sum", "op", "product"])
        .rule("sum", &["product"])
        .rule("product", &["product", "*", "factor"])
        .rule("product", &["factor"])
        .rule("factor", &["num"])
        .rule("factor", &["(", "sum", ")"])
        .into_grammar("sum")
        .unwrap()
}

type Action = Box<dyn Fn(Vec<i64>) -> i64>;

fn calculate(text: &str) -> Result<i64, String> {
    let trees = EarleyParser::new(arithmetic()).parse(&words(text))?;
    let mut forest = EarleyForest::new(|symbol: &str, token: &str| match symbol {
        "num" => token.parse().unwrap(),
        "op" => {
            if token == "+" {
                1
            } else {
                -1
            }
        }
        _ => 0,
    });
    forest.action("sum -> sum op product", Box::new(|a: Vec<i64>| a[0] + a[1] * a[2]) as Action);
    forest.action("sum -> product", Box::new(|a: Vec<i64>| a[0]) as Action);
    forest.action("product -> product * factor", Box::new(|a: Vec<i64>| a[0] * a[2]) as Action);
    forest.action("product -> factor", Box::new(|a: Vec<i64>| a[0]) as Action);
    forest.action("factor -> num", Box::new(|a: Vec<i64>| a[0]) as Action);
    forest.action("factor -> ( sum )", Box::new(|a: Vec<i64>| a[1]) as Action);
    let all = forest.eval_all(&trees)?;
    assert_eq!(all.len(), 1);
    Ok(all[0])
}

#[test]
fn arithmetic_is_calculated() {
    assert_eq!(calculate("1"), Ok(1));
    assert_eq!(calculate("1 + 2 * 3"), Ok(7));
    assert_eq!(calculate("( 1 + 2 ) * 3"), Ok(9));
    assert_eq!(calculate("10 - 4 - 3"), Ok(3));
    assert_eq!(calculate("2 * ( 3 + ( 4 - 1 ) ) * 5"), Ok(60));
}

#[test]
fn what_is_not_of_the_language_is_an_error() {
    let error = Err("Parse Error: No Rule completes".to_string());
    assert_eq!(calculate(""), error);
    assert_eq!(calculate("1 +"), error);
    assert_eq!(calculate("( 1"), error);
    assert_eq!(calculate("1 2"), error);
    assert_eq!(calculate("x"), error);
}

#[test]
fn nullable_symbols_are_completed_wherever_they_stand() {
    // S -> A A a ; A -> nothing | b
    let grammar: Grammar<Pred> = GrammarBuilder::new()
        .nonterm("S")
        .nonterm("A")
        .terminal_with("a", Matcher::Exactly("a".to_string()))
        .terminal_with("b", Matcher::Exactly("b".to_string()))
        .rule("S", &["A", "A", "a"])
        .rule("A", &[])
        .rule("A", &["b"])
        .into_grammar("S")
        .unwrap();
    let parser = EarleyParser::new(grammar);
    for text in ["a", "b a", "b b a"] {
        assert!(parser.parse(&words(text)).is_ok());
    }
    for text in ["", "b", "b b b a", "a a"] {
        assert!(parser.parse(&words(text)).is_err());
    }
}

#[test]
fn a_symbol_with_a_matcher_is_read_and_not_rewritten() {
    // `x` is a terminal, so its rule is never begun.
    let grammar: Grammar<Pred> = GrammarBuilder::new()
        .nonterm("S")
        .terminal_with("x", Matcher::Exactly("x".to_string()))
        .terminal_with("y", Matcher::Exactly("y".to_string()))
        .rule("S", &["x"])
        .rule("x", &["y"])
        .into_grammar("S")
        .unwrap();
    let parser = EarleyParser::new(grammar);
    assert!(parser.parse(&words("x")).is_ok());
    assert!(parser.parse(&words("y")).is_err());
}

#[test]
fn the_chart_records_every_way_to_a_span() {
    // E -> E E | a over three tokens: the whole has two splits.
    let grammar: Grammar<Pred> = GrammarBuilder::new()
        .nonterm("E")
        .terminal_with("a", Matcher::Exactly("a".to_string()))
        .rule("E", &["E", "E"])
        .rule("E", &["a"])
        .into_grammar("E")
        .unwrap();
    let trees = EarleyParser::new(grammar).parse(&words("a a a")).unwrap();
    assert_eq!(trees.roots.len(), 1);
    let root = &trees.spans[trees.roots[0]];
    assert_eq!((root.start, root.end, root.dot), (0, 3, 2));
    assert_eq!(root.sources.len(), 2);
}

#[test]
fn builders_report_their_first_mistake() {
    let twice: GrammarBuilder<Pred> = GrammarBuilder::new().nonterm("S").nonterm("S").nonterm("S");
    assert_eq!(twice.into_grammar("S").err(), Some("Redefined Symbol: S".to_string()));

    let rule_twice: GrammarBuilder<Pred> =
        GrammarBuilder::new().nonterm("S").rule("S", &["S"]).rule("S", &["S"]);
    assert_eq!(rule_twice.into_grammar("S").err(), Some("Redefined Rule: S -> S".to_string()));

    let headless: GrammarBuilder<Pred> = GrammarBuilder::new().nonterm("S").rule("T", &["S", "U"]);
    assert_eq!(headless.into_grammar("S").err(), Some("Missing Symbol: T".to_string()));

    let undefined: GrammarBuilder<Pred> =
        GrammarBuilder::new().nonterm("S").rule("S", &["S", "U", "V"]).nonterm("S");
    assert_eq!(undefined.into_grammar("S").err(), Some("Missing Symbol: U".to_string()));

    let startless: GrammarBuilder<Pred> = GrammarBuilder::new().nonterm("S");
    assert_eq!(startless.into_grammar("T").err(), Some("Missing Symbol: T".to_string()));
}

#[test]
fn trying_is_quiet_about_what_is_there() {
    let mut builder: GrammarBuilder<Pred> = GrammarBuilder::default();
    builder.terminal_try("a", Matcher::Exactly("a".to_string()));
    builder.nonterm_try("a");
    builder.nonterm_try("S");
    builder.rule_try("S", &["a"]);
    builder.rule_try("S", &["a"]);
    builder.rule_priority_try("S", &["a"], 1);
    builder.rule_priority_try("S", &["a"], 2);
    let grammar = builder.into_grammar("S").unwrap();
    assert_eq!(grammar.rules.len(), 1);
    assert_eq!(grammar.symbols.len(), 2);
    assert!(grammar.matcher(&"a".to_string()).is_some());
    assert!(grammar.is_nonterm(&"S".to_string()));

    let mut forest: EarleyForest<String, _, Box<dyn Fn(Vec<String>) -> String>> =
        EarleyForest::new(|_: &str, token: &str| token.to_string());
    forest.action("S -> a", Box::new(|args| args[0].clone()));
    forest.with_priorities_from(&grammar);
    let trees = EarleyParser::new(grammar).parse(&words("a")).unwrap();
    assert_eq!(forest.eval(&trees), Ok("a".to_string()));
}

#[test]
fn trying_a_rule_over_an_unknown_symbol_is_an_error() {
    let mut builder: GrammarBuilder<Pred> = GrammarBuilder::default();
    builder.nonterm_try("S");
    builder.rule_try("S", &["T"]);
    assert_eq!(builder.into_grammar("S").err(), Some("Missing Symbol: T".to_string()));
}

#[test]
fn made_up_names_are_free() {
    let mut builder: GrammarBuilder<Pred> = GrammarBuilder::default();
    assert_eq!(builder.unique_symbol_name(), "<Uniq-0>".to_string());
    builder.nonterm_try("<Uniq-0>");
    builder.nonterm_try("<Uniq-1>");
    builder.nonterm_try("<Uniq-3>");
    assert_eq!(builder.unique_symbol_name(), "<Uniq-2>".to_string());
}

#[test]
fn matchers_match_their_classes() {
    let name: Matcher<Pred> = Matcher::Name;
    for good in ["a", "Z", "ab_9", "é", "", "été2"] {
        assert!(name.matches(good));
    }
    for bad in ["9a", "_a", "a b", "a-b", "@a", "½"] {
        assert!(!name.matches(bad));
    }
    let text: Matcher<Pred> = Matcher::Text;
    assert!(text.matches("any text, €"));
    assert!(text.matches(""));
    assert!(!text.matches("a\tb"));
    assert!(!text.matches("a\u{7f}"));
    assert!(!text.matches("\u{9f}"));
    assert!(text.matches("\u{a0}"));
    let tag: Matcher<Pred> = Matcher::Tag;
    for good in ["@a", "@tag_1", "@ét", "@½".trim_end_matches('½'), ""] {
        assert!(tag.matches(good));
    }
    for bad in ["@prio", "tag", "@1", "@_", "@a-b"] {
        assert!(!tag.matches(bad));
    }
    assert!(tag.matches("@prior"));
    let digits: Matcher<Pred> = Matcher::Digits;
    assert!(digits.matches("0123456789"));
    assert!(!digits.matches(""));
    assert!(!digits.matches("12a"));
    assert!(!digits.matches("٣"));
    let exactly: Matcher<Pred> = Matcher::Exactly("if".to_string());
    assert!(exactly.matches("if"));
    assert!(!exactly.matches("i"));
    assert!(!exactly.matches("of"));
    let plugged: Matcher<Pred> = Matcher::Plugged(Box::new(|s: &str| s.len() == 2));
    assert!(plugged.matches("ab"));
    assert!(!plugged.matches("a"));
    // Characters beyond ASCII that are numeric, but not alphabetic.
    assert!(name.matches("a½"));
    assert!(!name.matches("½a"));
}
