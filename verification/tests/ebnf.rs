use earlgrey::{EarleyForest, EarleyParser, EbnfGrammarParser, Grammar};

type Pred = fn(&str) -> bool;
type Action = Box<dyn Fn(Vec<String>) -> String>;
type Lift = fn(&str, &str) -> String;

fn lifted(_symbol: &str, token: &str) -> String {
    token.to_string()
}

fn digits(s: &str) -> bool {
    !s.is_empty() && s.chars().all(|c| c.is_ascii_digit())
}

fn words(text: &str) -> Vec<String> {
    text.split_whitespace().map(|w| w.to_string()).collect()
}

fn grammar(text: &str, start: &str) -> Result<Grammar<Pred>, String> {
    EbnfGrammarParser::new(text, start).plug_terminal("int", digits as Pred).into_grammar()
}

fn rules(grammar: &Grammar<Pred>) -> Vec<String> {
    grammar.rules.iter().map(|rule| rule.to_string()).collect()
}

fn priorities(grammar: &Grammar<Pred>) -> Vec<(String, i32)> {
    let mut list = grammar.rule_priorities.clone();
    list.sort();
    list
}

fn writer(grammar: &Grammar<Pred>) -> EarleyForest<String, Lift, Action> {
    let mut forest = EarleyForest::new(lifted as Lift);
    for rule in &grammar.rules {
        let head = rule.head.clone();
        forest.action(
            &rule.to_string(),
            Box::new(move |args: Vec<String>| format!("{}({})", head, args.join(" "))) as Action,
        );
    }
    forest
}

const PARENS: &str = r#"
    expr := expr '+' expr
          | expr '*' expr
          | int
          | '(' expr ')'    @prio(10)
          | '(' expr        @prio(1)
          | expr ')'        @prio(1) ;
"#;

#[test]
fn alternatives_become_rules() {
    let g = grammar("expr := expr '+' expr | int ;", "expr").unwrap();
    assert_eq!(g.start, "expr".to_string());
    assert_eq!(rules(&g), vec!["expr -> expr + expr", "expr -> int"]);
    assert!(g.is_nonterm(&"expr".to_string()));
    assert!(!g.is_nonterm(&"int".to_string()));
    assert!(g.matcher(&"+".to_string()).is_some());
    assert!(g.rule_priorities.is_empty());
}

#[test]
fn a_plugged_terminal_stays_one() {
    let g = grammar("expr := int ;", "expr").unwrap();
    let parser = EarleyParser::new(g);
    assert!(parser.parse(&words("12")).is_ok());
    assert!(parser.parse(&words("int")).is_err());
}

#[test]
fn both_quotes_make_terminals() {
    let g = grammar("s := 'a b' \"it's\" ;", "s").unwrap();
    assert_eq!(g.rules[0].spec, vec!["a b".to_string(), "it's".to_string()]);
    let parser = EarleyParser::new(g);
    assert!(parser.parse(&vec!["a b".to_string(), "it's".to_string()]).is_ok());
}

#[test]
fn several_rules_are_read() {
    let g = grammar("a := b ; b := c | 'x' ; c := 'y' ;", "a").unwrap();
    let mut all = rules(&g);
    all.sort();
    assert_eq!(all, vec!["a -> b", "b -> c", "b -> x", "c -> y"]);
}

#[test]
fn a_group_becomes_a_symbol() {
    let g = grammar("s := 'a' ( 'b' | 'c' ) ;", "s").unwrap();
    let aux = "<Uniq-0>".to_string();
    let parser = EarleyParser::new(g);
    let mut all = rules(&parser.grammar);
    all.sort();
    assert_eq!(
        all,
        vec![format!("{} -> b", aux), format!("{} -> c", aux), format!("s -> a {}", aux)]
    );
    assert!(parser.parse(&words("a b")).is_ok());
    assert!(parser.parse(&words("a c")).is_ok());
    assert!(parser.parse(&words("a")).is_err());
}

#[test]
fn an_option_may_be_left_out() {
    let g = grammar("s := 'a' [ 'b' ] ;", "s").unwrap();
    let parser = EarleyParser::new(g);
    assert!(parser.parse(&words("a")).is_ok());
    assert!(parser.parse(&words("a b")).is_ok());
    assert!(parser.parse(&words("a b b")).is_err());
}

#[test]
fn a_repetition_may_go_on() {
    let g = grammar("s := 'a' { 'b' 'c' } ;", "s").unwrap();
    let parser = EarleyParser::new(g);
    assert!(parser.parse(&words("a")).is_ok());
    assert!(parser.parse(&words("a b c")).is_ok());
    assert!(parser.parse(&words("a b c b c b c")).is_ok());
    assert!(parser.parse(&words("a b c b")).is_err());
}

#[test]
fn tags_name_the_symbols_of_brackets() {
    let g = grammar("s := [ 'a' ] @opt { 'b' } @rep ( 'c' ) @grp ;", "s").unwrap();
    let mut all = rules(&g);
    all.sort();
    assert_eq!(
        all,
        vec![
            "@grp -> c",
            "@opt -> ",
            "@opt -> a",
            "@rep -> ",
            "@rep -> b @rep",
            "s -> @opt @rep @grp",
        ]
    );
    let parser = EarleyParser::new(g);
    assert!(parser.parse(&words("c")).is_ok());
    assert!(parser.parse(&words("a b b c")).is_ok());
}

#[test]
fn brackets_nest() {
    let g = grammar("s := { [ 'a' ( 'b' | { 'c' } ) ] 'd' } ;", "s").unwrap();
    let parser = EarleyParser::new(g);
    for text in ["", "d", "a d", "a b d", "a c c d d", "a b d a c d d"] {
        assert!(parser.parse(&words(text)).is_ok());
    }
    for text in ["a", "b d", "a b c d"] {
        assert!(parser.parse(&words(text)).is_err());
    }
}

#[test]
fn priorities_attach_to_the_alternative_before_them() {
    let g = grammar(PARENS, "expr").unwrap();
    assert_eq!(
        priorities(&g),
        vec![
            ("expr -> ( expr".to_string(), 1),
            ("expr -> ( expr )".to_string(), 10),
            ("expr -> expr )".to_string(), 1),
        ]
    );
}

#[test]
fn a_first_alternative_can_have_a_priority() {
    let g = grammar("s := 'a' @prio(7) | 'b' ;", "s").unwrap();
    assert_eq!(priorities(&g), vec![("s -> a".to_string(), 7)]);
    let g = grammar("s := 'a' @prio(2147483647) | 'b' @prio ( 007 ) | '99999999999' ;", "s").unwrap();
    assert_eq!(
        priorities(&g),
        vec![("s -> a".to_string(), 2147483647), ("s -> b".to_string(), 7)]
    );
}

#[test]
fn priorities_survive_brackets() {
    let g = grammar(
        "s := ( 'a' @prio(1) | 'b' ) @g [ 'c' | 'd' @prio(2) ] @o { 'e' @prio(3) } @r ;",
        "s",
    )
    .unwrap();
    assert_eq!(
        priorities(&g),
        vec![
            ("@g -> a".to_string(), 1),
            ("@o -> d".to_string(), 2),
            ("@r -> e @r".to_string(), 3),
        ]
    );
}

#[test]
fn priorities_disambiguate_end_to_end() {
    let g = grammar(PARENS, "expr").unwrap();
    let mut forest = writer(&g);
    let plain = writer(&g);
    forest.with_priorities_from(&g);
    let parser = EarleyParser::new(g);
    let trees = parser.parse(&words("( 1 )")).unwrap();
    assert_eq!(plain.eval_all(&trees).unwrap().len(), 3);
    assert_eq!(
        forest.eval_all(&trees),
        Ok(vec!["expr(( expr(1) ))".to_string()])
    );
    // Sums and products are as ambiguous as before, but the parentheses are not.
    let sum = parser.parse(&words("( 1 + 2 )")).unwrap();
    assert_eq!(
        forest.eval_all(&sum),
        Ok(vec!["expr(( expr(expr(1) + expr(2)) ))".to_string()])
    );
}

#[test]
fn priorities_of_the_grammar_replace_those_of_the_forest() {
    let g = grammar("s := a | b @prio(5) ; a := 'x' ; b := 'x' ;", "s").unwrap();
    let mut forest = writer(&g);
    forest.rule_priority("s -> b", -5).with_priorities_from(&g);
    let trees = EarleyParser::new(g).parse(&words("x")).unwrap();
    assert_eq!(forest.eval_all(&trees), Ok(vec!["s(b(x))".to_string()]));
}

#[test]
fn a_text_that_cannot_be_read_is_an_error() {
    let error = Some("Parse Error: No Rule completes".to_string());
    for text in [
        "",
        "s",
        "s := 'a'",
        "s := ;",
        "s := 'a' | ;",
        "s := 'a' @prio(x) ;",
        "s := 'a' @prio 1 ;",
        "s := @tag ;",
        "s := ( 'a' ;",
        "s := '' ;",
        "s := 'a ;",
        "s := a % b ;",
        "1 := 'a' ;",
    ] {
        assert_eq!(grammar(text, "s").err(), error);
    }
}

#[test]
fn a_start_symbol_must_exist() {
    assert_eq!(grammar("s := 'a' ;", "t").err(), Some("Missing Symbol: t".to_string()));
}

#[test]
fn a_very_long_text_takes_too_many_steps() {
    let mut text = String::new();
    for _ in 0..6300 {
        text.push_str("s := 'a' ; ");
    }
    assert_eq!(
        grammar(&text, "s").err(),
        Some("Bottomless grammar: eval_one exceeded max tree-walk steps 100000".to_string())
    );
}

#[test]
fn a_long_text_within_the_cap_is_read() {
    let mut text = String::new();
    for _ in 0..6000 {
        text.push_str("s := 'a' ; ");
    }
    text.push_str("s := s 'b' ; ");
    assert_eq!(rules(&grammar(&text, "s").unwrap()), vec!["s -> s b", "s -> a"]);
    let parser: EbnfGrammarParser<Pred> = EbnfGrammarParser::new(&text, "s");
    assert!(parser.try_into_grammar().is_ok());
}

#[test]
fn repeated_rules_and_alternatives_count_once() {
    let g = grammar("s := 'a' | 'a' ; s := 'a' ;", "s").unwrap();
    assert_eq!(rules(&g), vec!["s -> a"]);
}

#[test]
fn the_last_priority_of_a_rule_counts() {
    // Rules are taken from the last to the first, so the first one has the last word.
    let g = grammar("s := a @prio(1) | b ; s := a @prio(-1) ; a := 'x' ; b := 'x' ;", "s");
    assert!(g.is_err());
    let g = grammar("s := a @prio(1) | b ; s := a @prio(0) ; a := 'x' ; b := 'x' ;", "s").unwrap();
    let mut forest = writer(&g);
    forest.with_priorities_from(&g);
    let trees = EarleyParser::new(g).parse(&words("x")).unwrap();
    assert_eq!(forest.eval_all(&trees), Ok(vec!["s(a(x))".to_string()]));
}

#[test]
fn made_up_symbols_avoid_the_names_of_the_text() {
    let g = grammar("s := ( 'a' ) '<Uniq-0>' ;", "s").unwrap();
    let parser = EarleyParser::new(g);
    let mut all = rules(&parser.grammar);
    all.sort();
    assert_eq!(all, vec!["<Uniq-1> -> a", "s -> <Uniq-1> <Uniq-0>"]);
    assert!(parser.parse(&words("a <Uniq-0>")).is_ok());
}

#[test]
fn names_beyond_ascii_are_read() {
    let g = grammar("été_1 := 'x' ;", "été_1").unwrap();
    assert_eq!(rules(&g), vec!["été_1 -> x"]);
}

#[test]
fn an_expression_grammar_is_evaluated() {
    let g = grammar(
        r#"
        expr := term { '+' term } @more ;
        term := factor { '*' factor } @times ;
        factor := int | '(' expr ')' ;
        "#,
        "expr",
    )
    .unwrap();
    let forest = writer(&g);
    let trees = EarleyParser::new(g).parse(&words("1 + 2 * ( 3 + 4 )")).unwrap();
    let all = forest.eval_all(&trees).unwrap();
    assert_eq!(all.len(), 1);
    assert_eq!(forest.eval(&trees).unwrap(), all[0]);
}

#[test]
fn priorities_out_of_range_are_an_error_where_they_are_tested() {
    let tried = |text: &str| -> Result<Grammar<Pred>, String> {
        EbnfGrammarParser::new(text, "s").plug_terminal("int", digits as Pred).try_into_grammar()
    };
    let range = Some("Priority out of range".to_string());
    assert_eq!(tried("s := 'a' @prio(2147483648) ;").err(), range);
    assert_eq!(tried("s := 'a' | [ 'b' @prio(99999999999999999999999) ] ;").err(), range);
    let g = tried("s := 'a' @prio(2147483647) | '2147483648' ;").unwrap();
    assert_eq!(priorities(&g), vec![("s -> a".to_string(), 2147483647)]);
    assert_eq!(tried("s := ;").err(), Some("Parse Error: No Rule completes".to_string()));
    assert_eq!(tried("t := 'a' ;").err(), Some("Missing Symbol: s".to_string()));
}

#[test]
fn a_repetition_of_what_may_be_empty_is_an_error() {
    let g = grammar("s := { ( [ 'a' ] | [ 'b' ] ) } ;", "s").unwrap();
    let forest = writer(&g);
    let trees = EarleyParser::new(g).parse(&words("")).unwrap();
    let mut it = forest.eval_iter(&trees);
    let mut values = Vec::new();
    loop {
        match it.next() {
            Some(Ok(v)) => values.push(v),
            Some(Err(e)) => {
                assert_eq!(e, "Bottomless grammar: eval_one exceeded max tree-walk steps 100000");
                break;
            }
            None => panic!("it ends with an error"),
        }
    }
    assert_eq!(values.len(), 3);
    assert_eq!(it.next(), None);
    assert!(forest.eval_all(&trees).is_err());
    assert_eq!(forest.eval_capped(&trees, 3), Ok(values));
}

#[test]
fn no_rule_is_there_twice() {
    let g = grammar("s := ( 'a' ) @x { 'a' } @x [ 'a' ] @x | s | 'a' ; s := 'a' | s ;", "s").unwrap();
    let mut list = rules(&g);
    let count = list.len();
    list.sort();
    list.dedup();
    assert_eq!(list.len(), count);
}
