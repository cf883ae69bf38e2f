//! Grammars from their text.

use vstd::prelude::*;
use vstd::string::*;

use crate::canonical;
use crate::derivation::Tree;
use crate::ebnf_tokenizer;
use crate::grammar;
use crate::grammar::{BuilderModel, Grammar, GrammarBuilder, GrammarModel};
use crate::interpreter;
use crate::interpreter::Syntax;
use crate::language;
use crate::lexis::Matcher;
use crate::meaning;
use crate::notation;
use crate::parser::EarleyParser;
use crate::reading;
use crate::syntax;
use crate::text;
use crate::trees;
use crate::trees::EarleyForest;
use crate::unambiguous;

verus! {

/// The action makes a tree of the rule with number `rule`.
spec fn builds<A: Fn(Vec<Syntax>) -> Syntax>(action: A, rule: int) -> bool {
    &&& forall|args: Vec<Syntax>| #[trigger] call_requires(action, (args,))
    &&& forall|args: Vec<Syntax>, v: Syntax| #[trigger]
        call_ensures(action, (args,), v) ==> v == Syntax::Node(rule as usize, args)
}

/// The terminal parser makes a tree of the token.
spec fn keeps<L: Fn(&str, &str) -> Syntax>(lift: L) -> bool {
    &&& forall|a: &str, b: &str| #[trigger] call_requires(lift, (a, b))
    &&& forall|a: &str, b: &str, v: Syntax| #[trigger]
        call_ensures(lift, (a, b), v) ==> v.numbered() && v.tree() == (Tree::Leaf {
            symbol: a@,
            token: b@,
        })
}

/// The forest makes trees of the first `n` rules.
spec fn builds_first<L: Fn(&str, &str) -> Syntax, A: Fn(Vec<Syntax>) -> Syntax>(
    forest: EarleyForest<Syntax, L, A>,
    n: int,
) -> bool {
    &&& keeps(forest.lift())
    &&& forall|k: int|
        0 <= k < n ==> forest.action_map().contains_key(
            (#[trigger] syntax::productions()[k]).text(),
        ) && builds(forest.action_map()[syntax::productions()[k].text()], k)
}

/// What the forest makes of a syntax tree is that tree.
proof fn lemma_built<L: Fn(&str, &str) -> Syntax, A: Fn(Vec<Syntax>) -> Syntax>(
    forest: EarleyForest<Syntax, L, A>,
    tree: Tree,
    v: Syntax,
)
    requires
        builds_first(forest, syntax::productions().len() as int),
        syntax::well_formed(tree),
        forest.produces(tree, v, false),
    ensures
        v.tree() == tree,
        v.numbered(),
    decreases tree,
{
    match tree {
        Tree::Leaf { symbol, token } => {
            let (a, b) = choose|a: &str, b: &str|
                a@ == symbol && b@ == token && #[trigger] call_ensures(forest.lift(), (a, b), v);
            assert(call_ensures(forest.lift(), (a, b), v));
        },
        Tree::Node { rule, children } => {
            let j = syntax::productions().index_of(rule);
            assert(syntax::productions()[j] == rule);
            let action = forest.action_map()[rule.text()];
            assert(builds(action, j));
            let (raw, args) = choose|raw: Seq<Syntax>, args: Vec<Syntax>|
                {
                    &&& #[trigger] trees::passed(raw, args@, false)
                    &&& raw.len() == children.len()
                    &&& forall|k: int|
                        #![trigger children[k]]
                        0 <= k < children.len() ==> forest.produces(children[k], raw[k], false)
                    &&& call_ensures(action, (args,), v)
                };
            assert(call_ensures(action, (args,), v));
            assert(v == Syntax::Node(j as usize, args));
            assert forall|k: int| 0 <= k < children.len() implies (#[trigger] args@[k]).tree()
                == children[k] && args@[k].numbered() by {
                assert(raw[k] == args@[k]);
                assert(forest.produces(children[k], raw[k], false));
                lemma_built(forest, children[k], raw[k]);
            }
            syntax::lemma_distinct_productions();
            interpreter::lemma_tree(v, j as usize, args);
            assert(interpreter::trees_of(args@) =~= children);
        },
    }
}

/// Different rules of the notation have different canonical forms.
proof fn lemma_texts_differ(a: int, b: int)
    requires
        0 <= a < b < syntax::productions().len(),
    ensures
        syntax::productions()[a].text() != syntax::productions()[b].text(),
{
    let list = syntax::productions();
    syntax::lemma_distinct_productions();
    assert(list.contains(list[a]));
    assert(list.contains(list[b]));
    notation::lemma_in_words(list[a]);
    notation::lemma_in_words(list[b]);
    if list[a].text() == list[b].text() {
        canonical::law_canonical_form_is_unique(list[a], list[b]);
    }
}

/// With one more action the forest makes trees of one more rule.
proof fn lemma_builds_next<L: Fn(&str, &str) -> Syntax, A: Fn(Vec<Syntax>) -> Syntax>(
    before: EarleyForest<Syntax, L, A>,
    after: EarleyForest<Syntax, L, A>,
    k: int,
    action: A,
)
    requires
        builds_first(before, k),
        0 <= k < syntax::productions().len(),
        builds(action, k),
        after.lift() == before.lift(),
        after.action_map() == before.action_map().insert(
            syntax::productions()[k].text(),
            action,
        ),
    ensures
        builds_first(after, k + 1),
{
    assert forall|j: int| 0 <= j < k + 1 implies after.action_map().contains_key(
        (#[trigger] syntax::productions()[j]).text(),
    ) && builds(after.action_map()[syntax::productions()[j].text()], j) by {
        if j < k {
            lemma_texts_differ(j, k);
        }
    }
}

/// The message for a text that takes too many steps.
pub open spec fn too_long() -> Seq<char> {
    "Bottomless grammar: eval_one exceeded max tree-walk steps "@ + text::decimal(
        trees::MAX_EVAL_ONE_STEPS as nat,
    )
}

/// The notation has one parse at most, by any grammar that describes it.
proof fn lemma_one_parse<P: Fn(&str) -> bool>(g: GrammarModel<P>, tokens: Seq<Seq<char>>)
    requires
        notation::describes(g),
        reading::solid(tokens),
    ensures
        unambiguous::one_parse(g, tokens),
{
    assert forall|a: Tree, b: Tree| #[trigger]
        g.parses(tokens, a, false) && #[trigger] g.parses(tokens, b, false) implies a == b by {
        notation::lemma_yields(g, a, false);
        notation::lemma_yields(g, b, false);
        reading::law_one_reading(a, b, tokens);
    }
}

/// Reads the syntax tree of a list of tokens.
fn read_syntax<P: Fn(&str) -> bool>(tokens: &Vec<String>) -> (res: Result<Syntax, String>)
    requires
        reading::solid(text::views(tokens@)),
    ensures
        forall|tree: Tree| #[trigger]
            syntax::spells(tree, text::views(tokens@)) ==> if tree.steps()
                <= trees::MAX_EVAL_ONE_STEPS {
                res matches Ok(s) && s.tree() == tree && s.numbered()
            } else {
                res matches Err(msg) && msg@ == too_long()
            },
        (forall|tree: Tree| !#[trigger] syntax::spells(tree, text::views(tokens@))) ==> (
        res matches Err(msg) && msg@ == "Parse Error: No Rule completes"@),
{
    let ghost words = text::views(tokens@);
    let ebnf: Grammar<P> = notation::ebnf_grammar();
    let ghost g = ebnf@;
    let rules = grammar::copy_rules(&ebnf.rules);
    let parser = EarleyParser::new(ebnf);
    proof {
        syntax::lemma_distinct_productions();
        lemma_one_parse(g, words);
        assert(parser.askable(tokens@)) by {
            assert forall|k: int, name: Seq<char>|
                #![trigger tokens@[k], parser.grammar@.matcher(name)]
                0 <= k < tokens@.len() implies (parser.grammar@.matcher(name) matches Some(m)
                ==> m.askable(tokens@[k]@)) by {
                let n = syntax::symbols().len() as int;
                assert(syntax::symbols().take(n) =~= syntax::symbols());
                syntax::lemma_symbols();
                syntax::lemma_names();
                notation::lemma_find_symbol(g.symbols, n, name);
            }
        }
        assert forall|tree: Tree| #[trigger]
            syntax::spells(tree, words) implies g.parses(words, tree, true) && g.parses(
            words,
            tree,
            false,
        ) by {
            notation::lemma_yields(g, tree, true);
            notation::lemma_yields(g, tree, false);
        }
    }
    let ptrees = match parser.parse(tokens) {
        Ok(ptrees) => ptrees,
        Err(e) => {
            return Err(e);
        },
    };
    let lift = |symbol: &str, token: &str| -> (s: Syntax)
        ensures
            s.numbered(),
            s.tree() == (Tree::Leaf { symbol: symbol@, token: token@ }),
        { Syntax::Leaf(symbol.to_owned(), token.to_owned()) };
    let mut forest = EarleyForest::new(lift);
    let mut k: usize = 0;
    while k < rules.len()
        invariant
            k <= rules@.len(),
            grammar::rule_views(rules@) == syntax::productions(),
            rules@.len() == syntax::productions().len(),
            builds_first(forest, k as int),
            forest.priority_map() == Map::<Seq<char>, i32>::empty(),
            forest.step_limit() == trees::MAX_EVAL_ONE_STEPS,
        decreases rules.len() - k,
    {
        let ghost before = forest;
        let name = rules[k].to_string();
        let action = move |children: Vec<Syntax>| -> (s: Syntax)
            ensures
                s == Syntax::Node(k, children),
            { Syntax::Node(k, children) };
        forest.action(name.as_str(), action);
        proof {
            assert(name@ == syntax::productions()[k as int].text()) by {
                assert(grammar::rule_views(rules@)[k as int] == rules@[k as int]@);
            }
            assert(builds(action, k as int));
            lemma_builds_next(before, forest, k as int, action);
        }
        k = k + 1;
    }
    let ghost chart = ptrees@;
    proof {
        assert(builds_first(forest, syntax::productions().len() as int));
        lemma_evaluable(forest, chart, g, words);
    }
    let found = forest.eval_all(&ptrees);
    proof {
        let setup = forest.setup(chart);
        let root = chart.roots[0];
        assert(chart.roots.contains(root));
        let children = language::lemma_derives_some(chart, root);
        language::law_chart_is_sound(chart, g, words, root, children);
        let tree = Tree::Node { rule: chart.items[root].rule, children };
        notation::lemma_yields(g, tree, false);
        assert(syntax::spells(tree, words));
        assert(unambiguous::all_known(g, setup.known)) by {
            assert forall|r: int| 0 <= r < g.rules.len() implies setup.known.contains(
                (#[trigger] g.rules[r]).text(),
            ) by {
                assert(forest.action_map().contains_key(syntax::productions()[r].text()));
            }
        }
        unambiguous::law_one_parse_one_outcome(setup, g, words, tree);
        assert forall|other: Tree| #[trigger] syntax::spells(other, words) implies other == tree by {
            assert(g.parses(words, other, false));
        }
        let list = forest.outcomes(chart);
        if tree.steps() <= trees::MAX_EVAL_ONE_STEPS {
            assert(list.len() == 1);
            assert(list[0] == Ok::<Tree, crate::derivation::Fault>(tree));
            assert(!crate::enumeration::cut_short(list));
            let values = found->Ok_0;
            assert(forest.produces(tree, values@[0], false));
            lemma_built(forest, tree, values@[0]);
        } else {
            assert(list.last() == Err::<Tree, crate::derivation::Fault>(
                crate::derivation::Fault::OutOfSteps,
            ));
            assert(crate::enumeration::cut_short(list));
        }
    }
    match found {
        Ok(values) => {
            let mut values = values;
            Ok(values.swap_remove(0))
        },
        Err(e) => Err(e),
    }
}

/// The forest can be evaluated on any chart of the notation.
proof fn lemma_evaluable<
    P: Fn(&str) -> bool,
    L: Fn(&str, &str) -> Syntax,
    A: Fn(Vec<Syntax>) -> Syntax,
>(
    forest: EarleyForest<Syntax, L, A>,
    chart: crate::spans::Chart,
    g: GrammarModel<P>,
    tokens: Seq<Seq<char>>,
)
    requires
        builds_first(forest, syntax::productions().len() as int),
        language::charts(chart, g, tokens),
        g.rules == syntax::productions(),
    ensures
        forest.evaluable(chart, false),
{
    assert forall|i: int, list: Seq<Tree>, raw: Seq<Syntax>, args: Vec<Syntax>|
        #![trigger crate::derivation::derives(chart, i, list), trees::passed(raw, args@, false)]
        {
            &&& 0 <= i < chart.items.len()
            &&& chart.items[i].complete()
            &&& crate::derivation::derives(chart, i, list)
            &&& forest.action_map().contains_key(chart.items[i].rule.text())
            &&& forest.produces_all(list, raw, false)
            &&& trees::passed(raw, args@, false)
        } implies call_requires(forest.action_map()[chart.items[i].rule.text()], (args,)) by {
        assert(language::item_supported(chart.items, g, tokens, i));
        let rule = chart.items[i].rule;
        let j = g.rules.index_of(rule);
        assert(syntax::productions()[j] == rule);
        assert(builds(forest.action_map()[rule.text()], j));
    }
}

/// Makes a grammar from its text, with terminals that are plugged in.
pub struct EbnfGrammarParser<P> {
    start: String,
    grammar: String,
    grammar_builder: GrammarBuilder<P>,
}

impl<P: Fn(&str) -> bool> EbnfGrammarParser<P> {
    /// The name of the start symbol.
    pub closed spec fn start(self) -> Seq<char> {
        self.start@
    }

    /// The text of the grammar.
    pub closed spec fn source(self) -> Seq<char> {
        self.grammar@
    }

    /// The terminals that have been plugged in.
    pub closed spec fn builder(self) -> BuilderModel<P> {
        self.grammar_builder@
    }

    /// The tokens of the text.
    pub open spec fn tokens(self) -> Seq<Seq<char>> {
        ebnf_tokenizer::tokens_of(self.source())
    }

    /// What is read is the whole text, and what is too long is what takes more steps than a walk may
    /// by default.
    pub proof fn law_the_whole_text_is_read(self)
        ensures
            self.tokens() == ebnf_tokenizer::tokens_of(self.source()),
            too_long() == "Bottomless grammar: eval_one exceeded max tree-walk steps "@
                + text::decimal(100_000),
            trees::MAX_EVAL_ONE_STEPS == 100_000,
    {
    }

    /// Takes the text of a grammar, to be read when the terminals have been plugged in.
    pub fn new(grammar: &str, start: &str) -> (parser: Self)
        ensures
            parser.source() == grammar@,
            parser.start() == start@,
            parser.builder() == BuilderModel::<P>::blank(),
    {
        EbnfGrammarParser {
            start: start.to_owned(),
            grammar: grammar.to_owned(),
            grammar_builder: GrammarBuilder::new(),
        }
    }

    /// Plugs in the predicate for a terminal. The first one of a name stays.
    pub fn plug_terminal(self, name: &str, pred: P) -> (parser: Self)
        ensures
            parser.source() == self.source(),
            parser.start() == self.start(),
            parser.builder() == self.builder().with_symbol(
                name@,
                grammar::Kind::Terminal(crate::lexis::MatcherModel::Plugged(pred)),
            ),
    {
        let mut parser = self;
        parser.grammar_builder.terminal_try(name, Matcher::Plugged(pred));
        parser
    }

    /// Makes the grammar that the text describes, where the priorities in it are in range, and
    /// reports an error where they are not.
    pub fn try_into_grammar(self) -> (res: Result<Grammar<P>, String>)
        ensures
            forall|tree: Tree| #[trigger]
                syntax::spells(tree, self.tokens()) ==> if tree.steps()
                    > trees::MAX_EVAL_ONE_STEPS {
                    res matches Err(msg) && msg@ == too_long()
                } else if !meaning::numbers_fit(tree) {
                    res matches Err(msg) && msg@ == "Priority out of range"@
                } else {
                    match meaning::meaning(self.builder(), tree).0.finished(self.start()) {
                        Ok(model) => res matches Ok(grammar) && grammar@ == model,
                        Err(text) => res matches Err(msg) && msg@ == text,
                    }
                },
            (forall|tree: Tree| !#[trigger] syntax::spells(tree, self.tokens())) ==> (
            res matches Err(msg) && msg@ == "Parse Error: No Rule completes"@),
            res matches Ok(grammar) ==> grammar@.rules.no_duplicates(),
    {
        let tokens = ebnf_tokenizer::tokenize(self.grammar.as_str());
        let syntax_tree = match read_syntax::<P>(&tokens) {
            Ok(tree) => tree,
            Err(e) => {
                return Err(e);
            },
        };
        proof {
            if forall|tree: Tree| !#[trigger] syntax::spells(tree, self.tokens()) {
                assert(false);
            }
            let tree = choose|tree: Tree| #[trigger] syntax::spells(tree, self.tokens());
            assert(syntax_tree.tree() == tree);
            assert forall|other: Tree| #[trigger]
                syntax::spells(other, self.tokens()) implies other == tree by {
                reading::law_one_reading(other, tree, self.tokens());
            }
        }
        if !interpreter::numbers_fit(syntax_tree) {
            return Err("Priority out of range".to_owned());
        }
        self.into_grammar()
    }

    /// Makes the grammar that the text describes.
    pub fn into_grammar(self) -> (res: Result<Grammar<P>, String>)
        requires
            forall|tree: Tree| #[trigger]
                syntax::spells(tree, self.tokens()) && tree.steps() <= trees::MAX_EVAL_ONE_STEPS
                    ==> meaning::numbers_fit(tree),
        ensures
            forall|tree: Tree| #[trigger]
                syntax::spells(tree, self.tokens()) ==> if tree.steps()
                    <= trees::MAX_EVAL_ONE_STEPS {
                    match meaning::meaning(self.builder(), tree).0.finished(self.start()) {
                        Ok(model) => res matches Ok(grammar) && grammar@ == model,
                        Err(text) => res matches Err(msg) && msg@ == text,
                    }
                } else {
                    res matches Err(msg) && msg@ == too_long()
                },
            (forall|tree: Tree| !#[trigger] syntax::spells(tree, self.tokens())) ==> (
            res matches Err(msg) && msg@ == "Parse Error: No Rule completes"@),
            res matches Ok(grammar) ==> grammar@.rules.no_duplicates(),
    {
        let tokens = ebnf_tokenizer::tokenize(self.grammar.as_str());
        let mut grammar_builder = self.grammar_builder;
        let syntax_tree = match read_syntax::<P>(&tokens) {
            Ok(tree) => tree,
            Err(e) => {
                return Err(e);
            },
        };
        proof {
            if forall|tree: Tree| !#[trigger] syntax::spells(tree, self.tokens()) {
                assert(false);
            }
            let tree = choose|tree: Tree| #[trigger] syntax::spells(tree, self.tokens());
            assert(syntax_tree.tree() == tree);
        }
        interpreter::interpret(&mut grammar_builder, syntax_tree);
        grammar_builder.into_grammar(self.start.as_str())
    }
}

} // verus!
