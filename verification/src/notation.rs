//! The grammar of the notation in which grammars are written.

use vstd::prelude::*;

use crate::canonical;
use crate::derivation::Tree;
use crate::grammar;
use crate::grammar::{BuilderModel, Grammar, GrammarBuilder, GrammarModel, Kind, RuleModel};
use crate::lexis::{Matcher, MatcherModel};
use crate::rewriting;
use crate::syntax;

verus! {

/// The symbol `name` is of this kind.
pub open spec fn kind_fits<P>(name: Seq<char>, kind: Kind<P>) -> bool {
    if syntax::category(name) {
        kind is NonTerm
    } else if name == "<Id>"@ {
        kind == Kind::<P>::Terminal(MatcherModel::Name)
    } else if name == "<Chars>"@ {
        kind == Kind::<P>::Terminal(MatcherModel::Text)
    } else if name == "@<Tag>"@ {
        kind == Kind::<P>::Terminal(MatcherModel::Tag)
    } else if name == "<Num>"@ {
        kind == Kind::<P>::Terminal(MatcherModel::Digits)
    } else {
        kind == Kind::<P>::Terminal(MatcherModel::Exactly(name))
    }
}

/// The first `k` symbols of the notation, and no others.
pub open spec fn holds_symbols<P>(list: Seq<(Seq<char>, Kind<P>)>, k: int) -> bool {
    &&& list.len() == k
    &&& forall|j: int|
        0 <= j < k ==> (#[trigger] list[j]).0 == syntax::symbols()[j] && kind_fits(
            list[j].0,
            list[j].1,
        )
}

/// The grammar of the notation.
pub open spec fn describes<P>(g: GrammarModel<P>) -> bool {
    &&& g.start == "<RuleList>"@
    &&& holds_symbols(g.symbols, syntax::symbols().len() as int)
    &&& g.rules == syntax::productions()
    &&& g.priorities == Map::<Seq<char>, i32>::empty()
}

/// The builder holds the first `k` symbols of the notation.
spec fn has_symbols<P>(b: BuilderModel<P>, k: int) -> bool {
    &&& b.error is None
    &&& b.rules.len() == 0
    &&& b.priorities == Map::<Seq<char>, i32>::empty()
    &&& holds_symbols(b.symbols, k)
}

/// The builder holds the symbols and the first `k` rules of the notation.
spec fn has_rules<P>(b: BuilderModel<P>, k: int) -> bool {
    &&& b.error is None
    &&& b.priorities == Map::<Seq<char>, i32>::empty()
    &&& holds_symbols(b.symbols, syntax::symbols().len() as int)
    &&& b.rules == syntax::productions().take(k)
}

/// A symbol is found where it stands first.
pub proof fn lemma_find_at<P>(list: Seq<(Seq<char>, Kind<P>)>, k: int)
    requires
        0 <= k < list.len(),
        forall|j: int| 0 <= j < k ==> (#[trigger] list[j]).0 != list[k].0,
    ensures
        grammar::find(list, list[k].0) == Some(list[k].1),
    decreases k,
{
    if k > 0 {
        let rest = list.drop_first();
        assert(list[0].0 != list[k].0);
        assert(rest[k - 1] == list[k]);
        assert forall|j: int| 0 <= j < k - 1 implies (#[trigger] rest[j]).0 != rest[k - 1].0 by {
            assert(rest[j] == list[j + 1]);
        }
        lemma_find_at(rest, k - 1);
    }
}

/// A symbol that stands nowhere is not found.
proof fn lemma_find_none<P>(list: Seq<(Seq<char>, Kind<P>)>, name: Seq<char>)
    requires
        forall|j: int| 0 <= j < list.len() ==> (#[trigger] list[j]).0 != name,
    ensures
        grammar::find(list, name) is None,
    decreases list.len(),
{
    if list.len() > 0 {
        let rest = list.drop_first();
        assert(list[0].0 != name);
        assert forall|j: int| 0 <= j < rest.len() implies (#[trigger] rest[j]).0 != name by {
            assert(rest[j] == list[j + 1]);
        }
        lemma_find_none(rest, name);
    }
}

/// Which symbols the notation has, and of what kind they are.
pub proof fn lemma_find_symbol<P>(list: Seq<(Seq<char>, Kind<P>)>, k: int, name: Seq<char>)
    requires
        0 <= k <= syntax::symbols().len(),
        holds_symbols(list, k),
    ensures
        syntax::symbols().take(k).contains(name) ==> (grammar::find(list, name) matches Some(kind)
            && kind_fits(name, kind)),
        !syntax::symbols().take(k).contains(name) ==> grammar::find(list, name) is None,
{
    let all = syntax::symbols();
    let some = all.take(k);
    syntax::lemma_symbols();
    if some.contains(name) {
        let j = some.index_of(name);
        assert(some[j] == name);
        assert(list[j].0 == all[j]);
        assert forall|m: int| 0 <= m < j implies (#[trigger] list[m]).0 != list[j].0 by {
            assert(list[m].0 == all[m]);
            assert(all[m] != all[j]);
        }
        lemma_find_at(list, j);
    } else {
        assert forall|j: int| 0 <= j < list.len() implies (#[trigger] list[j]).0 != name by {
            assert(some[j] == all[j]);
        }
        lemma_find_none(list, name);
    }
}

/// Adds the next symbol of the notation.
proof fn lemma_next_symbol<P>(b: BuilderModel<P>, k: int, name: Seq<char>, kind: Kind<P>)
    requires
        has_symbols(b, k),
        0 <= k < syntax::symbols().len(),
        name == syntax::symbols()[k],
        kind_fits(name, kind),
    ensures
        !b.has(name),
        has_symbols(b.with_symbol(name, kind), k + 1),
{
    let all = syntax::symbols();
    syntax::lemma_symbols();
    lemma_find_symbol(b.symbols, k, name);
    if all.take(k).contains(name) {
        let j = all.take(k).index_of(name);
        assert(all.take(k)[j] == name);
        assert(all[j] == all[k]);
    }
    let more = b.symbols.push((name, kind));
    assert forall|j: int| 0 <= j < k + 1 implies (#[trigger] more[j]).0 == all[j] && kind_fits(
        more[j].0,
        more[j].1,
    ) by {
        if j < k {
            assert(more[j] == b.symbols[j]);
        }
    }
}

/// The symbols of a rule of the notation are symbols of the notation.
proof fn lemma_rule_symbols(rule: RuleModel, j: int)
    requires
        syntax::productions().contains(rule),
        0 <= j < rule.spec.len(),
    ensures
        syntax::symbols().contains(rule.spec[j]),
        syntax::symbols().contains(rule.head),
{
    syntax::lemma_productions(rule);
    syntax::lemma_symbols();
}

/// Adds the next rule of the notation.
proof fn lemma_next_rule<P>(b: BuilderModel<P>, k: int, rule: RuleModel)
    requires
        has_rules(b, k),
        0 <= k < syntax::productions().len(),
        rule == syntax::productions()[k],
    ensures
        grammar::missing(b.symbols, seq![rule.head] + rule.spec) is None,
        !b.rules.contains(rule),
        has_rules(b.with_rule(rule), k + 1),
{
    let all = syntax::productions();
    let names = seq![rule.head] + rule.spec;
    assert(all.contains(rule));
    syntax::lemma_productions(rule);
    syntax::lemma_distinct_productions();
    let n = syntax::symbols().len() as int;
    assert(syntax::symbols().take(n) =~= syntax::symbols());
    assert forall|j: int| 0 <= j < names.len() implies grammar::find(
        b.symbols,
        #[trigger] names[j],
    ) is Some by {
        if j > 0 {
            lemma_rule_symbols(rule, j - 1);
        } else {
            lemma_rule_symbols(rule, 0);
        }
        lemma_find_symbol(b.symbols, n, names[j]);
    }
    grammar::lemma_none_missing(b.symbols, names);
    if b.rules.contains(rule) {
        let j = b.rules.index_of(rule);
        assert(all.take(k)[j] == rule);
        assert(all[j] == all[k]);
    }
    assert(all.take(k).push(rule) =~= all.take(k + 1));
}

/// Adds a symbol that stands for itself.
fn add_mark<P>(b: GrammarBuilder<P>, name: &str, Ghost(k): Ghost<int>) -> (res: GrammarBuilder<P>)
    requires
        has_symbols(b@, k),
        0 <= k < syntax::symbols().len(),
        name@ == syntax::symbols()[k],
        syntax::mark(name@),
    ensures
        has_symbols(res@, k + 1),
{
    let matcher: Matcher<P> = Matcher::Exactly(name.to_owned());
    proof {
        syntax::lemma_names();
        lemma_next_symbol(b@, k, name@, Kind::Terminal(matcher@));
    }
    b.terminal_with(name, matcher)
}

/// Adds a symbol that stands for a class of tokens.
fn add_class<P>(
    b: GrammarBuilder<P>,
    name: &str,
    matcher: Matcher<P>,
    Ghost(k): Ghost<int>,
) -> (res: GrammarBuilder<P>)
    requires
        has_symbols(b@, k),
        0 <= k < syntax::symbols().len(),
        name@ == syntax::symbols()[k],
        kind_fits(name@, Kind::Terminal(matcher@)),
    ensures
        has_symbols(res@, k + 1),
{
    proof {
        lemma_next_symbol(b@, k, name@, Kind::Terminal(matcher@));
    }
    b.terminal_with(name, matcher)
}

/// Adds a category.
fn add_category<P>(b: GrammarBuilder<P>, name: &str, Ghost(k): Ghost<int>) -> (res: GrammarBuilder<P>)
    requires
        has_symbols(b@, k),
        0 <= k < syntax::symbols().len(),
        name@ == syntax::symbols()[k],
        syntax::category(name@),
    ensures
        has_symbols(res@, k + 1),
{
    proof {
        lemma_next_symbol(b@, k, name@, Kind::NonTerm);
    }
    b.nonterm(name)
}

/// Adds a rule.
fn add_production<P>(
    b: GrammarBuilder<P>,
    head: &str,
    spec: &[&str],
    Ghost(k): Ghost<int>,
) -> (res: GrammarBuilder<P>)
    requires
        has_rules(b@, k),
        0 <= k < syntax::productions().len(),
        syntax::productions()[k].head == head@,
        syntax::productions()[k].spec =~= grammar::name_views(spec@),
    ensures
        has_rules(res@, k + 1),
{
    proof {
        lemma_next_rule(b@, k, grammar::rule_of(head@, spec@));
    }
    b.rule(head, spec)
}

/// The symbols of the notation.
fn ebnf_symbols<P>() -> (b: GrammarBuilder<P>)
    ensures
        has_symbols(b@, syntax::symbols().len() as int),
{
    proof {
        syntax::lemma_names();
        syntax::lemma_symbols();
    }
    let b: GrammarBuilder<P> = GrammarBuilder::new();
    let b = add_class(b, "<Id>", Matcher::Name, Ghost(0));
    let b = add_class(b, "<Chars>", Matcher::Text, Ghost(1));
    // `@prio` is consumed by the priority annotation, not by the generic tag.
    let b = add_class(b, "@<Tag>", Matcher::Tag, Ghost(2));
    let b = add_mark(b, "@prio", Ghost(3));
    let b = add_class(b, "<Num>", Matcher::Digits, Ghost(4));
    let b = add_mark(b, ":=", Ghost(5));
    let b = add_mark(b, ";", Ghost(6));
    let b = add_mark(b, "[", Ghost(7));
    let b = add_mark(b, "]", Ghost(8));
    let b = add_mark(b, "{", Ghost(9));
    let b = add_mark(b, "}", Ghost(10));
    let b = add_mark(b, "(", Ghost(11));
    let b = add_mark(b, ")", Ghost(12));
    let b = add_mark(b, "|", Ghost(13));
    let b = add_mark(b, "'", Ghost(14));
    let b = add_mark(b, "\"", Ghost(15));
    let b = add_category(b, "<RuleList>", Ghost(16));
    let b = add_category(b, "<Rule>", Ghost(17));
    let b = add_category(b, "<VariantList>", Ghost(18));
    let b = add_category(b, "<Variant>", Ghost(19));
    let b = add_category(b, "<Atom>", Ghost(20));
    b
}

/// The rules of the notation, on top of its symbols.
fn ebnf_rules<P>(b: GrammarBuilder<P>) -> (res: GrammarBuilder<P>)
    requires
        has_symbols(b@, syntax::symbols().len() as int),
    ensures
        has_rules(res@, syntax::productions().len() as int),
{
    proof {
        syntax::lemma_distinct_productions();
        assert(b@.rules =~= syntax::productions().take(0));
    }
    let b = add_production(b, "<RuleList>", &["<RuleList>", "<Rule>"], Ghost(0));
    let b = add_production(b, "<RuleList>", &["<Rule>"], Ghost(1));
    let b = add_production(b, "<Rule>", &["<Id>", ":=", "<VariantList>", ";"], Ghost(2));
    let b = add_production(b, "<VariantList>", &["<VariantList>", "|", "<Variant>"], Ghost(3));
    let b = add_production(
        b,
        "<VariantList>",
        &["<VariantList>", "|", "<Variant>", "@prio", "(", "<Num>", ")"],
        Ghost(4),
    );
    let b = add_production(b, "<VariantList>", &["<Variant>"], Ghost(5));
    let b = add_production(
        b,
        "<VariantList>",
        &["<Variant>", "@prio", "(", "<Num>", ")"],
        Ghost(6),
    );
    let b = add_production(b, "<Variant>", &["<Variant>", "<Atom>"], Ghost(7));
    let b = add_production(b, "<Variant>", &["<Atom>"], Ghost(8));
    let b = add_production(b, "<Atom>", &["<Id>"], Ghost(9));
    let b = add_production(b, "<Atom>", &["'", "<Chars>", "'"], Ghost(10));
    let b = add_production(b, "<Atom>", &["\"", "<Chars>", "\""], Ghost(11));
    let b = add_production(b, "<Atom>", &["[", "<VariantList>", "]"], Ghost(12));
    let b = add_production(b, "<Atom>", &["{", "<VariantList>", "}"], Ghost(13));
    let b = add_production(b, "<Atom>", &["(", "<VariantList>", ")"], Ghost(14));
    let b = add_production(b, "<Atom>", &["[", "<VariantList>", "]", "@<Tag>"], Ghost(15));
    let b = add_production(b, "<Atom>", &["{", "<VariantList>", "}", "@<Tag>"], Ghost(16));
    let b = add_production(b, "<Atom>", &["(", "<VariantList>", ")", "@<Tag>"], Ghost(17));
    b
}

/// The grammar of the notation.
pub fn ebnf_grammar<P>() -> (g: Grammar<P>)
    ensures
        describes(g@),
{
    let b = ebnf_rules(ebnf_symbols::<P>());
    proof {
        let n = syntax::symbols().len() as int;
        syntax::lemma_symbols();
        assert(syntax::symbols().take(n) =~= syntax::symbols());
        lemma_find_symbol(b@.symbols, n, "<RuleList>"@);
        assert(syntax::symbols().contains("<RuleList>"@));
        let rules = syntax::productions();
        assert(rules.take(rules.len() as int) =~= rules);
    }
    match b.into_grammar("<RuleList>") {
        Ok(g) => g,
        Err(_) => {
            vstd::pervasive::unreached()
        },
    }
}

/// What the grammar of the notation yields are the syntax trees of the notation.
pub proof fn lemma_yields<P: Fn(&str) -> bool>(g: GrammarModel<P>, tree: Tree, sure: bool)
    requires
        describes(g),
    ensures
        g.yields(tree, sure) == syntax::well_formed(tree),
    decreases tree,
{
    let n = syntax::symbols().len() as int;
    assert(syntax::symbols().take(n) =~= syntax::symbols());
    syntax::lemma_symbols();
    syntax::lemma_names();
    match tree {
        Tree::Leaf { symbol, token } => {
            lemma_find_symbol(g.symbols, n, symbol);
            if syntax::mark(symbol) {
                assert(g.reads(symbol, token, sure) == (token == symbol));
            }
        },
        Tree::Node { rule, children } => {
            assert forall|k: int| 0 <= k < children.len() implies g.yields(
                #[trigger] children[k],
                sure,
            ) == syntax::well_formed(children[k]) && (children.len() == rule.spec.len() ==> (
            g.is_nonterm(rule.spec[k]) <==> syntax::category(rule.spec[k]))) by {
                lemma_yields(g, children[k], sure);
                lemma_find_symbol(g.symbols, n, rule.spec[k]);
            }
        },
    }
}

/// A text is read as the grammar of the notation says, however long it is: its syntax trees are the
/// derivation trees of its tokens, and there is one exactly where the tokens are in the language.
pub proof fn law_texts_are_read_by_the_notation<P: Fn(&str) -> bool>(
    g: GrammarModel<P>,
    tree: Tree,
    tokens: Seq<Seq<char>>,
)
    requires
        describes(g),
    ensures
        syntax::spells(tree, tokens) <==> g.parses(tokens, tree, true),
        syntax::spells(tree, tokens) <==> g.parses(tokens, tree, false),
        (exists|t: Tree| #[trigger] syntax::spells(t, tokens)) <==> rewriting::in_language(
            g,
            tokens,
            true,
        ),
{
    lemma_yields(g, tree, true);
    lemma_yields(g, tree, false);
    rewriting::law_trees_are_rewritings(g, tokens, true);
    if exists|t: Tree| #[trigger] syntax::spells(t, tokens) {
        let t = choose|t: Tree| #[trigger] syntax::spells(t, tokens);
        lemma_yields(g, t, true);
        assert(g.parses(tokens, t, true));
    }
    if rewriting::in_language(g, tokens, true) {
        let t = choose|t: Tree| #[trigger] g.parses(tokens, t, true);
        lemma_yields(g, t, true);
        assert(syntax::spells(t, tokens));
    }
}

/// The grammar of the notation, rule by rule and symbol by symbol.
pub proof fn law_the_grammar_of_the_notation<P>(g: GrammarModel<P>, name: Seq<char>)
    requires
        describes(g),
    ensures
        g.start == "<RuleList>"@,
        g.rules == seq![
            RuleModel { head: "<RuleList>"@, spec: seq!["<RuleList>"@, "<Rule>"@] },
            RuleModel { head: "<RuleList>"@, spec: seq!["<Rule>"@] },
            RuleModel { head: "<Rule>"@, spec: seq!["<Id>"@, ":="@, "<VariantList>"@, ";"@] },
            RuleModel {
                head: "<VariantList>"@,
                spec: seq!["<VariantList>"@, "|"@, "<Variant>"@],
            },
            RuleModel {
                head: "<VariantList>"@,
                spec: seq!["<VariantList>"@, "|"@, "<Variant>"@, "@prio"@, "("@, "<Num>"@, ")"@],
            },
            RuleModel { head: "<VariantList>"@, spec: seq!["<Variant>"@] },
            RuleModel {
                head: "<VariantList>"@,
                spec: seq!["<Variant>"@, "@prio"@, "("@, "<Num>"@, ")"@],
            },
            RuleModel { head: "<Variant>"@, spec: seq!["<Variant>"@, "<Atom>"@] },
            RuleModel { head: "<Variant>"@, spec: seq!["<Atom>"@] },
            RuleModel { head: "<Atom>"@, spec: seq!["<Id>"@] },
            RuleModel { head: "<Atom>"@, spec: seq!["'"@, "<Chars>"@, "'"@] },
            RuleModel { head: "<Atom>"@, spec: seq!["\""@, "<Chars>"@, "\""@] },
            RuleModel { head: "<Atom>"@, spec: seq!["["@, "<VariantList>"@, "]"@] },
            RuleModel { head: "<Atom>"@, spec: seq!["{"@, "<VariantList>"@, "}"@] },
            RuleModel { head: "<Atom>"@, spec: seq!["("@, "<VariantList>"@, ")"@] },
            RuleModel { head: "<Atom>"@, spec: seq!["["@, "<VariantList>"@, "]"@, "@<Tag>"@] },
            RuleModel { head: "<Atom>"@, spec: seq!["{"@, "<VariantList>"@, "}"@, "@<Tag>"@] },
            RuleModel { head: "<Atom>"@, spec: seq!["("@, "<VariantList>"@, ")"@, "@<Tag>"@] },
        ],
        name == "<RuleList>"@ || name == "<Rule>"@ || name == "<VariantList>"@ || name
            == "<Variant>"@ || name == "<Atom>"@ ==> rewriting::is_kind(g, name, Kind::NonTerm),
        name == "<Id>"@ ==> rewriting::is_kind(g, name, Kind::Terminal(MatcherModel::Name)),
        name == "<Chars>"@ ==> rewriting::is_kind(g, name, Kind::Terminal(MatcherModel::Text)),
        name == "@<Tag>"@ ==> rewriting::is_kind(g, name, Kind::Terminal(MatcherModel::Tag)),
        name == "<Num>"@ ==> rewriting::is_kind(g, name, Kind::Terminal(MatcherModel::Digits)),
        name == "@prio"@ || name == ":="@ || name == ";"@ || name == "["@ || name == "]"@ || name
            == "{"@ || name == "}"@ || name == "("@ || name == ")"@ || name == "|"@ || name == "'"@
            || name == "\""@ ==> rewriting::is_kind(
            g,
            name,
            Kind::Terminal(MatcherModel::Exactly(name)),
        ),
{
    let n = syntax::symbols().len() as int;
    assert(syntax::symbols().take(n) =~= syntax::symbols());
    syntax::lemma_symbols();
    syntax::lemma_names();
    assert(syntax::symbols().contains(name) <==> syntax::category(name) || syntax::mark(name)
        || name == "<Id>"@ || name == "<Chars>"@ || name == "@<Tag>"@ || name == "<Num>"@);
    lemma_find_symbol(g.symbols, n, name);
    if let Some(kind) = grammar::find(g.symbols, name) {
        rewriting::law_the_first_of_a_name_is_found(g, name, kind);
    }
}

/// The symbols of the notation are words.
proof fn lemma_words()
    ensures
        canonical::word("<RuleList>"@),
        canonical::word("<Rule>"@),
        canonical::word("<VariantList>"@),
        canonical::word("<Variant>"@),
        canonical::word("<Atom>"@),
        canonical::word("<Id>"@),
        canonical::word("<Chars>"@),
        canonical::word("@<Tag>"@),
        canonical::word("<Num>"@),
        canonical::word("@prio"@),
        canonical::word(":="@),
        canonical::word(";"@),
        canonical::word("["@),
        canonical::word("]"@),
        canonical::word("{"@),
        canonical::word("}"@),
        canonical::word("("@),
        canonical::word(")"@),
        canonical::word("|"@),
        canonical::word("'"@),
        canonical::word("\""@),
{
    reveal_strlit("<RuleList>");
    reveal_strlit("<Rule>");
    reveal_strlit("<VariantList>");
    reveal_strlit("<Variant>");
    reveal_strlit("<Atom>");
    reveal_strlit("<Id>");
    reveal_strlit("<Chars>");
    reveal_strlit("@<Tag>");
    reveal_strlit("<Num>");
    reveal_strlit("@prio");
    reveal_strlit(":=");
    reveal_strlit(";");
    reveal_strlit("[");
    reveal_strlit("]");
    reveal_strlit("{");
    reveal_strlit("}");
    reveal_strlit("(");
    reveal_strlit(")");
    reveal_strlit("|");
    reveal_strlit("'");
    reveal_strlit("\"");
    assert forall|k: int| 0 <= k < 10 implies #[trigger] "<RuleList>"@[k] != ' ' by {
        assert(k == 0 || k == 1 || k == 2 || k == 3 || k == 4 || k == 5 || k == 6 || k == 7 || k == 8 || k == 9);
    }
    assert forall|k: int| 0 <= k < 6 implies #[trigger] "<Rule>"@[k] != ' ' by {
        assert(k == 0 || k == 1 || k == 2 || k == 3 || k == 4 || k == 5);
    }
    assert forall|k: int| 0 <= k < 13 implies #[trigger] "<VariantList>"@[k] != ' ' by {
        assert(k == 0 || k == 1 || k == 2 || k == 3 || k == 4 || k == 5 || k == 6 || k == 7 || k == 8 || k == 9 || k == 10 || k == 11 || k == 12);
    }
    assert forall|k: int| 0 <= k < 9 implies #[trigger] "<Variant>"@[k] != ' ' by {
        assert(k == 0 || k == 1 || k == 2 || k == 3 || k == 4 || k == 5 || k == 6 || k == 7 || k == 8);
    }
    assert forall|k: int| 0 <= k < 6 implies #[trigger] "<Atom>"@[k] != ' ' by {
        assert(k == 0 || k == 1 || k == 2 || k == 3 || k == 4 || k == 5);
    }
    assert forall|k: int| 0 <= k < 4 implies #[trigger] "<Id>"@[k] != ' ' by {
        assert(k == 0 || k == 1 || k == 2 || k == 3);
    }
    assert forall|k: int| 0 <= k < 7 implies #[trigger] "<Chars>"@[k] != ' ' by {
        assert(k == 0 || k == 1 || k == 2 || k == 3 || k == 4 || k == 5 || k == 6);
    }
    assert forall|k: int| 0 <= k < 6 implies #[trigger] "@<Tag>"@[k] != ' ' by {
        assert(k == 0 || k == 1 || k == 2 || k == 3 || k == 4 || k == 5);
    }
    assert forall|k: int| 0 <= k < 5 implies #[trigger] "<Num>"@[k] != ' ' by {
        assert(k == 0 || k == 1 || k == 2 || k == 3 || k == 4);
    }
    assert forall|k: int| 0 <= k < 5 implies #[trigger] "@prio"@[k] != ' ' by {
        assert(k == 0 || k == 1 || k == 2 || k == 3 || k == 4);
    }
    assert forall|k: int| 0 <= k < 2 implies #[trigger] ":="@[k] != ' ' by {
        assert(k == 0 || k == 1);
    }
}

/// The symbols of each rule of the notation are words.
pub proof fn lemma_in_words(rule: RuleModel)
    requires
        syntax::productions().contains(rule),
    ensures
        canonical::in_words(rule),
{
    lemma_words();
    syntax::lemma_productions(rule);
    syntax::lemma_symbols();
    assert forall|k: int| 0 <= k < rule.spec.len() implies canonical::word(
        #[trigger] rule.spec[k],
    ) by {
        lemma_rule_symbols(rule, k);
    }
}

} // verus!
