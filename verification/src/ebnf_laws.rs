//! What holds of every grammar that is made from its text.

use vstd::prelude::*;

use crate::derivation::Tree;
use crate::grammar;
use crate::grammar::{BuilderModel, Kind, RuleModel};
use crate::lexis;
use crate::lexis::MatcherModel;
use crate::meaning;
use crate::meaning::{Value, Variants};
use crate::rewriting;
use crate::syntax;

verus! {

/// `b` has what `a` has: the symbols are what they were, and the rules are there.
pub open spec fn extends<P>(a: BuilderModel<P>, b: BuilderModel<P>) -> bool {
    &&& forall|name: Seq<char>| #[trigger]
        a.has(name) ==> grammar::find(b.symbols, name) == grammar::find(a.symbols, name)
    &&& forall|rule: RuleModel| #[trigger] a.rules.contains(rule) ==> b.rules.contains(rule)
}

proof fn lemma_extends_twice<P>(a: BuilderModel<P>, b: BuilderModel<P>, c: BuilderModel<P>)
    requires
        extends(a, b),
        extends(b, c),
    ensures
        extends(a, c),
{
    assert forall|name: Seq<char>| #[trigger] a.has(name) implies grammar::find(c.symbols, name)
        == grammar::find(a.symbols, name) by {
        assert(b.has(name));
    }
}

/// All names are those of symbols.
pub open spec fn all_have<P>(b: BuilderModel<P>, names: Seq<Seq<char>>) -> bool {
    forall|k: int| 0 <= k < names.len() ==> b.has(#[trigger] names[k])
}

/// All names in the alternatives are those of symbols.
pub open spec fn bodies_have<P>(b: BuilderModel<P>, body: Variants) -> bool {
    forall|k: int| 0 <= k < body.len() ==> all_have(b, (#[trigger] body[k]).0)
}

/// The names in the value of a part are those of symbols.
pub open spec fn value_has<P>(b: BuilderModel<P>, symbol: Seq<char>, v: Value) -> bool {
    if symbol == "<Atom>"@ || symbol == "<Id>"@ || symbol == "<Chars>"@ || symbol == "@<Tag>"@ {
        b.has(v.atom())
    } else if symbol == "<Variant>"@ {
        all_have(b, v.variant())
    } else if symbol == "<VariantList>"@ {
        bodies_have(b, v.variants())
    } else {
        true
    }
}

pub proof fn lemma_value_kept<P>(a: BuilderModel<P>, b: BuilderModel<P>, symbol: Seq<char>, v: Value)
    requires
        extends(a, b),
        value_has(a, symbol, v),
    ensures
        value_has(b, symbol, v),
{
    syntax::lemma_names();
    assert forall|name: Seq<char>| #[trigger] a.has(name) implies b.has(name) by {}
    if symbol == "<VariantList>"@ {
        let body = v.variants();
        assert forall|k: int| 0 <= k < body.len() implies all_have(b, (#[trigger] body[k]).0) by {
            assert(all_have(a, body[k].0));
        }
    }
}

/// Adding a symbol changes none.
pub proof fn lemma_symbol_added<P>(b: BuilderModel<P>, name: Seq<char>, kind: Kind<P>)
    ensures
        extends(b, b.with_symbol(name, kind)),
        b.with_symbol(name, kind).has(name),
        b.with_symbol(name, kind).error == b.error,
        b.with_symbol(name, kind).priorities == b.priorities,
{
    let more = b.with_symbol(name, kind);
    if !b.has(name) {
        assert forall|other: Seq<char>| #[trigger] b.has(other) implies grammar::find(
            more.symbols,
            other,
        ) == grammar::find(b.symbols, other) by {
            grammar::lemma_find_push(b.symbols, name, kind, other);
        }
        grammar::lemma_find_push(b.symbols, name, kind, name);
    }
}

/// Adding a rule over known symbols makes no error, and the rule is there.
pub proof fn lemma_rule_added<P>(b: BuilderModel<P>, rule: RuleModel)
    requires
        b.has(rule.head),
        all_have(b, rule.spec),
    ensures
        extends(b, b.with_rule(rule)),
        b.with_rule(rule).error == b.error,
        b.with_rule(rule).rules.contains(rule),
        b.with_rule(rule).symbols == b.symbols,
        b.with_rule(rule).priorities == b.priorities,
{
    let names = seq![rule.head] + rule.spec;
    assert forall|k: int| 0 <= k < names.len() implies b.has(#[trigger] names[k]) by {
        if k > 0 {
            assert(names[k] == rule.spec[k - 1]);
        }
    }
    grammar::lemma_none_missing(b.symbols, names);
    if !b.rules.contains(rule) {
        let more = b.rules.push(rule);
        assert(more[b.rules.len() as int] == rule);
        assert forall|r: RuleModel| #[trigger] b.rules.contains(r) implies more.contains(r) by {
            let k = b.rules.index_of(r);
            assert(more[k] == r);
        }
    }
}

/// What the alternatives add: a rule for each of them, and nothing that makes an error.
proof fn lemma_variants_added<P>(b: BuilderModel<P>, head: Seq<char>, body: Variants)
    requires
        b.has(head),
        bodies_have(b, body),
    ensures
        extends(b, meaning::with_variants(b, head, body)),
        meaning::with_variants(b, head, body).error == b.error,
        meaning::with_variants(b, head, body).symbols == b.symbols,
        forall|k: int|
            0 <= k < body.len() ==> meaning::with_variants(b, head, body).rules.contains(
                RuleModel { head, spec: (#[trigger] body[k]).0 },
            ),
    decreases body.len(),
{
    if body.len() > 0 {
        let rest = body.drop_last();
        assert forall|k: int| 0 <= k < rest.len() implies all_have(b, (#[trigger] rest[k]).0) by {
            assert(rest[k] == body[k]);
        }
        lemma_variants_added(b, head, rest);
        let before = meaning::with_variants(b, head, rest);
        let rule = RuleModel { head, spec: body.last().0 };
        assert(all_have(b, body[body.len() - 1].0));
        assert(before.has(head));
        assert(all_have(before, rule.spec)) by {
            assert forall|k: int| 0 <= k < rule.spec.len() implies before.has(
                #[trigger] rule.spec[k],
            ) by {
                assert(b.has(rule.spec[k]));
            }
        }
        lemma_rule_added(before, rule);
        let done = meaning::with_variants(b, head, body);
        assert(done.rules == before.with_rule(rule).rules);
        assert(extends(before, done));
        lemma_extends_twice(b, before, done);
        assert forall|k: int| 0 <= k < body.len() implies done.rules.contains(
            RuleModel { head, spec: (#[trigger] body[k]).0 },
        ) by {
            if k < rest.len() {
                assert(rest[k] == body[k]);
                assert(before.rules.contains(RuleModel { head, spec: rest[k].0 }));
            }
        }
    }
}

/// What brackets add: a rule for each alternative.
proof fn lemma_group_added<P>(b: BuilderModel<P>, aux: Seq<char>, body: Variants)
    requires
        bodies_have(b.with_symbol(aux, Kind::NonTerm), body),
    ensures
        extends(b, meaning::group(b, aux, body)),
        meaning::group(b, aux, body).error == b.error,
        meaning::group(b, aux, body).has(aux),
        forall|k: int|
            0 <= k < body.len() ==> meaning::group(b, aux, body).rules.contains(
                RuleModel { head: aux, spec: (#[trigger] body[k]).0 },
            ),
{
    let with = b.with_symbol(aux, Kind::NonTerm);
    lemma_symbol_added(b, aux, Kind::NonTerm);
    lemma_variants_added(with, aux, body);
    lemma_extends_twice(b, with, meaning::group(b, aux, body));
}

/// What optional brackets add: a rule for each alternative, and the empty one.
proof fn lemma_option_added<P>(b: BuilderModel<P>, aux: Seq<char>, body: Variants)
    requires
        bodies_have(b.with_symbol(aux, Kind::NonTerm), body),
    ensures
        extends(b, meaning::option(b, aux, body)),
        meaning::option(b, aux, body).error == b.error,
        meaning::option(b, aux, body).has(aux),
        meaning::option(b, aux, body).rules.contains(RuleModel { head: aux, spec: Seq::empty() }),
        forall|k: int|
            0 <= k < body.len() ==> meaning::option(b, aux, body).rules.contains(
                RuleModel { head: aux, spec: (#[trigger] body[k]).0 },
            ),
{
    let grouped = meaning::group(b, aux, body);
    lemma_group_added(b, aux, body);
    let none = RuleModel { head: aux, spec: Seq::<Seq<char>>::empty() };
    lemma_rule_added(grouped, none);
    lemma_extends_twice(b, grouped, meaning::option(b, aux, body));
    let done = meaning::option(b, aux, body);
    assert forall|k: int| 0 <= k < body.len() implies done.rules.contains(
        RuleModel { head: aux, spec: (#[trigger] body[k]).0 },
    ) by {
        assert(grouped.rules.contains(RuleModel { head: aux, spec: body[k].0 }));
    }
}

/// Alternatives with a tail are over known symbols where the tail is one.
pub proof fn lemma_tail_has<P>(b: BuilderModel<P>, body: Variants, tail: Seq<char>)
    requires
        bodies_have(b, body),
        b.has(tail),
    ensures
        bodies_have(b, meaning::with_tail(body, tail)),
{
    let more = meaning::with_tail(body, tail);
    assert forall|k: int| 0 <= k < more.len() implies all_have(b, (#[trigger] more[k]).0) by {
        assert(all_have(b, body[k].0));
        assert forall|j: int| 0 <= j < more[k].0.len() implies b.has(#[trigger] more[k].0[j]) by {
            if j < body[k].0.len() {
                assert(b.has(body[k].0[j]));
            }
        }
    }
}

/// The values of the parts of a rule are over known symbols.
spec fn args_have<P>(b: BuilderModel<P>, symbols: Seq<Seq<char>>, args: Seq<Value>) -> bool {
    &&& symbols.len() == args.len()
    &&& forall|k: int| 0 <= k < args.len() ==> value_has(b, symbols[k], #[trigger] args[k])
}

/// A rule of the notation keeps what is there, makes no error, and its value is over known
/// symbols.
proof fn lemma_reduced<P>(b: BuilderModel<P>, rule: RuleModel, args: Seq<Value>)
    requires
        syntax::productions().contains(rule),
        args_have(b, rule.spec, args),
    ensures
        extends(b, meaning::reduce(b, rule, args).0),
        meaning::reduce(b, rule, args).0.error == b.error,
        value_has(
            meaning::reduce(b, rule, args).0,
            rule.head,
            meaning::reduce(b, rule, args).1,
        ),
{
    syntax::lemma_names();
    syntax::lemma_productions(rule);
    syntax::lemma_distinct_productions();
    let (done, v) = meaning::reduce(b, rule, args);
    if rule == syntax::definition() {
        assert(value_has(b, rule.spec[0], args[0]));
        assert(value_has(b, rule.spec[2], args[2]));
        lemma_variants_added(b, args[0].atom(), args[2].variants());
    } else if rule == syntax::more_variants() || rule == syntax::more_variants_ranked() {
        assert(value_has(b, rule.spec[0], args[0]));
        assert(value_has(b, rule.spec[2], args[2]));
        let list = v.variants();
        assert forall|k: int| 0 <= k < list.len() implies all_have(b, (#[trigger] list[k]).0) by {
            if k < list.len() - 1 {
                assert(list[k] == args[0].variants()[k]);
            }
        }
    } else if rule == syntax::one_variant() || rule == syntax::one_variant_ranked() {
        assert(value_has(b, rule.spec[0], args[0]));
    } else if rule == syntax::more_atoms() {
        assert(value_has(b, rule.spec[0], args[0]));
        assert(value_has(b, rule.spec[1], args[1]));
    } else if rule == syntax::one_atom() || rule == syntax::named() {
        assert(value_has(b, rule.spec[0], args[0]));
    } else if rule == syntax::quoted() || rule == syntax::double_quoted() {
        assert(value_has(b, rule.spec[1], args[1]));
    } else if rule.head == "<Atom>"@ {
        assert(value_has(b, rule.spec[1], args[1]));
        let aux = v.atom();
        let with = b.with_symbol(aux, Kind::NonTerm);
        let body = args[1].variants();
        lemma_symbol_added(b, aux, Kind::<P>::NonTerm);
        lemma_value_kept(b, with, "<VariantList>"@, args[1]);
        lemma_tail_has(with, body, aux);
        if rule == syntax::grouped() || rule == syntax::grouped_tagged() {
            lemma_group_added(b, aux, body);
        } else if rule == syntax::optional() || rule == syntax::optional_tagged() {
            lemma_option_added(b, aux, body);
        } else {
            lemma_option_added(b, aux, meaning::with_tail(body, aux));
        }
    }
}

/// A syntax tree keeps what is there, makes no error, and its value is over known symbols.
pub proof fn lemma_meaning<P>(b: BuilderModel<P>, tree: Tree)
    requires
        syntax::well_formed(tree),
    ensures
        extends(b, meaning::meaning(b, tree).0),
        meaning::meaning(b, tree).0.error == b.error,
        value_has(meaning::meaning(b, tree).0, tree.symbol(), meaning::meaning(b, tree).1),
    decreases tree,
{
    syntax::lemma_names();
    match tree {
        Tree::Leaf { symbol, token } => {
            lemma_symbol_added(b, token, Kind::<P>::NonTerm);
            lemma_symbol_added(b, token, Kind::<P>::Terminal(MatcherModel::Exactly(token)));
        },
        Tree::Node { rule, children } => {
            assert(rule.spec.take(children.len() as int) =~= rule.spec);
            lemma_meanings(b, children, rule.spec);
            let (after, args) = meaning::meanings(b, children);
            lemma_reduced(after, rule, args);
            lemma_extends_twice(b, after, meaning::meaning(b, tree).0);
        },
    }
}

/// The same of a list of syntax trees.
proof fn lemma_meanings<P>(b: BuilderModel<P>, trees: Seq<Tree>, symbols: Seq<Seq<char>>)
    requires
        trees.len() == symbols.len(),
        forall|k: int|
            #![trigger trees[k]]
            0 <= k < trees.len() ==> syntax::well_formed(trees[k]) && trees[k].symbol()
                == symbols[k],
    ensures
        extends(b, meaning::meanings(b, trees).0),
        meaning::meanings(b, trees).0.error == b.error,
        args_have(meaning::meanings(b, trees).0, symbols, meaning::meanings(b, trees).1),
    decreases trees,
{
    if trees.len() > 0 {
        let n = trees.len() - 1;
        let rest = trees.drop_last();
        let names = symbols.drop_last();
        assert(trees[n] == trees.last());
        assert forall|k: int|
            #![trigger rest[k]]
            0 <= k < rest.len() implies syntax::well_formed(rest[k]) && rest[k].symbol()
            == names[k] by {
            assert(rest[k] == trees[k]);
        }
        lemma_meaning(b, trees.last());
        let (after, last) = meaning::meaning(b, trees.last());
        lemma_meanings(after, rest, names);
        let (done, values) = meaning::meanings(after, rest);
        lemma_extends_twice(b, after, done);
        lemma_value_kept(after, done, symbols[n], last);
        let all = values.push(last);
        assert forall|k: int| 0 <= k < all.len() implies value_has(
            done,
            symbols[k],
            #[trigger] all[k],
        ) by {
            if k < n {
                assert(all[k] == values[k]);
                assert(names[k] == symbols[k]);
            }
        }
    }
}

/// A text that can be read makes a grammar wherever the start symbol is there: its rules are
/// never over a symbol that is missing.
pub proof fn law_only_the_start_can_be_missing<P>(b: BuilderModel<P>, tree: Tree, start: Seq<char>)
    requires
        b.error is None,
        syntax::well_formed(tree),
    ensures
        meaning::meaning(b, tree).0.finished(start) is Ok <==> meaning::meaning(b, tree).0.has(
            start,
        ),
        meaning::meaning(b, tree).0.finished(start) matches Err(text) ==> text
            == "Missing Symbol: "@ + start,
{
    lemma_meaning(b, tree);
}

proof fn lemma_rule_once<P>(b: BuilderModel<P>, rule: RuleModel)
    requires
        b.rules.no_duplicates(),
    ensures
        b.with_rule(rule).rules.no_duplicates(),
{
    b.law_no_rule_twice(Seq::empty(), Kind::NonTerm, rule, 0, Seq::empty(), Seq::empty());
}

proof fn lemma_variants_once<P>(b: BuilderModel<P>, head: Seq<char>, body: Variants)
    requires
        b.rules.no_duplicates(),
    ensures
        meaning::with_variants(b, head, body).rules.no_duplicates(),
    decreases body.len(),
{
    if body.len() > 0 {
        lemma_variants_once(b, head, body.drop_last());
        let before = meaning::with_variants(b, head, body.drop_last());
        lemma_rule_once(before, RuleModel { head, spec: body.last().0 });
    }
}

proof fn lemma_option_once<P>(b: BuilderModel<P>, aux: Seq<char>, body: Variants)
    requires
        b.rules.no_duplicates(),
    ensures
        meaning::group(b, aux, body).rules.no_duplicates(),
        meaning::option(b, aux, body).rules.no_duplicates(),
{
    lemma_variants_once(b.with_symbol(aux, Kind::NonTerm), aux, body);
    lemma_rule_once(
        meaning::group(b, aux, body),
        RuleModel { head: aux, spec: Seq::empty() },
    );
}

proof fn lemma_reduce_once<P>(b: BuilderModel<P>, rule: RuleModel, args: Seq<Value>)
    requires
        b.rules.no_duplicates(),
    ensures
        meaning::reduce(b, rule, args).0.rules.no_duplicates(),
{
    lemma_variants_once(b, args[0].atom(), args[2].variants());
    let body = args[1].variants();
    let own = b.unique_name();
    let tag = args[3].atom();
    lemma_option_once(b, own, body);
    lemma_option_once(b, tag, body);
    lemma_option_once(b, own, meaning::with_tail(body, own));
    lemma_option_once(b, tag, meaning::with_tail(body, tag));
}

proof fn lemma_meanings_once<P>(b: BuilderModel<P>, trees: Seq<Tree>)
    requires
        b.rules.no_duplicates(),
    ensures
        meaning::meanings(b, trees).0.rules.no_duplicates(),
    decreases trees,
{
    if trees.len() > 0 {
        lemma_meaning_once(b, trees.last());
        lemma_meanings_once(meaning::meaning(b, trees.last()).0, trees.drop_last());
    }
}

proof fn lemma_meaning_once<P>(b: BuilderModel<P>, tree: Tree)
    requires
        b.rules.no_duplicates(),
    ensures
        meaning::meaning(b, tree).0.rules.no_duplicates(),
    decreases tree,
{
    if let Tree::Node { rule, children } = tree {
        lemma_meanings_once(b, children);
        let (after, args) = meaning::meanings(b, children);
        lemma_reduce_once(after, rule, args);
    }
}

/// A grammar that is made from its text has no rule twice, however often the text states it.
pub proof fn law_text_makes_no_rule_twice<P>(b: BuilderModel<P>, tree: Tree, start: Seq<char>)
    requires
        b.rules.no_duplicates(),
    ensures
        meaning::meaning(b, tree).0.rules.no_duplicates(),
        meaning::meaning(b, tree).0.finished(start) matches Ok(g) ==> g.rules.no_duplicates(),
{
    lemma_meaning_once(b, tree);
}

/// Numerals are in range exactly where each of them stands for no more than the largest number that
/// a priority can be.
pub proof fn law_which_numerals_are_in_range(tree: Tree)
    ensures
        meaning::numbers_fit(tree) <==> forall|k: int|
            0 <= k < tree.tokens().len() && #[trigger] rewriting::leaf_symbols(seq![tree])[k]
                == "<Num>"@ ==> meaning::numeral(tree.tokens()[k]) <= 2147483647,
{
    let list = seq![tree];
    lemma_ranges(list);
    assert(list.drop_last() =~= Seq::empty());
    assert(list.last() == tree);
    assert(crate::derivation::forest_tokens(list) == crate::derivation::forest_tokens(
        list.drop_last(),
    ) + tree.tokens());
    assert(crate::derivation::forest_tokens(list) =~= tree.tokens());
    assert(list[0] == tree);
}

proof fn lemma_ranges(list: Seq<Tree>)
    ensures
        rewriting::leaf_symbols(list).len() == crate::derivation::forest_tokens(list).len(),
        (forall|k: int| 0 <= k < list.len() ==> meaning::numbers_fit(#[trigger] list[k])) <==> (
        forall|k: int|
            0 <= k < rewriting::leaf_symbols(list).len() && #[trigger] rewriting::leaf_symbols(
                list,
            )[k] == "<Num>"@ ==> meaning::numeral(crate::derivation::forest_tokens(list)[k])
                <= 2147483647),
    decreases crate::derivation::forest_steps(list),
{
    if list.len() > 0 {
        let before = list.drop_last();
        let last = list.last();
        let names = rewriting::leaf_symbols(list);
        let words = crate::derivation::forest_tokens(list);
        let first = rewriting::leaf_symbols(before);
        let early = crate::derivation::forest_tokens(before);
        lemma_ranges(before);
        let more = match last {
            Tree::Leaf { symbol, token } => {
                assert(last.tokens() =~= seq![token]);
                seq![symbol]
            },
            Tree::Node { children, .. } => {
                assert(last.steps() == 1 + crate::derivation::forest_steps(children));
                assert(last.tokens() == crate::derivation::forest_tokens(children));
                lemma_ranges(children);
                rewriting::leaf_symbols(children)
            },
        };
        assert(names == first + more);
        assert(words == early + last.tokens());
        assert(meaning::numbers_fit(last) <==> forall|k: int|
            0 <= k < more.len() && #[trigger] more[k] == "<Num>"@ ==> meaning::numeral(
                last.tokens()[k],
            ) <= 2147483647) by {
            if last is Leaf {
                assert(more[0] == last.symbol());
            }
        }
        if forall|k: int| 0 <= k < list.len() ==> meaning::numbers_fit(#[trigger] list[k]) {
            assert(meaning::numbers_fit(list[list.len() - 1]));
            assert forall|k: int| 0 <= k < before.len() implies meaning::numbers_fit(
                #[trigger] before[k],
            ) by {
                assert(before[k] == list[k]);
            }
            assert forall|k: int| 0 <= k < names.len() && #[trigger] names[k]
                == "<Num>"@ implies meaning::numeral(words[k]) <= 2147483647 by {
                if k < first.len() {
                    assert(names[k] == first[k] && words[k] == early[k]);
                } else {
                    let m = k - first.len();
                    assert(names[k] == more[m] && words[k] == last.tokens()[m]);
                }
            }
        }
        if forall|k: int|
            0 <= k < names.len() && #[trigger] names[k] == "<Num>"@ ==> meaning::numeral(words[k])
                <= 2147483647 {
            assert forall|k: int| 0 <= k < first.len() && #[trigger] first[k]
                == "<Num>"@ implies meaning::numeral(early[k]) <= 2147483647 by {
                assert(names[k] == first[k] && words[k] == early[k]);
            }
            assert forall|k: int| 0 <= k < more.len() && #[trigger] more[k]
                == "<Num>"@ implies meaning::numeral(last.tokens()[k]) <= 2147483647 by {
                let m = first.len() + k;
                assert(names[m] == more[k] && words[m] == last.tokens()[k]);
            }
            assert forall|k: int| 0 <= k < list.len() implies meaning::numbers_fit(
                #[trigger] list[k],
            ) by {
                if k < before.len() {
                    assert(before[k] == list[k]);
                }
            }
        }
    }
}

/// What has been plugged in stays: a symbol that was there before the text was read is what it
/// was.
pub proof fn law_plugged_terminals_stay<P>(b: BuilderModel<P>, tree: Tree, name: Seq<char>)
    requires
        syntax::well_formed(tree),
        b.has(name),
    ensures
        grammar::find(meaning::meaning(b, tree).0.symbols, name) == grammar::find(b.symbols, name),
{
    lemma_meaning(b, tree);
}

/// A priority annotation attaches to the alternative before it, and an alternative without one
/// has none; the alternatives before are what they were.
pub proof fn law_annotation_attaches<P>(b: BuilderModel<P>, tree: Tree)
    requires
        syntax::well_formed(tree),
        tree is Node,
        tree.symbol() == "<VariantList>"@,
    ensures
        ({
            let rule = tree->rule;
            let args = meaning::meanings(b, tree->children).1;
            let list = meaning::meaning(b, tree).1.variants();
            let at: int = if rule == syntax::more_variants() || rule
                == syntax::more_variants_ranked() {
                2
            } else {
                0
            };
            &&& list.len() > 0
            &&& list.last().0 == args[at].variant()
            &&& list.last().1 == if rule == syntax::more_variants_ranked() || rule
                == syntax::one_variant_ranked() {
                Some(args[at + 3].num())
            } else {
                None
            }
            &&& list.drop_last() == if at == 2 {
                args[0].variants()
            } else {
                Seq::empty()
            }
        }),
{
    syntax::lemma_names();
    syntax::lemma_productions(tree->rule);
    syntax::lemma_distinct_productions();
    let list = meaning::meaning(b, tree).1.variants();
    let args = meaning::meanings(b, tree->children).1;
    if tree->rule == syntax::more_variants() || tree->rule == syntax::more_variants_ranked() {
        assert(list.drop_last() =~= args[0].variants());
    } else {
        assert(list.drop_last() =~= Seq::empty());
    }
}

/// The priority of an alternative is that of its rule, unless a later alternative of the same
/// canonical form has another.
pub proof fn law_priority_is_kept<P>(b: BuilderModel<P>, head: Seq<char>, body: Variants, k: int)
    requires
        0 <= k < body.len(),
        body[k].1 is Some,
        forall|j: int|
            k < j < body.len() && (#[trigger] body[j]).1 is Some ==> (RuleModel {
                head,
                spec: body[j].0,
            }).text() != (RuleModel { head, spec: body[k].0 }).text(),
    ensures
        ({
            let text = (RuleModel { head, spec: body[k].0 }).text();
            let priorities = meaning::with_variants(b, head, body).priorities;
            priorities.contains_key(text) && Some(priorities[text]) == body[k].1
        }),
    decreases body.len(),
{
    let rest = body.drop_last();
    let before = meaning::with_variants(b, head, rest);
    let rule = RuleModel { head, spec: body.last().0 };
    lemma_rule_keeps_priorities(before, rule);
    if k < rest.len() {
        assert(rest[k] == body[k]);
        assert forall|j: int| k < j < rest.len() && (#[trigger] rest[j]).1 is Some implies (
        RuleModel { head, spec: rest[j].0 }).text() != (RuleModel {
            head,
            spec: rest[k].0,
        }).text() by {
            assert(rest[j] == body[j]);
        }
        law_priority_is_kept(b, head, rest, k);
        assert(body[body.len() - 1] == body.last());
    }
}

proof fn lemma_rule_keeps_priorities<P>(b: BuilderModel<P>, rule: RuleModel)
    ensures
        b.with_rule(rule).priorities == b.priorities,
{
}

/// Priorities survive brackets: the symbol that stands for `( ... )`, `[ ... ]` or `{ ... }`
/// has the alternatives with their priorities, and in `{ ... }` the alternatives go on with
/// the symbol itself.
pub proof fn law_priorities_survive_brackets<P>(b: BuilderModel<P>, aux: Seq<char>, body: Variants)
    ensures
        ({
            let with = b.with_symbol(aux, Kind::NonTerm);
            &&& meaning::group(b, aux, body).priorities == meaning::with_variants(
                with,
                aux,
                body,
            ).priorities
            &&& meaning::option(b, aux, body).priorities == meaning::with_variants(
                with,
                aux,
                body,
            ).priorities
            &&& meaning::repeat(b, aux, body).priorities == meaning::with_variants(
                with,
                aux,
                meaning::with_tail(body, aux),
            ).priorities
        }),
        meaning::with_tail(body, aux).len() == body.len(),
        forall|k: int|
            0 <= k < body.len() ==> (#[trigger] meaning::with_tail(body, aux)[k]).1 == body[k].1
                && meaning::with_tail(body, aux)[k].0 == body[k].0.push(aux),
{
    let none = RuleModel { head: aux, spec: Seq::<Seq<char>>::empty() };
    lemma_rule_keeps_priorities(meaning::group(b, aux, body), none);
    lemma_rule_keeps_priorities(meaning::group(b, aux, meaning::with_tail(body, aux)), none);
}

/// Every alternative of a definition becomes a rule, given that its symbols are there.
pub proof fn law_alternatives_become_rules<P>(
    b: BuilderModel<P>,
    head: Seq<char>,
    body: Variants,
    k: int,
)
    requires
        b.has(head),
        0 <= k < body.len(),
        forall|j: int, m: int|
            #![trigger body[j].0[m]]
            0 <= j < body.len() && 0 <= m < body[j].0.len() ==> b.has(body[j].0[m]),
    ensures
        meaning::with_variants(b, head, body).rules.contains(RuleModel { head, spec: body[k].0 }),
        meaning::with_variants(b, head, body).error == b.error,
{
    assert forall|j: int| 0 <= j < body.len() implies all_have(b, (#[trigger] body[j]).0) by {
        assert forall|m: int| 0 <= m < body[j].0.len() implies b.has(
            #[trigger] body[j].0[m],
        ) by {}
    }
    lemma_variants_added(b, head, body);
}

/// A text in which no numeral is too large has priorities in range.
pub proof fn law_small_numerals_fit(tree: Tree, tokens: Seq<Seq<char>>, at: int)
    requires
        syntax::well_formed(tree),
        syntax::fits(tree, tokens, at),
        forall|k: int|
            0 <= k < tokens.len() && lexis::is_digits(#[trigger] tokens[k]) ==> meaning::numeral(
                tokens[k],
            ) <= i32::MAX,
    ensures
        meaning::numbers_fit(tree),
    decreases tree.steps(),
{
    syntax::lemma_names();
    match tree {
        Tree::Leaf { symbol, token } => {
            assert(tree.tokens() =~= seq![token]);
            assert(tree.tokens()[0] == tokens.subrange(at, at + 1)[0]);
            assert(tokens[at] == token);
        },
        Tree::Node { rule, children } => {
            assert forall|k: int| 0 <= k < children.len() implies meaning::numbers_fit(
                #[trigger] children[k],
            ) by {
                syntax::lemma_parts(tree, tokens, at, k);
                syntax::lemma_part(tree, k);
                assert(syntax::parts(tree)[k] == children[k]);
                law_small_numerals_fit(children[k], tokens, at + syntax::offset(tree, k));
            }
        },
    }
}

} // verus!
