//! What each part of a text in the notation makes: symbols, rules and priorities, and no others.

use vstd::prelude::*;

use crate::derivation;
use crate::derivation::Tree;
use crate::ebnf_laws;
use crate::grammar;
use crate::grammar::{BuilderModel, GrammarModel, Kind, RuleModel};
use crate::lexis::MatcherModel;
use crate::meaning;
use crate::meaning::{Value, Variants};
use crate::rewriting;
use crate::syntax;

verus! {

/// `after` is `before` with the rules that have this head and one of these lists of symbols, and
/// no others; those that were there stand where they stood.
pub open spec fn with_exactly(
    before: Seq<RuleModel>,
    after: Seq<RuleModel>,
    head: Seq<char>,
    specs: Seq<Seq<Seq<char>>>,
) -> bool {
    &&& before.len() <= after.len()
    &&& forall|k: int| 0 <= k < before.len() ==> #[trigger] after[k] == before[k]
    &&& forall|rule: RuleModel| #[trigger]
        after.contains(rule) <==> before.contains(rule) || (rule.head == head && specs.contains(
            rule.spec,
        ))
}

/// One of the alternatives has a priority, and `name` is the canonical form of its rule.
pub open spec fn is_ranked(
    head: Seq<char>,
    specs: Seq<Seq<Seq<char>>>,
    body: Variants,
    name: Seq<char>,
) -> bool {
    exists|k: int|
        0 <= k < body.len() && (#[trigger] body[k]).1 is Some && (RuleModel {
            head,
            spec: specs[k],
        }).text() == name
}

/// `after` is `before` with the priorities that the alternatives have, each for the rule with this
/// head and its list of symbols; of two for the same rule the later one counts.
pub open spec fn with_ranks(
    before: Map<Seq<char>, i32>,
    after: Map<Seq<char>, i32>,
    head: Seq<char>,
    specs: Seq<Seq<Seq<char>>>,
    body: Variants,
) -> bool {
    &&& forall|name: Seq<char>|
        !#[trigger] is_ranked(head, specs, body, name) ==> (after.contains_key(name)
            <==> before.contains_key(name)) && (before.contains_key(name) ==> after[name]
            == before[name])
    &&& forall|k: int|
        0 <= k < body.len() && (#[trigger] body[k]).1 is Some && (forall|j: int|
            k < j < body.len() && (#[trigger] body[j]).1 is Some ==> (RuleModel {
                head,
                spec: specs[j],
            }).text() != (RuleModel { head, spec: specs[k] }).text()) ==> after.contains_key(
            (RuleModel { head, spec: specs[k] }).text(),
        ) && after[(RuleModel { head, spec: specs[k] }).text()] == body[k].1->Some_0
}

/// The lists of symbols of the alternatives.
pub open spec fn specs_of(body: Variants) -> Seq<Seq<Seq<char>>> {
    Seq::new(body.len(), |k: int| body[k].0)
}

/// What alternatives add under a head.
proof fn lemma_variants_exact<P>(b: BuilderModel<P>, head: Seq<char>, body: Variants)
    requires
        b.has(head),
        ebnf_laws::bodies_have(b, body),
    ensures
        meaning::with_variants(b, head, body).symbols == b.symbols,
        meaning::with_variants(b, head, body).error == b.error,
        with_exactly(
            b.rules,
            meaning::with_variants(b, head, body).rules,
            head,
            specs_of(body),
        ),
        with_ranks(
            b.priorities,
            meaning::with_variants(b, head, body).priorities,
            head,
            specs_of(body),
            body,
        ),
    decreases body.len(),
{
    let done = meaning::with_variants(b, head, body);
    let specs = specs_of(body);
    if body.len() > 0 {
        let rest = body.drop_last();
        let last = body.last();
        assert forall|k: int| 0 <= k < rest.len() implies ebnf_laws::all_have(
            b,
            (#[trigger] rest[k]).0,
        ) by {
            assert(rest[k] == body[k]);
        }
        lemma_variants_exact(b, head, rest);
        let before = meaning::with_variants(b, head, rest);
        let rule = RuleModel { head, spec: last.0 };
        assert(ebnf_laws::all_have(b, body[body.len() - 1].0));
        ebnf_laws::lemma_rule_added(before, rule);
        assert(done.rules == before.with_rule(rule).rules);
        assert(specs =~= specs_of(rest).push(last.0));
        lemma_one_more(before.rules, done.rules, rule);
        lemma_more_specs(b.rules, before.rules, done.rules, head, specs_of(rest), rule);
        lemma_more_ranks(b.priorities, before.priorities, done.priorities, head, body);
    } else {
        assert forall|r: RuleModel| #[trigger] done.rules.contains(r) <==> b.rules.contains(r) || (
        r.head == head && specs.contains(r.spec)) by {}
    }
}

/// A rule that is added comes last, unless it is there.
proof fn lemma_one_more(before: Seq<RuleModel>, after: Seq<RuleModel>, rule: RuleModel)
    requires
        after == if before.contains(rule) {
            before
        } else {
            before.push(rule)
        },
    ensures
        before.len() <= after.len(),
        forall|k: int| 0 <= k < before.len() ==> #[trigger] after[k] == before[k],
        forall|r: RuleModel| #[trigger] after.contains(r) <==> before.contains(r) || r == rule,
{
    assert forall|r: RuleModel| #[trigger] after.contains(r) <==> before.contains(r) || r == rule by {
        if after.contains(r) {
            let k = after.index_of(r);
            if k < before.len() {
                assert(before[k] == r);
            }
        }
        if before.contains(r) {
            let k = before.index_of(r);
            assert(after[k] == r);
        }
        if r == rule && !before.contains(rule) {
            assert(after[before.len() as int] == rule);
        }
    }
}

proof fn lemma_more_specs(
    first: Seq<RuleModel>,
    before: Seq<RuleModel>,
    after: Seq<RuleModel>,
    head: Seq<char>,
    specs: Seq<Seq<Seq<char>>>,
    rule: RuleModel,
)
    requires
        with_exactly(first, before, head, specs),
        rule.head == head,
        before.len() <= after.len(),
        forall|k: int| 0 <= k < before.len() ==> #[trigger] after[k] == before[k],
        forall|r: RuleModel| #[trigger] after.contains(r) <==> before.contains(r) || r == rule,
    ensures
        with_exactly(first, after, head, specs.push(rule.spec)),
{
    let more = specs.push(rule.spec);
    assert forall|k: int| 0 <= k < first.len() implies #[trigger] after[k] == first[k] by {
        assert(before[k] == first[k]);
    }
    assert forall|spec: Seq<Seq<char>>| #[trigger]
        more.contains(spec) <==> specs.contains(spec) || spec == rule.spec by {
        if more.contains(spec) {
            let k = more.index_of(spec);
            if k < specs.len() {
                assert(specs[k] == spec);
            }
        }
        if specs.contains(spec) {
            let k = specs.index_of(spec);
            assert(more[k] == spec);
        }
        assert(more[specs.len() as int] == rule.spec);
    }
    assert forall|r: RuleModel| #[trigger] after.contains(r) <==> first.contains(r) || (r.head
        == head && more.contains(r.spec)) by {
        if r.head == head && r.spec == rule.spec {
            assert(r == rule);
        }
    }
}

proof fn lemma_more_ranks(
    first: Map<Seq<char>, i32>,
    before: Map<Seq<char>, i32>,
    after: Map<Seq<char>, i32>,
    head: Seq<char>,
    body: Variants,
)
    requires
        body.len() > 0,
        with_ranks(first, before, head, specs_of(body.drop_last()), body.drop_last()),
        after == match body.last().1 {
            Some(p) => before.insert((RuleModel { head, spec: body.last().0 }).text(), p),
            None => before,
        },
    ensures
        with_ranks(first, after, head, specs_of(body), body),
{
    let rest = body.drop_last();
    let some = specs_of(rest);
    let specs = specs_of(body);
    let n = body.len() - 1;
    assert(body[n] == body.last());
    assert forall|k: int| 0 <= k < n implies #[trigger] rest[k] == body[k] && some[k] == specs[k] by {}
    assert forall|name: Seq<char>| !#[trigger] is_ranked(head, specs, body, name) implies (
    after.contains_key(name) <==> first.contains_key(name)) && (first.contains_key(name)
        ==> after[name] == first[name]) by {
        if is_ranked(head, some, rest, name) {
            let k = choose|k: int|
                0 <= k < rest.len() && (#[trigger] rest[k]).1 is Some && (RuleModel {
                    head,
                    spec: some[k],
                }).text() == name;
            assert(body[k].1 is Some);
            assert(is_ranked(head, specs, body, name));
        }
        if body.last().1 is Some {
            assert(body[n].1 is Some);
            assert((RuleModel { head, spec: specs[n] }).text() != name);
        }
    }
    assert forall|k: int|
        0 <= k < body.len() && (#[trigger] body[k]).1 is Some && (forall|j: int|
            k < j < body.len() && (#[trigger] body[j]).1 is Some ==> (RuleModel {
                head,
                spec: specs[j],
            }).text() != (RuleModel { head, spec: specs[k] }).text()) implies after.contains_key(
        (RuleModel { head, spec: specs[k] }).text(),
    ) && after[(RuleModel { head, spec: specs[k] }).text()] == body[k].1->Some_0 by {
        if k < n {
            assert(rest[k].1 is Some);
            assert forall|j: int| k < j < rest.len() && (#[trigger] rest[j]).1 is Some implies (
            RuleModel { head, spec: some[j] }).text() != (RuleModel {
                head,
                spec: some[k],
            }).text() by {
                assert(body[j].1 is Some);
            }
            if body.last().1 is Some {
                assert(body[n].1 is Some);
            }
        }
    }
}

/// The token at a leaf.
pub open spec fn token_of(tree: Tree) -> Seq<char> {
    match tree {
        Tree::Leaf { token, .. } => token,
        Tree::Node { .. } => Seq::empty(),
    }
}

/// A mark adds nothing.
proof fn lemma_mark<P>(b: BuilderModel<P>, tree: Tree)
    requires
        tree is Leaf,
        syntax::mark(tree.symbol()),
    ensures
        meaning::meaning(b, tree) == (b, Value::Atom(token_of(tree))),
{
    syntax::lemma_names();
}

/// The rules of the notation by what they are made of.
proof fn lemma_reduce_plain<P>(b: BuilderModel<P>, args: Seq<Value>)
    ensures
        meaning::reduce(b, syntax::more_atoms(), args) == (
            b,
            Value::Variant(args[0].variant().push(args[1].atom())),
        ),
        meaning::reduce(b, syntax::one_atom(), args) == (
            b,
            Value::Variant(seq![args[0].atom()]),
        ),
        meaning::reduce(b, syntax::named(), args) == (b, args[0]),
        meaning::reduce(b, syntax::quoted(), args) == (b, args[1]),
        meaning::reduce(b, syntax::double_quoted(), args) == (b, args[1]),
        meaning::reduce(b, syntax::more_variants(), args) == (
            b,
            Value::VariantList(args[0].variants().push((args[2].variant(), None))),
        ),
        meaning::reduce(b, syntax::more_variants_ranked(), args) == (
            b,
            Value::VariantList(
                args[0].variants().push((args[2].variant(), Some(args[5].num()))),
            ),
        ),
        meaning::reduce(b, syntax::one_variant(), args) == (
            b,
            Value::VariantList(seq![(args[0].variant(), None)]),
        ),
        meaning::reduce(b, syntax::one_variant_ranked(), args) == (
            b,
            Value::VariantList(seq![(args[0].variant(), Some(args[3].num()))]),
        ),
{
    syntax::lemma_distinct_productions();
    let list = syntax::productions();
    assert(list[2] == syntax::definition());
    assert(list[3] == syntax::more_variants());
    assert(list[4] == syntax::more_variants_ranked());
    assert(list[5] == syntax::one_variant());
    assert(list[6] == syntax::one_variant_ranked());
    assert(list[7] == syntax::more_atoms());
    assert(list[8] == syntax::one_atom());
    assert(list[9] == syntax::named());
    assert(list[10] == syntax::quoted());
    assert(list[11] == syntax::double_quoted());
}

/// What brackets do, by what they are made of.
proof fn lemma_reduce_brackets<P>(b: BuilderModel<P>, rule: RuleModel, args: Seq<Value>)
    requires
        rule == syntax::grouped() || rule == syntax::grouped_tagged() || rule == syntax::optional()
            || rule == syntax::optional_tagged() || rule == syntax::repeated() || rule
            == syntax::repeated_tagged(),
    ensures
        ({
            let aux = if rule.spec.len() == 4 {
                args[3].atom()
            } else {
                b.unique_name()
            };
            let body = args[1].variants();
            let tailed = if rule.spec[0] == "{"@ {
                meaning::with_tail(body, aux)
            } else {
                body
            };
            let grouped = meaning::with_variants(b.with_symbol(aux, Kind::NonTerm), aux, tailed);
            meaning::reduce(b, rule, args) == (
                if rule.spec[0] == "("@ {
                    grouped
                } else {
                    grouped.with_rule(RuleModel { head: aux, spec: Seq::empty() })
                },
                Value::Atom(aux),
            )
        }),
{
    syntax::lemma_distinct_productions();
    syntax::lemma_names();
    let list = syntax::productions();
    assert(list[2] == syntax::definition());
    assert(list[3] == syntax::more_variants());
    assert(list[4] == syntax::more_variants_ranked());
    assert(list[5] == syntax::one_variant());
    assert(list[6] == syntax::one_variant_ranked());
    assert(list[7] == syntax::more_atoms());
    assert(list[8] == syntax::one_atom());
    assert(list[9] == syntax::named());
    assert(list[10] == syntax::quoted());
    assert(list[11] == syntax::double_quoted());
    assert(list[12] == syntax::optional());
    assert(list[13] == syntax::repeated());
    assert(list[14] == syntax::grouped());
    assert(list[15] == syntax::optional_tagged());
    assert(list[16] == syntax::repeated_tagged());
    assert(list[17] == syntax::grouped_tagged());
}

/// The parts of a syntax tree are syntax trees of the symbols of its rule.
proof fn lemma_shape(tree: Tree, k: int)
    requires
        syntax::well_formed(tree),
        tree is Node,
        0 <= k < tree->rule.spec.len(),
    ensures
        tree->children.len() == tree->rule.spec.len(),
        tree->children[k].symbol() == tree->rule.spec[k],
        syntax::well_formed(tree->children[k]),
        tree->children[k] is Node <==> syntax::category(tree->rule.spec[k]),
{
    assert(syntax::parts(tree) == tree->children);
    assert(tree->children.len() == tree->rule.spec.len());
    syntax::lemma_part(tree, k);
}

/// Which rule it is, by its head and the number of its symbols.
proof fn lemma_which(rule: RuleModel)
    requires
        syntax::productions().contains(rule),
    ensures
        rule.head == "<VariantList>"@ ==> rule == syntax::more_variants() && rule.spec.len() == 3
            || rule == syntax::more_variants_ranked() && rule.spec.len() == 7 || rule
            == syntax::one_variant() && rule.spec.len() == 1 || rule
            == syntax::one_variant_ranked() && rule.spec.len() == 5,
        rule.head == "<Variant>"@ ==> rule == syntax::more_atoms() && rule.spec.len() == 2 || rule
            == syntax::one_atom() && rule.spec.len() == 1,
        rule.head == "<Atom>"@ && rule.spec.len() == 1 ==> rule == syntax::named(),
        rule.head == "<Atom>"@ && rule.spec.len() > 1 && rule.spec[1] == "<Chars>"@ ==> rule
            == syntax::quoted() || rule == syntax::double_quoted(),
        rule.head == "<Atom>"@ && (rule.spec[0] == "("@ || rule.spec[0] == "["@ || rule.spec[0]
            == "{"@) ==> rule == syntax::grouped() || rule == syntax::grouped_tagged() || rule
            == syntax::optional() || rule == syntax::optional_tagged() || rule
            == syntax::repeated() || rule == syntax::repeated_tagged(),
{
    syntax::lemma_names();
    syntax::lemma_productions(rule);
}

/// The middle one of three, between two marks.
proof fn lemma_three<P>(b: BuilderModel<P>, c: Seq<Tree>)
    requires
        c.len() == 3,
        c[0] is Leaf && syntax::mark(c[0].symbol()),
        c[2] is Leaf && syntax::mark(c[2].symbol()),
    ensures
        meaning::meanings(b, c).0 == meaning::meaning(b, c[1]).0,
        meaning::meanings(b, c).1.len() == 3,
        meaning::meanings(b, c).1[1] == meaning::meaning(b, c[1]).1,
{
    let (inner, v) = meaning::meaning(b, c[1]);
    lemma_mark(b, c[2]);
    lemma_mark(inner, c[0]);
    assert(c.last() == c[2]);
    assert(c.drop_last() =~= seq![c[0], c[1]]);
    lemma_two(b, seq![c[0], c[1]]);
}

/// The symbols with one more, unless there is one of that name.
pub open spec fn with_name<P>(
    symbols: Seq<(Seq<char>, Kind<P>)>,
    name: Seq<char>,
    kind: Kind<P>,
) -> Seq<(Seq<char>, Kind<P>)> {
    if grammar::named(symbols, name) {
        symbols
    } else {
        symbols.push((name, kind))
    }
}

/// What a name or quoted text makes: the symbol of that very text, which is a nonterminal or a
/// terminal that reads that very text, unless there is one of that name; it stands for that symbol.
pub proof fn law_names_and_quotes<P>(b: BuilderModel<P>, tree: Tree)
    requires
        syntax::well_formed(tree),
        tree is Node,
        tree.symbol() == "<Atom>"@,
        tree->children.len() == 1 || tree->children[1].symbol() == "<Chars>"@,
    ensures
        tree->children.len() == 1 ==> meaning::meaning(b, tree) == (
            BuilderModel {
                symbols: with_name(b.symbols, token_of(tree->children[0]), Kind::NonTerm),
                ..b
            },
            Value::Atom(token_of(tree->children[0])),
        ),
        tree->children.len() != 1 ==> meaning::meaning(b, tree) == (
            BuilderModel {
                symbols: with_name(
                    b.symbols,
                    token_of(tree->children[1]),
                    Kind::Terminal(MatcherModel::Exactly(token_of(tree->children[1]))),
                ),
                ..b
            },
            Value::Atom(token_of(tree->children[1])),
        ),
{
    let c = tree->children;
    let rule = tree->rule;
    syntax::lemma_productions(rule);
    lemma_shape(tree, 0);
    if c.len() > 1 {
        lemma_shape(tree, 1);
    }
    lemma_which(rule);
    let args = meaning::meanings(b, c).1;
    if c.len() == 1 {
        assert(c[0] is Leaf && c[0].symbol() == "<Id>"@) by {
            syntax::lemma_names();
        }
        lemma_one(b, c);
        let done = meaning::meanings(b, c).0;
        lemma_reduce_plain(done, args);
        lemma_name_leaf(b, c[0]);
    } else {
        lemma_quoted_shape(tree);
        lemma_chars_leaf(b, c[1]);
        lemma_three(b, c);
        let done = meaning::meanings(b, c).0;
        lemma_reduce_plain(done, args);
    }
}

proof fn lemma_quoted_shape(tree: Tree)
    requires
        syntax::well_formed(tree),
        tree is Node,
        tree->rule == syntax::quoted() || tree->rule == syntax::double_quoted(),
    ensures
        tree->children.len() == 3,
        tree->children[0] is Leaf && syntax::mark(tree->children[0].symbol()),
        tree->children[2] is Leaf && syntax::mark(tree->children[2].symbol()),
        tree->children[1] is Leaf,
{
    lemma_shape(tree, 0);
    lemma_shape(tree, 1);
    lemma_shape(tree, 2);
    syntax::lemma_names();
}

/// A name or a tag makes a nonterminal.
proof fn lemma_name_leaf<P>(b: BuilderModel<P>, tree: Tree)
    requires
        tree.symbol() == "<Id>"@ || tree.symbol() == "@<Tag>"@,
        tree is Leaf,
    ensures
        meaning::meaning(b, tree) == (
            BuilderModel { symbols: with_name(b.symbols, token_of(tree), Kind::NonTerm), ..b },
            Value::Atom(token_of(tree)),
        ),
{
    syntax::lemma_names();
    b.law_what_is_added(token_of(tree), Kind::NonTerm, syntax::named());
}

/// Quoted text makes a terminal.
proof fn lemma_chars_leaf<P>(b: BuilderModel<P>, tree: Tree)
    requires
        tree.symbol() == "<Chars>"@,
        tree is Leaf,
    ensures
        meaning::meaning(b, tree) == (
            BuilderModel {
                symbols: with_name(
                    b.symbols,
                    token_of(tree),
                    Kind::Terminal(MatcherModel::Exactly(token_of(tree))),
                ),
                ..b
            },
            Value::Atom(token_of(tree)),
        ),
{
    syntax::lemma_names();
    let name = token_of(tree);
    b.law_what_is_added(name, Kind::Terminal(MatcherModel::Exactly(name)), syntax::named());
}

/// The builder once the trees from the `k`-th on have been interpreted, the last one first.
pub open spec fn once_behind<P>(b: BuilderModel<P>, list: Seq<Tree>, k: int) -> BuilderModel<P>
    decreases list.len() - k,
{
    if k >= list.len() {
        b
    } else {
        meaning::meaning(once_behind(b, list, k + 1), list[k]).0
    }
}

proof fn lemma_once_behind<P>(b: BuilderModel<P>, list: Seq<Tree>, tree: Tree, k: int)
    requires
        0 <= k <= list.len(),
    ensures
        once_behind(b, list.push(tree), k) == once_behind(meaning::meaning(b, tree).0, list, k),
    decreases list.len() - k,
{
    let more = list.push(tree);
    if k == list.len() {
        assert(more[k] == tree);
        assert(once_behind(b, more, k + 1) == b);
    } else {
        lemma_once_behind(b, list, tree, k + 1);
        assert(more[k] == list[k]);
    }
}

/// The parts of a list that is written as its beginning and its last part.
pub open spec fn members(tree: Tree) -> Seq<Tree>
    decreases tree,
{
    match tree {
        Tree::Leaf { .. } => Seq::empty(),
        Tree::Node { children, .. } => if children.len() == 2 {
            members(children[0]).push(children[1])
        } else {
            seq![children[0]]
        },
    }
}

proof fn lemma_two<P>(b: BuilderModel<P>, c: Seq<Tree>)
    requires
        c.len() == 2,
    ensures
        ({
            let (after, last) = meaning::meaning(b, c[1]);
            let (done, first) = meaning::meaning(after, c[0]);
            meaning::meanings(b, c) == (done, seq![first, last])
        }),
{
    let (after, last) = meaning::meaning(b, c[1]);
    let (done, first) = meaning::meaning(after, c[0]);
    let rest = c.drop_last();
    assert(c.last() == c[1]);
    assert(rest.last() == c[0]);
    assert(rest.drop_last() =~= Seq::empty());
    reveal_with_fuel(meaning::meanings, 3);
    assert(meaning::meanings(b, c).1 =~= seq![first, last]);
}

proof fn lemma_one<P>(b: BuilderModel<P>, c: Seq<Tree>)
    requires
        c.len() == 1,
    ensures
        meaning::meanings(b, c) == (meaning::meaning(b, c[0]).0, seq![
            meaning::meaning(b, c[0]).1,
        ]),
{
    assert(c.last() == c[0]);
    assert(c.drop_last() =~= Seq::empty());
    reveal_with_fuel(meaning::meanings, 2);
    assert(meaning::meanings(b, c).1 =~= seq![meaning::meaning(b, c[0]).1]);
}

/// An alternative has exactly one symbol for each of its atoms, in the order of the text, however
/// many there are: the one that the atom stands for. The atoms are interpreted from the last to the
/// first, and nothing but what they add is added.
pub proof fn law_one_symbol_for_each_atom<P>(b: BuilderModel<P>, tree: Tree)
    requires
        syntax::well_formed(tree),
        tree is Node,
        tree.symbol() == "<Variant>"@,
    ensures
        ({
            let atoms = members(tree);
            let (done, v) = meaning::meaning(b, tree);
            &&& v is Variant
            &&& v.variant().len() == atoms.len()
            &&& forall|k: int|
                0 <= k < atoms.len() ==> #[trigger] v.variant()[k] == meaning::meaning(
                    once_behind(b, atoms, k + 1),
                    atoms[k],
                ).1.atom()
            &&& done == once_behind(b, atoms, 0)
        }),
    decreases tree,
{
    let c = tree->children;
    let atoms = members(tree);
    lemma_which(tree->rule);
    lemma_shape(tree, 0);
    lemma_reduce_plain(meaning::meanings(b, c).0, meaning::meanings(b, c).1);
    if c.len() == 2 {
        assert(c[0] is Node && c[0].symbol() == "<Variant>"@) by {
            syntax::lemma_names();
        }
        let (after, last) = meaning::meaning(b, c[1]);
        lemma_two(b, c);
        law_one_symbol_for_each_atom(after, c[0]);
        let some = members(c[0]);
        let v = meaning::meaning(b, tree).1;
        lemma_once_behind(b, some, c[1], 0);
        assert forall|k: int| 0 <= k < atoms.len() implies #[trigger] v.variant()[k]
            == meaning::meaning(once_behind(b, atoms, k + 1), atoms[k]).1.atom() by {
            if k < some.len() {
                lemma_once_behind(b, some, c[1], k + 1);
                assert(atoms[k] == some[k]);
            } else {
                assert(once_behind(b, atoms, k + 1) == b);
            }
        }
    } else {
        lemma_one(b, c);
        assert(once_behind(b, atoms, 1) == b);
    }
}

/// The alternatives of a list: each with the numeral of its priority, if it has one.
pub open spec fn alternatives(tree: Tree) -> Seq<(Tree, Option<Seq<char>>)>
    decreases tree,
{
    match tree {
        Tree::Leaf { .. } => Seq::empty(),
        Tree::Node { children, .. } => if children.len() == 3 {
            alternatives(children[0]).push((children[2], None))
        } else if children.len() == 7 {
            alternatives(children[0]).push((children[2], Some(token_of(children[5]))))
        } else if children.len() == 5 {
            seq![(children[0], Some(token_of(children[3])))]
        } else {
            seq![(children[0], None)]
        },
    }
}

/// The alternatives without their priorities.
pub open spec fn bodies(list: Seq<(Tree, Option<Seq<char>>)>) -> Seq<Tree> {
    list.map_values(|a: (Tree, Option<Seq<char>>)| a.0)
}

proof fn lemma_number<P>(b: BuilderModel<P>, tree: Tree)
    requires
        tree is Leaf,
        tree.symbol() == "<Num>"@,
    ensures
        meaning::meaning(b, tree) == (
            b,
            Value::Num(meaning::numeral(token_of(tree)) as i32),
        ),
{
    syntax::lemma_names();
}

/// What follows an alternative adds nothing, and gives the number of its priority.
proof fn lemma_annotation<P>(b: BuilderModel<P>, c: Seq<Tree>, m: int)
    requires
        m == 1 || m == 3,
        c.len() == m + 4,
        forall|k: int|
            m <= k < c.len() && k != m + 2 ==> (#[trigger] c[k]) is Leaf && syntax::mark(
                c[k].symbol(),
            ),
        c[m + 2] is Leaf,
        c[m + 2].symbol() == "<Num>"@,
    ensures
        ({
            let (done, values) = meaning::meanings(b, c.take(m));
            meaning::meanings(b, c).0 == done && meaning::meanings(b, c).1.len() == c.len()
                && meaning::meanings(b, c).1.take(m) == values && meaning::meanings(b, c).1[m + 2]
                == Value::Num(meaning::numeral(token_of(c[m + 2])) as i32)
        }),
{
    let n = c.len() as int;
    lemma_mark(b, c[m + 3]);
    lemma_number(b, c[m + 2]);
    lemma_mark(b, c[m + 1]);
    lemma_mark(b, c[m]);
    let d = c.drop_last();
    let e = d.drop_last();
    let f = e.drop_last();
    assert(f.drop_last() =~= c.take(m));
    assert(c.last() == c[m + 3] && d.last() == c[m + 2] && e.last() == c[m + 1] && f.last()
        == c[m]);
    let (done, values) = meaning::meanings(b, c.take(m));
    lemma_values_len(b, c.take(m));
    assert(meaning::meanings(b, f) == (done, values.push(meaning::meaning(b, c[m]).1)));
    assert(meaning::meanings(b, e) == (
        done,
        meaning::meanings(b, f).1.push(meaning::meaning(b, c[m + 1]).1),
    ));
    assert(meaning::meanings(b, d) == (
        done,
        meaning::meanings(b, e).1.push(meaning::meaning(b, c[m + 2]).1),
    ));
    assert(meaning::meanings(b, c) == (
        done,
        meaning::meanings(b, d).1.push(meaning::meaning(b, c[m + 3]).1),
    ));
    assert(meaning::meanings(b, c).1.take(m) =~= values);
}

proof fn lemma_values_len<P>(b: BuilderModel<P>, trees: Seq<Tree>)
    ensures
        meaning::meanings(b, trees).1.len() == trees.len(),
    decreases trees.len(),
{
    if trees.len() > 0 {
        lemma_values_len(meaning::meaning(b, trees.last()).0, trees.drop_last());
    }
}

/// The entry is what the alternative stands for, where it is interpreted in `b`.
pub open spec fn entry_fits<P>(
    b: BuilderModel<P>,
    alt: (Tree, Option<Seq<char>>),
    entry: (Seq<Seq<char>>, Option<i32>),
) -> bool {
    &&& entry.0 == meaning::meaning(b, alt.0).1.variant()
    &&& entry.1 == match alt.1 {
        Some(t) => Some(meaning::numeral(t) as i32),
        None => None,
    }
}

proof fn lemma_entry_pushed<P>(
    b: BuilderModel<P>,
    some: Seq<(Tree, Option<Seq<char>>)>,
    alt: (Tree, Option<Seq<char>>),
    entries: Variants,
    last: (Seq<Seq<char>>, Option<i32>),
)
    requires
        entries.len() == some.len(),
        forall|k: int|
            0 <= k < some.len() ==> entry_fits(
                once_behind(meaning::meaning(b, alt.0).0, bodies(some), k + 1),
                some[k],
                #[trigger] entries[k],
            ),
        entry_fits(b, alt, last),
    ensures
        ({
            let list = some.push(alt);
            let all = entries.push(last);
            &&& forall|k: int|
                0 <= k < list.len() ==> entry_fits(
                    once_behind(b, bodies(list), k + 1),
                    list[k],
                    #[trigger] all[k],
                )
            &&& once_behind(b, bodies(list), 0) == once_behind(
                meaning::meaning(b, alt.0).0,
                bodies(some),
                0,
            )
        }),
{
    let list = some.push(alt);
    let all = entries.push(last);
    assert(bodies(list) =~= bodies(some).push(alt.0));
    lemma_once_behind(b, bodies(some), alt.0, 0);
    assert forall|k: int| 0 <= k < list.len() implies entry_fits(
        once_behind(b, bodies(list), k + 1),
        list[k],
        #[trigger] all[k],
    ) by {
        if k < some.len() {
            lemma_once_behind(b, bodies(some), alt.0, k + 1);
            assert(all[k] == entries[k]);
        } else {
            assert(once_behind(b, bodies(list), k + 1) == b);
        }
    }
}

/// A list of alternatives has exactly one entry for each of them, in the order of the text, however
/// many there are: the symbols of the alternative, and the number of its own priority annotation,
/// or none where it has none.
#[verifier::spinoff_prover]
#[verifier::rlimit(40)]
pub proof fn law_one_entry_for_each_alternative<P>(b: BuilderModel<P>, tree: Tree)
    requires
        syntax::well_formed(tree),
        tree is Node,
        tree.symbol() == "<VariantList>"@,
    ensures
        ({
            let list = alternatives(tree);
            let (done, v) = meaning::meaning(b, tree);
            &&& v is VariantList
            &&& v.variants().len() == list.len()
            &&& forall|k: int|
                0 <= k < list.len() ==> entry_fits(
                    once_behind(b, bodies(list), k + 1),
                    list[k],
                    #[trigger] v.variants()[k],
                )
            &&& done == once_behind(b, bodies(list), 0)
        }),
    decreases tree,
{
    let c = tree->children;
    let list = alternatives(tree);
    let rule = tree->rule;
    lemma_shape(tree, 0);
    lemma_which(rule);
    lemma_list_shape(tree);
    let v = meaning::meaning(b, tree).1;
    let args = meaning::meanings(b, c).1;
    let done = meaning::meanings(b, c).0;
    lemma_reduce_plain(done, args);
    if c.len() == 3 || c.len() == 7 {
        let t = c.take(3);
        if c.len() == 7 {
            lemma_annotation(b, c, 3);
        } else {
            assert(t =~= c);
        }
        let (after, last) = meaning::meaning(b, c[2]);
        lemma_behind_mark(b, t);
        let first = meaning::meaning(after, c[0]).1;
        if c.len() == 7 {
            assert(args.take(3)[0] == args[0] && args.take(3)[2] == args[2]);
        }
        assert(args[0] == first && args[2] == last);
        law_one_entry_for_each_alternative(after, c[0]);
        let some = alternatives(c[0]);
        let alt = (
            c[2],
            if c.len() == 7 {
                Some(token_of(c[5]))
            } else {
                None
            },
        );
        assert(list == some.push(alt));
        lemma_entry_pushed(b, some, alt, first.variants(), v.variants().last());
        assert(v.variants() == first.variants().push(v.variants().last()));
    } else {
        let t = c.take(1);
        if c.len() == 5 {
            lemma_annotation(b, c, 1);
            assert(args.take(1)[0] == args[0]);
        } else {
            assert(t =~= c);
        }
        lemma_one(b, t);
        assert(args[0] == meaning::meaning(b, c[0]).1);
        assert(bodies(list) =~= seq![c[0]]);
        assert(once_behind(b, bodies(list), 1) == b);
    }
}

/// The parts of a list of alternatives.
proof fn lemma_list_shape(tree: Tree)
    requires
        syntax::well_formed(tree),
        tree is Node,
        tree.symbol() == "<VariantList>"@,
    ensures
        tree->children.len() == tree->rule.spec.len(),
        tree->rule.spec.len() == 3 || tree->rule.spec.len() == 7 ==> {
            &&& tree->children[1] is Leaf && syntax::mark(tree->children[1].symbol())
            &&& tree->children[0] is Node && tree->children[0].symbol() == "<VariantList>"@
            &&& syntax::well_formed(tree->children[0])
        },
        tree->rule.spec.len() == 7 ==> {
            &&& forall|k: int|
                3 <= k < 7 && k != 5 ==> (#[trigger] tree->children[k]) is Leaf && syntax::mark(
                    tree->children[k].symbol(),
                )
            &&& tree->children[5] is Leaf && tree->children[5].symbol() == "<Num>"@
        },
        tree->rule.spec.len() == 5 ==> {
            &&& forall|k: int|
                1 <= k < 5 && k != 3 ==> (#[trigger] tree->children[k]) is Leaf && syntax::mark(
                    tree->children[k].symbol(),
                )
            &&& tree->children[3] is Leaf && tree->children[3].symbol() == "<Num>"@
        },
{
    let n = tree->rule.spec.len() as int;
    lemma_which(tree->rule);
    assert forall|k: int| 0 <= k < n implies (#[trigger] tree->children[k]).symbol()
        == tree->rule.spec[k] && syntax::well_formed(tree->children[k]) && (tree->children[k] is Node
        <==> syntax::category(tree->rule.spec[k])) by {
        lemma_shape(tree, k);
    }
    lemma_shape(tree, 0);
    syntax::lemma_names();
}

/// The first and the last of three, with a mark between them.
proof fn lemma_behind_mark<P>(b: BuilderModel<P>, t: Seq<Tree>)
    requires
        t.len() == 3,
        t[1] is Leaf && syntax::mark(t[1].symbol()),
    ensures
        ({
            let (after, last) = meaning::meaning(b, t[2]);
            let (done, first) = meaning::meaning(after, t[0]);
            &&& meaning::meanings(b, t).0 == done
            &&& meaning::meanings(b, t).1.len() == 3
            &&& meaning::meanings(b, t).1[0] == first
            &&& meaning::meanings(b, t).1[2] == last
        }),
{
    let (after, last) = meaning::meaning(b, t[2]);
    lemma_mark(after, t[1]);
    assert(t.last() == t[2]);
    assert(t.drop_last() =~= seq![t[0], t[1]]);
    lemma_two(after, seq![t[0], t[1]]);
}

/// The lists of symbols of the rules that brackets make: those of the alternatives, which in braces
/// go on with the symbol itself, and, but for round brackets, the empty one.
pub open spec fn bracket_specs(
    open: Seq<char>,
    aux: Seq<char>,
    body: Variants,
) -> Seq<Seq<Seq<char>>> {
    let specs = Seq::new(
        body.len(),
        |k: int|
            if open == "{"@ {
                body[k].0.push(aux)
            } else {
                body[k].0
            },
    );
    if open == "("@ {
        specs
    } else {
        specs.push(Seq::empty())
    }
}

/// What the inside of brackets is interpreted in: with the symbol of the tag, if there is one.
pub open spec fn with_tag<P>(b: BuilderModel<P>, children: Seq<Tree>) -> BuilderModel<P> {
    if children.len() == 4 {
        BuilderModel {
            symbols: with_name(b.symbols, token_of(children[3]), Kind::NonTerm),
            ..b
        }
    } else {
        b
    }
}

/// What brackets make: one symbol, which is that of the tag or one that nothing had before, and
/// under it exactly one rule for each alternative and, for `[ ]` and `{ }`, the empty one; in
/// `{ }` the alternatives go on with the symbol itself. The rules have the priorities of their
/// alternatives, and nothing else changes. The brackets stand for the symbol.
pub proof fn law_what_brackets_make<P>(b: BuilderModel<P>, tree: Tree)
    requires
        syntax::well_formed(tree),
        tree is Node,
        tree.symbol() == "<Atom>"@,
        tree->rule.spec[0] == "("@ || tree->rule.spec[0] == "["@ || tree->rule.spec[0] == "{"@,
    ensures
        ({
            let c = tree->children;
            let (inner, v) = meaning::meaning(with_tag(b, c), c[1]);
            let (done, w) = meaning::meaning(b, tree);
            let aux = w.atom();
            let body = v.variants();
            let specs = bracket_specs(tree->rule.spec[0], aux, body);
            &&& w == Value::Atom(aux)
            &&& c.len() == 4 ==> aux == token_of(c[3])
            &&& c.len() != 4 ==> !grammar::named(inner.symbols, aux)
            &&& done.symbols == with_name(inner.symbols, aux, Kind::NonTerm)
            &&& done.error == inner.error
            &&& with_exactly(inner.rules, done.rules, aux, specs)
            &&& with_ranks(inner.priorities, done.priorities, aux, specs, body)
        }),
{
    let c = tree->children;
    let rule = tree->rule;
    let open = rule.spec[0];
    let start = with_tag(b, c);
    let (inner, v) = meaning::meaning(start, c[1]);
    let args = meaning::meanings(b, c).1;
    lemma_bracket_args(b, tree);
    lemma_which(rule);
    lemma_reduce_brackets(inner, rule, args);
    let (done, w) = meaning::meaning(b, tree);
    let aux = w.atom();
    let body = v.variants();
    inner.law_unique_name_is_free();
    grammar::lemma_named(inner.symbols, aux);
    lemma_under(inner, aux, open, v);
}

/// The parts of brackets.
proof fn lemma_bracket_args<P>(b: BuilderModel<P>, tree: Tree)
    requires
        syntax::well_formed(tree),
        tree is Node,
        tree.symbol() == "<Atom>"@,
        tree->rule.spec[0] == "("@ || tree->rule.spec[0] == "["@ || tree->rule.spec[0] == "{"@,
    ensures
        ({
            let c = tree->children;
            let (inner, v) = meaning::meaning(with_tag(b, c), c[1]);
            &&& syntax::productions().contains(tree->rule)
            &&& c.len() == tree->rule.spec.len()
            &&& c.len() == 3 || c.len() == 4
            &&& meaning::meanings(b, c).0 == inner
            &&& meaning::meanings(b, c).1[1] == v
            &&& c.len() == 4 ==> meaning::meanings(b, c).1[3] == Value::Atom(token_of(c[3]))
            &&& ebnf_laws::bodies_have(inner, v.variants())
        }),
{
    let c = tree->children;
    let start = with_tag(b, c);
    lemma_bracket_shape(tree);
    let t = c.take(3);
    lemma_three(start, t);
    ebnf_laws::lemma_meaning(start, c[1]);
    syntax::lemma_names();
    if c.len() == 4 {
        lemma_name_leaf(b, c[3]);
        assert(c.last() == c[3]);
        assert(c.drop_last() =~= t);
    } else {
        assert(t =~= c);
    }
}

proof fn lemma_bracket_shape(tree: Tree)
    requires
        syntax::well_formed(tree),
        tree is Node,
        tree.symbol() == "<Atom>"@,
        tree->rule.spec[0] == "("@ || tree->rule.spec[0] == "["@ || tree->rule.spec[0] == "{"@,
    ensures
        ({
            let c = tree->children;
            &&& syntax::productions().contains(tree->rule)
            &&& c.len() == tree->rule.spec.len()
            &&& c.len() == 3 || c.len() == 4
            &&& c[0] is Leaf && syntax::mark(c[0].symbol())
            &&& c[2] is Leaf && syntax::mark(c[2].symbol())
            &&& c[1].symbol() == "<VariantList>"@ && syntax::well_formed(c[1])
            &&& c.len() == 4 ==> c[3] is Leaf && c[3].symbol() == "@<Tag>"@
        }),
{
    let n = tree->rule.spec.len() as int;
    lemma_which(tree->rule);
    assert forall|k: int| 0 <= k < n implies (#[trigger] tree->children[k]).symbol()
        == tree->rule.spec[k] && syntax::well_formed(tree->children[k]) && (tree->children[k] is Node
        <==> syntax::category(tree->rule.spec[k])) by {
        lemma_shape(tree, k);
    }
    syntax::lemma_names();
}

/// What is made under the symbol of brackets.
proof fn lemma_under<P>(inner: BuilderModel<P>, aux: Seq<char>, open: Seq<char>, v: Value)
    requires
        open == "("@ || open == "["@ || open == "{"@,
        ebnf_laws::bodies_have(inner, v.variants()),
    ensures
        ({
            let body = v.variants();
            let tailed = if open == "{"@ {
                meaning::with_tail(body, aux)
            } else {
                body
            };
            let grouped = meaning::with_variants(
                inner.with_symbol(aux, Kind::NonTerm),
                aux,
                tailed,
            );
            let done = if open == "("@ {
                grouped
            } else {
                grouped.with_rule(RuleModel { head: aux, spec: Seq::empty() })
            };
            let specs = bracket_specs(open, aux, body);
            &&& done.symbols == with_name(inner.symbols, aux, Kind::NonTerm)
            &&& done.error == inner.error
            &&& with_exactly(inner.rules, done.rules, aux, specs)
            &&& with_ranks(inner.priorities, done.priorities, aux, specs, body)
        }),
{
    let body = v.variants();
    inner.law_what_is_added(aux, Kind::NonTerm, syntax::named());
    ebnf_laws::lemma_symbol_added(inner, aux, Kind::<P>::NonTerm);
    let with = inner.with_symbol(aux, Kind::NonTerm);
    assert(ebnf_laws::bodies_have(with, body)) by {
        assert forall|k: int| 0 <= k < body.len() implies ebnf_laws::all_have(
            with,
            (#[trigger] body[k]).0,
        ) by {
            assert(ebnf_laws::all_have(inner, body[k].0));
        }
    }
    ebnf_laws::lemma_tail_has(with, body, aux);
    let tailed = if open == "{"@ {
        meaning::with_tail(body, aux)
    } else {
        body
    };
    lemma_variants_exact(with, aux, tailed);
    let grouped = meaning::with_variants(with, aux, tailed);
    let specs = bracket_specs(open, aux, body);
    let plain = specs_of(tailed);
    let none = RuleModel { head: aux, spec: Seq::<Seq<char>>::empty() };
    if open == "("@ {
        assert(specs =~= plain) by {
            syntax::lemma_names();
        }
        lemma_same_ranks(inner.priorities, grouped.priorities, aux, plain, tailed, specs, body);
    } else {
        let done = grouped.with_rule(none);
        ebnf_laws::lemma_rule_added(grouped, none);
        lemma_one_more(grouped.rules, done.rules, none);
        lemma_more_specs(with.rules, grouped.rules, done.rules, aux, plain, none);
        assert(specs =~= plain.push(none.spec));
        lemma_same_ranks(inner.priorities, done.priorities, aux, plain, tailed, specs, body);
    }
}

/// The same priorities, where the lists of symbols are the same.
proof fn lemma_same_ranks(
    before: Map<Seq<char>, i32>,
    after: Map<Seq<char>, i32>,
    head: Seq<char>,
    a: Seq<Seq<Seq<char>>>,
    x: Variants,
    b: Seq<Seq<Seq<char>>>,
    y: Variants,
)
    requires
        with_ranks(before, after, head, a, x),
        x.len() == y.len(),
        forall|k: int|
            #![trigger x[k]]
            #![trigger y[k]]
            0 <= k < x.len() ==> x[k].1 == y[k].1 && a[k] == b[k],
    ensures
        with_ranks(before, after, head, b, y),
{
    assert forall|name: Seq<char>| !#[trigger] is_ranked(head, b, y, name) implies (
    after.contains_key(name) <==> before.contains_key(name)) && (before.contains_key(name)
        ==> after[name] == before[name]) by {
        if is_ranked(head, a, x, name) {
            let k = choose|k: int|
                0 <= k < x.len() && (#[trigger] x[k]).1 is Some && (RuleModel {
                    head,
                    spec: a[k],
                }).text() == name;
            assert(y[k].1 is Some);
            assert(is_ranked(head, b, y, name));
        }
    }
    assert forall|k: int|
        0 <= k < y.len() && (#[trigger] y[k]).1 is Some && (forall|j: int|
            k < j < y.len() && (#[trigger] y[j]).1 is Some ==> (RuleModel {
                head,
                spec: b[j],
            }).text() != (RuleModel { head, spec: b[k] }).text()) implies after.contains_key(
        (RuleModel { head, spec: b[k] }).text(),
    ) && after[(RuleModel { head, spec: b[k] }).text()] == y[k].1->Some_0 by {
        assert(x[k].1 is Some);
        assert forall|j: int| k < j < x.len() && (#[trigger] x[j]).1 is Some implies (RuleModel {
            head,
            spec: a[j],
        }).text() != (RuleModel { head, spec: a[k] }).text() by {
            assert(y[j].1 is Some);
        }
    }
}

/// What a definition makes: the symbol of its name, unless there is one, and under it exactly one
/// rule for each alternative, with their priorities; nothing else changes but what the
/// alternatives make themselves.
pub proof fn law_what_a_definition_makes<P>(b: BuilderModel<P>, tree: Tree)
    requires
        syntax::well_formed(tree),
        tree is Node,
        tree.symbol() == "<Rule>"@,
    ensures
        ({
            let name = token_of(tree->children[0]);
            let (inner, v) = meaning::meaning(b, tree->children[2]);
            let body = v.variants();
            let done = meaning::meaning(b, tree).0;
            &&& done.symbols == with_name(inner.symbols, name, Kind::NonTerm)
            &&& done.error == inner.error
            &&& with_exactly(inner.rules, done.rules, name, specs_of(body))
            &&& with_ranks(inner.priorities, done.priorities, name, specs_of(body), body)
        }),
{
    let c = tree->children;
    let rule = tree->rule;
    syntax::lemma_names();
    syntax::lemma_productions(rule);
    syntax::lemma_distinct_productions();
    assert(rule == syntax::definition());
    assert(syntax::parts(tree) == c);
    syntax::lemma_part(tree, 0);
    syntax::lemma_part(tree, 1);
    syntax::lemma_part(tree, 2);
    syntax::lemma_part(tree, 3);
    let name = token_of(c[0]);
    let (inner, v) = meaning::meaning(b, c[2]);
    let with = inner.with_symbol(name, Kind::NonTerm);
    lemma_mark(b, c[3]);
    lemma_mark(inner, c[1]);
    assert(meaning::meaning(inner, c[0]) == (with, Value::Atom(name)));
    let t = c.drop_last();
    let args = meaning::meanings(b, c).1;
    assert(c.last() == c[3]);
    assert(t.last() == c[2]);
    assert(t.drop_last() =~= seq![c[0], c[1]]);
    lemma_two(inner, seq![c[0], c[1]]);
    assert(meaning::meanings(b, t) == (
        with,
        seq![Value::Atom(name), Value::Atom(token_of(c[1]))].push(v),
    ));
    assert(args[0] == Value::Atom(name));
    assert(args[2] == v);
    inner.law_what_is_added(name, Kind::NonTerm, rule);
    ebnf_laws::lemma_symbol_added(inner, name, Kind::<P>::NonTerm);
    ebnf_laws::lemma_meaning(b, c[2]);
    ebnf_laws::lemma_value_kept(inner, with, "<VariantList>"@, v);
    lemma_variants_exact(with, name, v.variants());
}

/// A text is interpreted definition by definition, from the last to the first, and adds what these
/// add and nothing else.
pub proof fn law_a_text_is_its_definitions<P>(b: BuilderModel<P>, tree: Tree)
    requires
        syntax::well_formed(tree),
        tree is Node,
        tree.symbol() == "<RuleList>"@,
    ensures
        meaning::meaning(b, tree).0 == once_behind(b, members(tree), 0),
    decreases tree,
{
    let c = tree->children;
    let list = members(tree);
    syntax::lemma_names();
    syntax::lemma_productions(tree->rule);
    syntax::lemma_distinct_productions();
    assert(syntax::parts(tree) == c);
    syntax::lemma_part(tree, 0);
    if c.len() == 2 {
        let after = meaning::meaning(b, c[1]).0;
        lemma_two(b, c);
        law_a_text_is_its_definitions(after, c[0]);
        lemma_once_behind(b, members(c[0]), c[1], 0);
    } else {
        lemma_one(b, c);
        assert(once_behind(b, list, 1) == b);
    }
}

/// Trees for the symbols of one of the alternatives.
pub open spec fn is_piece<P: Fn(&str) -> bool>(
    g: GrammarModel<P>,
    specs: Seq<Seq<Seq<char>>>,
    piece: Seq<Tree>,
    sure: bool,
) -> bool {
    rewriting::sound(g, piece, sure) && specs.contains(rewriting::symbols_of(piece))
}

/// The tokens of a sequence of pieces.
pub open spec fn piece_tokens(pieces: Seq<Seq<Tree>>) -> Seq<Seq<char>>
    decreases pieces.len(),
{
    if pieces.len() == 0 {
        Seq::empty()
    } else {
        derivation::forest_tokens(pieces[0]) + piece_tokens(pieces.drop_first())
    }
}

/// Each of them is a piece.
pub open spec fn are_pieces<P: Fn(&str) -> bool>(
    g: GrammarModel<P>,
    specs: Seq<Seq<Seq<char>>>,
    pieces: Seq<Seq<Tree>>,
    sure: bool,
) -> bool {
    forall|k: int| 0 <= k < pieces.len() ==> is_piece(g, specs, #[trigger] pieces[k], sure)
}

/// The rules of `aux` are those of the braces around the alternatives.
pub open spec fn repeats<P>(
    g: GrammarModel<P>,
    aux: Seq<char>,
    specs: Seq<Seq<Seq<char>>>,
) -> bool {
    &&& rewriting::is_kind(g, aux, Kind::NonTerm)
    &&& forall|rule: RuleModel|
        rule.head == aux ==> (#[trigger] g.rules.contains(rule) <==> rule.spec.len() == 0 || (
        rule.spec.last() == aux && specs.contains(rule.spec.drop_last())))
}

/// What is in braces may be repeated any number of times, and left out: whatever pieces there are,
/// one behind the other, the symbol of the braces has a tree of their tokens.
pub proof fn law_braces_repeat<P: Fn(&str) -> bool>(
    g: GrammarModel<P>,
    aux: Seq<char>,
    specs: Seq<Seq<Seq<char>>>,
    pieces: Seq<Seq<Tree>>,
    sure: bool,
) -> (tree: Tree)
    requires
        repeats(g, aux, specs),
        are_pieces(g, specs, pieces, sure),
    ensures
        tree is Node,
        tree.symbol() == aux,
        g.yields(tree, sure),
        tree.tokens() == piece_tokens(pieces),
    decreases pieces.len(),
{
    if pieces.len() == 0 {
        let rule = RuleModel { head: aux, spec: Seq::empty() };
        let tree = Tree::Node { rule, children: Seq::empty() };
        assert(g.rules.contains(rule));
        assert(tree.tokens() == derivation::forest_tokens(Seq::empty()));
        tree
    } else {
        let rest = pieces.drop_first();
        assert forall|k: int| 0 <= k < rest.len() implies is_piece(
            g,
            specs,
            #[trigger] rest[k],
            sure,
        ) by {
            assert(rest[k] == pieces[k + 1]);
        }
        let below = law_braces_repeat(g, aux, specs, rest, sure);
        let piece = pieces[0];
        assert(is_piece(g, specs, pieces[0], sure));
        let symbols = rewriting::symbols_of(piece);
        let rule = RuleModel { head: aux, spec: symbols.push(aux) };
        let children = piece.push(below);
        let tree = Tree::Node { rule, children };
        assert(rule.spec.drop_last() =~= symbols);
        assert(g.rules.contains(rule));
        rewriting::law_the_first_of_a_name_is_found(g, aux, Kind::NonTerm);
        assert(g.yields(tree, sure)) by {
            assert forall|k: int| #![trigger children[k]] 0 <= k < children.len() implies {
                &&& children[k].symbol() == rule.spec[k]
                &&& children[k] is Node ==> g.is_nonterm(rule.spec[k])
                &&& g.yields(children[k], sure)
            } by {
                if k < piece.len() {
                    assert(children[k] == piece[k]);
                    assert(symbols[k] == piece[k].symbol());
                }
            }
        }
        assert(children.drop_last() =~= piece);
        assert(tree.tokens() == derivation::forest_tokens(children));
        tree
    }
}

/// Nothing else is derived by the symbol of braces: its trees are of pieces, one behind the other.
pub proof fn law_braces_only_repeat<P: Fn(&str) -> bool>(
    g: GrammarModel<P>,
    aux: Seq<char>,
    specs: Seq<Seq<Seq<char>>>,
    tree: Tree,
    sure: bool,
) -> (pieces: Seq<Seq<Tree>>)
    requires
        repeats(g, aux, specs),
        tree is Node,
        tree.symbol() == aux,
        g.yields(tree, sure),
    ensures
        are_pieces(g, specs, pieces, sure),
        tree.tokens() == piece_tokens(pieces),
    decreases tree,
{
    let rule = tree->rule;
    let children = tree->children;
    assert(tree.tokens() == derivation::forest_tokens(children));
    if rule.spec.len() == 0 {
        Seq::empty()
    } else {
        let n = children.len() - 1;
        let piece = children.drop_last();
        let below = children[n];
        assert(below.symbol() == rule.spec[n]);
        rewriting::law_the_first_of_a_name_is_found(g, aux, Kind::NonTerm);
        assert(below is Node) by {
            if below is Leaf {
                assert(g.yields(below, sure));
            }
        }
        let rest = law_braces_only_repeat(g, aux, specs, below, sure);
        let pieces = seq![piece] + rest;
        assert(pieces.drop_first() =~= rest);
        assert(rewriting::symbols_of(piece) =~= rule.spec.drop_last());
        assert(rewriting::sound(g, piece, sure)) by {
            assert forall|k: int| #![trigger piece[k]] 0 <= k < piece.len() implies g.yields(
                piece[k],
                sure,
            ) && (piece[k] is Node ==> g.is_nonterm(piece[k].symbol())) by {
                assert(piece[k] == children[k]);
            }
        }
        assert forall|k: int| 0 <= k < pieces.len() implies is_piece(
            g,
            specs,
            #[trigger] pieces[k],
            sure,
        ) by {
            if k > 0 {
                assert(pieces[k] == rest[k - 1]);
            }
        }
        assert(below == children.last());
        pieces
    }
}

/// What the symbol of brackets derives, where the brackets made its rules: `( )` one of the
/// alternatives, `[ ]` one of them or nothing, and `{ }` any number of them, one behind the other;
/// in each case whatever these derive, and nothing else.
pub proof fn law_what_brackets_derive<P: Fn(&str) -> bool>(
    g: GrammarModel<P>,
    before: Seq<RuleModel>,
    open: Seq<char>,
    aux: Seq<char>,
    body: Variants,
    tree: Tree,
    piece: Seq<Tree>,
    sure: bool,
)
    requires
        open == "("@ || open == "["@ || open == "{"@,
        with_exactly(before, g.rules, aux, bracket_specs(open, aux, body)),
        forall|k: int| 0 <= k < before.len() ==> (#[trigger] before[k]).head != aux,
        rewriting::is_kind(g, aux, Kind::NonTerm),
    ensures
        open == "{"@ ==> repeats(g, aux, specs_of(body)),
        open != "{"@ && (tree matches Tree::Node { rule, .. } && rule.head == aux) && g.yields(
            tree,
            sure,
        ) ==> is_piece(g, specs_of(body), tree->children, sure) || (open == "["@
            && tree->children.len() == 0),
        open != "{"@ && is_piece(g, specs_of(body), piece, sure) ==> g.yields(
            Tree::Node {
                rule: RuleModel { head: aux, spec: rewriting::symbols_of(piece) },
                children: piece,
            },
            sure,
        ),
        open == "["@ ==> g.yields(
            Tree::Node {
                rule: RuleModel { head: aux, spec: Seq::empty() },
                children: Seq::empty(),
            },
            sure,
        ),
{
    let specs = bracket_specs(open, aux, body);
    let plain = specs_of(body);
    syntax::lemma_names();
    assert forall|rule: RuleModel| rule.head == aux implies (#[trigger] g.rules.contains(rule)
        <==> specs.contains(rule.spec)) by {
        if before.contains(rule) {
            assert(before[before.index_of(rule)].head != aux);
        }
    }
    lemma_bracket_specs(open, aux, body);
    if open == "{"@ {
        assert forall|rule: RuleModel| rule.head == aux implies (#[trigger] g.rules.contains(rule)
            <==> rule.spec.len() == 0 || (rule.spec.last() == aux && plain.contains(
            rule.spec.drop_last(),
        ))) by {
            assert(specs.contains(rule.spec) <==> rule.spec.len() == 0 || (rule.spec.last() == aux
                && plain.contains(rule.spec.drop_last())));
        }
    } else {
        if let Tree::Node { rule, children } = tree {
            if rule.head == aux && g.yields(tree, sure) {
                assert(g.rules.contains(rule));
                assert(specs.contains(rule.spec));
                assert(rewriting::symbols_of(children) =~= rule.spec);
                assert(rewriting::sound(g, children, sure)) by {
                    assert forall|k: int| #![trigger children[k]] 0 <= k < children.len() implies
                        g.yields(children[k], sure) && (children[k] is Node ==> g.is_nonterm(
                        children[k].symbol(),
                    )) by {}
                }
            }
        }
        if is_piece(g, plain, piece, sure) {
            let symbols = rewriting::symbols_of(piece);
            let rule = RuleModel { head: aux, spec: symbols };
            assert(specs.contains(symbols));
            assert(g.rules.contains(rule));
            assert(symbols.len() == piece.len());
            assert(g.yields(Tree::Node { rule, children: piece }, sure)) by {
                assert forall|k: int| #![trigger piece[k]] 0 <= k < piece.len() implies {
                    &&& piece[k].symbol() == rule.spec[k]
                    &&& piece[k] is Node ==> g.is_nonterm(rule.spec[k])
                    &&& g.yields(piece[k], sure)
                } by {
                    assert(symbols[k] == piece[k].symbol());
                }
            }
        }
        if open == "["@ {
            let rule = RuleModel { head: aux, spec: Seq::<Seq<char>>::empty() };
            assert(specs.contains(rule.spec));
            assert(g.rules.contains(rule));
        }
    }
}

/// Which lists of symbols the rules of brackets have.
proof fn lemma_bracket_specs(open: Seq<char>, aux: Seq<char>, body: Variants)
    requires
        open == "("@ || open == "["@ || open == "{"@,
    ensures
        open == "{"@ ==> forall|spec: Seq<Seq<char>>| #[trigger]
            bracket_specs(open, aux, body).contains(spec) <==> spec.len() == 0 || (spec.last()
                == aux && specs_of(body).contains(spec.drop_last())),
        open == "["@ ==> forall|spec: Seq<Seq<char>>| #[trigger]
            bracket_specs(open, aux, body).contains(spec) <==> spec.len() == 0
                || specs_of(body).contains(spec),
        open == "("@ ==> forall|spec: Seq<Seq<char>>| #[trigger]
            bracket_specs(open, aux, body).contains(spec) <==> specs_of(body).contains(spec),
{
    syntax::lemma_names();
    let specs = bracket_specs(open, aux, body);
    let plain = specs_of(body);
    let n = body.len() as int;
    if open != "("@ {
        assert(specs[n].len() == 0);
    }
    assert forall|k: int| 0 <= k < n implies #[trigger] specs[k] == if open == "{"@ {
        plain[k].push(aux)
    } else {
        plain[k]
    } by {}
    assert forall|spec: Seq<Seq<char>>| #[trigger] specs.contains(spec) <==> (spec.len() == 0
        && open != "("@) || (if open == "{"@ {
        spec.len() > 0 && spec.last() == aux && plain.contains(spec.drop_last())
    } else {
        plain.contains(spec)
    }) by {
        if specs.contains(spec) {
            let k = specs.index_of(spec);
            if k < n {
                assert(specs[k] == spec);
                if open == "{"@ {
                    assert(spec.drop_last() =~= plain[k]);
                }
            }
        }
        if spec.len() == 0 && open != "("@ {
            assert(spec =~= specs[n]);
        }
        if open == "{"@ {
            if spec.len() > 0 && spec.last() == aux && plain.contains(spec.drop_last()) {
                let k = plain.index_of(spec.drop_last());
                assert(spec =~= plain[k].push(aux));
                assert(specs[k] == spec);
            }
        } else if plain.contains(spec) {
            let k = plain.index_of(spec);
            assert(specs[k] == spec);
        }
    }
    if open == "{"@ {
        assert forall|spec: Seq<Seq<char>>| #[trigger] specs.contains(spec) <==> spec.len() == 0
            || (spec.last() == aux && plain.contains(spec.drop_last())) by {}
    }
}

} // verus!
