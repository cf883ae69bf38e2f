//! Charts that derive one tree only.

use vstd::prelude::*;

use crate::choices;
use crate::choices::Choice;
use crate::derivation;
use crate::derivation::{Fault, Tree, Unfolded};
use crate::enumeration::{Outcome, Setup};
use crate::grammar::GrammarModel;
use crate::language;
use crate::spans::{Chart, Source};

verus! {

/// Item `i` derives no two different lists of subtrees.
pub open spec fn sole(chart: Chart, i: int) -> bool {
    forall|a: Seq<Tree>, b: Seq<Tree>|
        #[trigger] derivation::derives(chart, i, a) && #[trigger] derivation::derives(chart, i, b)
            ==> a == b
}

/// Different back-pointers of an item derive different subtrees.
pub proof fn lemma_sources_differ<P: Fn(&str) -> bool>(
    chart: Chart,
    g: GrammarModel<P>,
    tokens: Seq<Seq<char>>,
    i: int,
    k: int,
    m: int,
    a: Seq<Tree>,
    b: Seq<Tree>,
)
    requires
        chart.wf(),
        language::supported(chart.items, g, tokens),
        language::tidy(chart.items),
        0 <= i < chart.items.len(),
        0 <= k < chart.items[i].sources.len(),
        0 <= m < chart.items[i].sources.len(),
        k != m,
        derivation::derives_by(chart, chart.items[i].sources[k], a),
        derivation::derives_by(chart, chart.items[i].sources[m], b),
    ensures
        a != b,
{
    let items = chart.items;
    let item = items[i];
    let s = item.sources[k];
    let t = item.sources[m];
    assert(chart.item_ok(i));
    assert(language::item_supported(items, g, tokens, i));
    assert(item.sources.no_duplicates());
    assert(s != t);
    assert(chart.source_ok(i, s));
    assert(chart.source_ok(i, t));
    assert(language::source_supported(items, g, tokens, item, s));
    assert(language::source_supported(items, g, tokens, item, t));
    if a == b {
        match (s, t) {
            (Source::Scan { from: f1, token: t1 }, Source::Scan { from: f2, token: t2 }) => {
                lemma_same_item(items, f1, f2);
            },
            (
                Source::Completion { from: f1, by: c1 },
                Source::Completion { from: f2, by: c2 },
            ) => {
                let children = a.last()->children;
                assert(language::item_supported(items, g, tokens, c1));
                assert(language::item_supported(items, g, tokens, c2));
                assert(chart.item_ok(c1));
                assert(chart.item_ok(c2));
                language::lemma_derived(chart, g, tokens, c1, children);
                language::lemma_derived(chart, g, tokens, c2, children);
                assert(tokens.subrange(items[c1].start, items[c1].end).len() == items[c1].end
                    - items[c1].start);
                assert(tokens.subrange(items[c2].start, items[c2].end).len() == items[c2].end
                    - items[c2].start);
                lemma_same_item(items, c1, c2);
                lemma_same_item(items, f1, f2);
            },
            _ => {},
        }
    }
}

/// Items that are the same rule with the same dot over the same tokens are one item.
pub proof fn lemma_same_item(items: Seq<crate::spans::Item>, a: int, b: int)
    requires
        language::tidy(items),
        0 <= a < items.len(),
        0 <= b < items.len(),
        language::is_at(items[a], items[b].rule, items[b].dot, items[b].start, items[b].end),
    ensures
        a == b,
{
    if a < b {
        assert(!language::is_at(
            items[a],
            items[b].rule,
            items[b].dot,
            items[b].start,
            items[b].end,
        ));
    }
    if b < a {
        assert(!language::is_at(
            items[b],
            items[a].rule,
            items[a].dot,
            items[a].start,
            items[a].end,
        ));
    }
}

/// An item that derives one list only has one back-pointer, and the items that it leads to
/// derive one list only.
proof fn lemma_sole_source<P: Fn(&str) -> bool>(
    chart: Chart,
    g: GrammarModel<P>,
    tokens: Seq<Seq<char>>,
    i: int,
)
    requires
        language::charts(chart, g, tokens),
        g.rules.no_duplicates(),
        0 <= i < chart.items.len(),
        sole(chart, i),
        chart.items[i].sources.len() > 0,
    ensures
        chart.items[i].sources.len() == 1,
        match chart.items[i].sources[0] {
            Source::Scan { from, .. } => sole(chart, from),
            Source::Completion { from, by } => sole(chart, from) && sole(chart, by),
        },
{
    let sources = chart.items[i].sources;
    assert(chart.item_ok(i));
    assert(chart.source_ok(i, sources[0]));
    let first = lemma_derives_via(chart, i, 0);
    if sources.len() > 1 {
        let second = lemma_derives_via(chart, i, 1);
        lemma_sources_differ(chart, g, tokens, i, 0, 1, first, second);
        assert(false);
    }
    match sources[0] {
        Source::Scan { from, .. } => {
            assert forall|a: Seq<Tree>, b: Seq<Tree>|
                #[trigger] derivation::derives(chart, from, a) && #[trigger] derivation::derives(
                    chart,
                    from,
                    b,
                ) implies a == b by {
                let x = language::lemma_derives_more(chart, i, 0, a, Seq::empty());
                let y = language::lemma_derives_more(chart, i, 0, b, Seq::empty());
                assert(x == y);
            }
        },
        Source::Completion { from, by } => {
            let before = language::lemma_derives_some(chart, from);
            let children = language::lemma_derives_some(chart, by);
            assert forall|a: Seq<Tree>, b: Seq<Tree>|
                #[trigger] derivation::derives(chart, from, a) && #[trigger] derivation::derives(
                    chart,
                    from,
                    b,
                ) implies a == b by {
                let x = language::lemma_derives_more(chart, i, 0, a, children);
                let y = language::lemma_derives_more(chart, i, 0, b, children);
                assert(x == y);
            }
            assert forall|a: Seq<Tree>, b: Seq<Tree>|
                #[trigger] derivation::derives(chart, by, a) && #[trigger] derivation::derives(
                    chart,
                    by,
                    b,
                ) implies a == b by {
                let x = language::lemma_derives_more(chart, i, 0, before, a);
                let y = language::lemma_derives_more(chart, i, 0, before, b);
                assert(x == y);
                assert(x.last() == y.last());
            }
        },
    }
}

/// Each back-pointer of an item derives something.
proof fn lemma_derives_via(chart: Chart, i: int, k: int) -> (trees: Seq<Tree>)
    requires
        chart.wf(),
        language::founded(chart.items),
        0 <= i < chart.items.len(),
        0 <= k < chart.items[i].sources.len(),
    ensures
        derivation::derives(chart, i, trees),
        derivation::derives_by(chart, chart.items[i].sources[k], trees),
{
    assert(chart.item_ok(i));
    assert(chart.source_ok(i, chart.items[i].sources[k]));
    match chart.items[i].sources[k] {
        Source::Scan { from, .. } => {
            let before = language::lemma_derives_some(chart, from);
            language::lemma_derives_more(chart, i, k, before, Seq::empty())
        },
        Source::Completion { from, by } => {
            let before = language::lemma_derives_some(chart, from);
            let children = language::lemma_derives_some(chart, by);
            language::lemma_derives_more(chart, i, k, before, children)
        },
    }
}

/// All rules have actions.
pub open spec fn all_known<P>(g: GrammarModel<P>, known: Set<Seq<char>>) -> bool {
    forall|r: int| 0 <= r < g.rules.len() ==> known.contains((#[trigger] g.rules[r]).text())
}

/// Each of the items derives one list only, and that takes more than `n` steps.
spec fn all_above(chart: Chart, way: Seq<int>, n: nat) -> bool {
    forall|j: int|
        0 <= j < way.len() ==> sole(chart, #[trigger] way[j]) && exists|trees: Seq<Tree>| #[trigger]
            derivation::derives(chart, way[j], trees) && derivation::forest_steps(trees) > n
}

/// One more item that is met on the way is above what it leads to.
proof fn lemma_all_above(chart: Chart, way: Seq<int>, i: int, trees: Seq<Tree>, n: nat)
    requires
        all_above(chart, way, derivation::forest_steps(trees)),
        sole(chart, i),
        derivation::derives(chart, i, trees),
        n < derivation::forest_steps(trees),
    ensures
        all_above(chart, derivation::onward(chart, way, i), n),
{
    let here = derivation::onward(chart, way, i);
    assert forall|j: int| 0 <= j < here.len() implies sole(chart, #[trigger] here[j]) && exists|
        list: Seq<Tree>,
    | #[trigger]
        derivation::derives(chart, here[j], list) && derivation::forest_steps(list) > n by {
        if j < way.len() {
            assert(here[j] == way[j]);
        } else {
            assert(here[j] == i);
        }
    }
}

/// The walk from an item that derives one list only finds that list where it may take enough
/// steps, meets only spans with one back-pointer, and runs out of steps otherwise.
proof fn lemma_sole_walk<P: Fn(&str) -> bool>(
    chart: Chart,
    g: GrammarModel<P>,
    tokens: Seq<Seq<char>>,
    pick: spec_fn(int, int) -> int,
    known: Set<Seq<char>>,
    i: int,
    fuel: nat,
    met: Seq<int>,
    way: Seq<int>,
    trees: Seq<Tree>,
)
    requires
        language::charts(chart, g, tokens),
        g.rules.no_duplicates(),
        all_known(g, known),
        derivation::picks_in_range(chart, pick),
        0 <= i < chart.items.len(),
        sole(chart, i),
        derivation::derives(chart, i, trees),
        all_above(chart, way, derivation::forest_steps(trees)),
        forall|j: int|
            0 <= j < met.len() ==> chart.items[#[trigger] met[j]].sources.len() == 1,
    ensures
        1 + derivation::forest_steps(trees) <= fuel ==> (derivation::unfold(
            chart,
            pick,
            known,
            i,
            fuel,
            met,
            way,
        ) matches Ok(u) && u.trees == trees && forall|j: int|
            0 <= j < u.met.len() ==> chart.items[#[trigger] u.met[j]].sources.len() == 1),
        1 + derivation::forest_steps(trees) > fuel ==> derivation::unfold(
            chart,
            pick,
            known,
            i,
            fuel,
            met,
            way,
        ) == Err::<Unfolded, Fault>(Fault::OutOfSteps),
    decreases fuel,
{
    let item = chart.items[i];
    assert(chart.item_ok(i));
    derivation::lemma_unfold(chart, pick, known, i, fuel, met, way);
    assert(!derivation::circles(chart, way, i)) by {
        if way.contains(i) {
            let j = way.index_of(i);
            assert(way[j] == i);
        }
    }
    if fuel == 0 {
    } else if item.sources.len() == 0 {
        if trees.len() > 0 {
            let k = derivation::lemma_derives_source(chart, i, trees);
        }
        assert(trees =~= Seq::<Tree>::empty());
    } else {
        lemma_sole_source(chart, g, tokens, i);
        assert(pick(met.len() as int, i) == 0);
        assert(chart.source_ok(i, item.sources[0]));
        assert(trees.len() > 0);
        let k = derivation::lemma_derives_source(chart, i, trees);
        assert(k == 0);
        let mid = met.push(i);
        let left = (fuel - 1) as nat;
        let here = derivation::onward(chart, way, i);
        let before = trees.drop_last();
        lemma_all_above(chart, way, i, trees, derivation::forest_steps(before));
        assert forall|j: int| 0 <= j < mid.len() implies chart.items[#[trigger] mid[j]].sources.len()
            == 1 by {
            if j < met.len() {
                assert(mid[j] == met[j]);
            }
        }
        assert(trees =~= before.push(trees.last()));
        match item.sources[0] {
            Source::Scan { from, token } => {
                assert(trees.last().steps() == 0);
                lemma_sole_walk(chart, g, tokens, pick, known, from, left, mid, here, before);
            },
            Source::Completion { from, by } => {
                let children = trees.last()->children;
                assert(trees.last().steps() == 1 + derivation::forest_steps(children));
                lemma_all_above(chart, way, i, trees, derivation::forest_steps(children));
                assert(language::item_supported(chart.items, g, tokens, by));
                let rule = chart.items[by].rule;
                let r = g.rules.index_of(rule);
                assert(g.rules[r] == rule);
                lemma_sole_walk(chart, g, tokens, pick, known, by, left, mid, here, children);
                derivation::lemma_unfold(chart, pick, known, by, left, mid, here);
                if let Ok(u) = derivation::unfold(chart, pick, known, by, left, mid, here) {
                    lemma_sole_walk(chart, g, tokens, pick, known, from, u.fuel, u.met, here, before);
                }
            },
        }
    }
}

/// Choices at spans with one back-pointer are the last ones.
proof fn lemma_no_next(chart: Chart, choices: Seq<Choice>)
    requires
        forall|k: int| 0 <= k < choices.len() ==> (#[trigger] choices[k]).eligible.len() <= 1,
        forall|k: int| 0 <= k < choices.len() ==> (#[trigger] choices[k]).pos >= 0,
    ensures
        choices::advanced(choices) is None,
    decreases choices.len(),
{
    if choices.len() > 0 {
        let rest = choices.drop_last();
        assert(choices[choices.len() - 1].eligible.len() <= 1);
        assert forall|k: int| 0 <= k < rest.len() implies (#[trigger] rest[k]).eligible.len() <= 1
            && rest[k].pos >= 0 by {
            assert(rest[k] == choices[k]);
        }
        lemma_no_next(chart, rest);
    }
}

/// What the grammar yields for the tokens is at most one tree.
pub open spec fn one_parse<P: Fn(&str) -> bool>(
    g: GrammarModel<P>,
    tokens: Seq<Seq<char>>,
) -> bool {
    forall|a: Tree, b: Tree|
        #[trigger] g.parses(tokens, a, false) && #[trigger] g.parses(tokens, b, false) ==> a == b
}

/// Where the tokens have one parse only, the chart has one root only, and that derives one list
/// only.
proof fn lemma_sole_root<P: Fn(&str) -> bool>(
    chart: Chart,
    g: GrammarModel<P>,
    tokens: Seq<Seq<char>>,
)
    requires
        language::charts(chart, g, tokens),
        g.rules.no_duplicates(),
        one_parse(g, tokens),
        chart.roots.len() > 0,
    ensures
        chart.roots.len() == 1,
        sole(chart, chart.roots[0]),
{
    let root = chart.roots[0];
    assert(chart.roots.contains(root));
    let mine = language::lemma_derives_some(chart, root);
    language::law_chart_is_sound(chart, g, tokens, root, mine);
    let tree = Tree::Node { rule: chart.items[root].rule, children: mine };
    if chart.roots.len() > 1 {
        let other = chart.roots[1];
        assert(chart.roots.contains(other));
        let theirs = language::lemma_derives_some(chart, other);
        language::law_chart_is_sound(chart, g, tokens, other, theirs);
        let second = Tree::Node { rule: chart.items[other].rule, children: theirs };
        assert(tree == second);
        assert(language::is_root(chart.items[root], g, tokens));
        assert(language::is_root(chart.items[other], g, tokens));
        assert(chart.item_ok(root));
        assert(chart.item_ok(other));
        lemma_same_item(chart.items, root, other);
        assert(chart.roots[0] != chart.roots[1]);
    }
    assert forall|a: Seq<Tree>, b: Seq<Tree>|
        #[trigger] derivation::derives(chart, root, a) && #[trigger] derivation::derives(
            chart,
            root,
            b,
        ) implies a == b by {
        language::law_chart_is_sound(chart, g, tokens, root, a);
        language::law_chart_is_sound(chart, g, tokens, root, b);
        assert((Tree::Node { rule: chart.items[root].rule, children: a }) == (Tree::Node {
            rule: chart.items[root].rule,
            children: b,
        }));
    }
}

/// Where tokens have one parse only, evaluation of their chart, by a forest that has an action
/// for every rule and no priorities, has one outcome: that parse, or the report that it takes
/// more steps than the forest allows.
pub proof fn law_one_parse_one_outcome<P: Fn(&str) -> bool>(
    setup: Setup,
    g: GrammarModel<P>,
    tokens: Seq<Seq<char>>,
    tree: Tree,
)
    requires
        language::charts(setup.chart, g, tokens),
        g.rules.no_duplicates(),
        one_parse(g, tokens),
        g.parses(tokens, tree, false),
        all_known(g, setup.known),
        setup.priorities == Map::<Seq<char>, i32>::empty(),
        setup.chart.roots.len() > 0,
    ensures
        setup.outcomes(choices::eligible_roots(setup.chart, setup.priorities)) == if tree.steps()
            <= setup.limit {
            seq![Ok::<Tree, Fault>(tree)]
        } else {
            seq![Err::<Tree, Fault>(Fault::OutOfSteps)]
        },
{
    let chart = setup.chart;
    lemma_sole_root(chart, g, tokens);
    let root = chart.roots[0];
    assert(chart.roots.contains(root));
    let children = language::lemma_derives_some(chart, root);
    language::law_chart_is_sound(chart, g, tokens, root, children);
    let rule = chart.items[root].rule;
    assert(tree == (Tree::Node { rule, children }));
    assert(tree.steps() == 1 + derivation::forest_steps(children));
    crate::laws::law_no_priorities_no_filter(chart, root);
    let roots = choices::eligible_roots(chart, setup.priorities);
    assert(roots == chart.roots);
    assert(setup.ready(root));
    let none = Seq::<Choice>::empty();
    let pick = choices::picker(chart, setup.priorities, none);
    setup.lemma_none_in_order(root);
    choices::lemma_picker_in_range(chart, setup.priorities, none);
    lemma_sole_walk(
        chart,
        g,
        tokens,
        pick,
        setup.known,
        root,
        setup.limit,
        Seq::empty(),
        Seq::empty(),
        children,
    );
    assert(language::item_supported(chart.items, g, tokens, root));
    let r = g.rules.index_of(rule);
    assert(g.rules[r] == rule);
    let first = setup.outcomes_from(root, none);
    if tree.steps() <= setup.limit {
        let found = setup.tree_under(root, none)->Ok_0;
        setup.lemma_tree_under(root, none);
        let after = setup.after(none, found.1);
        assert forall|k: int| 0 <= k < after.len() implies (#[trigger] after[k]).eligible.len()
            <= 1 && after[k].pos >= 0 by {
            assert(choices::spans_of(after)[k] == after[k].span);
            assert(chart.items[found.1[k]].sources.len() == 1);
            setup.lemma_eligible_len(found.1[k]);
        }
        lemma_no_next(chart, after);
        assert(first =~= seq![Ok::<Tree, Fault>(tree)]);
    } else {
        assert(first =~= seq![Err::<Tree, Fault>(Fault::OutOfSteps)]);
    }
    assert(roots.drop_first() =~= Seq::<int>::empty());
    assert(setup.outcomes(roots.drop_first()) =~= Seq::<Outcome>::empty());
    assert(setup.outcomes(roots) =~= first);
}

} // verus!
