//! No tree is enumerated twice.

use vstd::prelude::*;

use crate::choices;
use crate::choices::Choice;
use crate::complete;
use crate::derivation;
use crate::derivation::{Fault, Tree};
use crate::enumeration;
use crate::enumeration::Setup;
use crate::grammar::GrammarModel;
use crate::language;
use crate::laws;
use crate::spans::{Chart, Source};
use crate::unambiguous;

verus! {

/// Walks that find the same subtrees meet the same spans and choose the same at each.
proof fn lemma_same_trees<P: Fn(&str) -> bool>(
    setup: Setup,
    g: GrammarModel<P>,
    tokens: Seq<Seq<char>>,
    pick: spec_fn(int, int) -> int,
    other: spec_fn(int, int) -> int,
    i: int,
    fuel: nat,
    rest: nat,
    met: Seq<int>,
    way: Seq<int>,
)
    requires
        language::charts(setup.chart, g, tokens),
        g.rules.no_duplicates(),
        derivation::picks_in_range(setup.chart, pick),
        derivation::picks_in_range(setup.chart, other),
        0 <= i < setup.chart.items.len(),
        derivation::unfold(setup.chart, pick, setup.known, i, fuel, met, way) matches Ok(a) && (
        derivation::unfold(setup.chart, other, setup.known, i, rest, met, way) matches Ok(b) && a.trees
            == b.trees),
    ensures
        derivation::unfold(setup.chart, pick, setup.known, i, fuel, met, way) matches Ok(a) && (
        derivation::unfold(setup.chart, other, setup.known, i, rest, met, way) matches Ok(b) && a.met
            == b.met && derivation::agree(
            pick,
            other,
            a.met,
            met.len() as int,
            a.met.len() as int,
        )),
    decreases fuel,
{
    let chart = setup.chart;
    let known = setup.known;
    let item = chart.items[i];
    assert(chart.item_ok(i));
    let a = derivation::unfold(chart, pick, known, i, fuel, met, way)->Ok_0;
    let b = derivation::unfold(chart, other, known, i, rest, met, way)->Ok_0;
    if item.sources.len() > 0 {
        let t = met.len() as int;
        let left = (fuel - 1) as nat;
        let less = (rest - 1) as nat;
        let here = derivation::onward(chart, way, i);
        let mid = met.push(i);
        let k = pick(t, i);
        let m = other(t, i);
        assert(chart.source_ok(i, item.sources[k]));
        assert(chart.source_ok(i, item.sources[m]));
        derivation::lemma_unfold(chart, pick, known, i, fuel, met, way);
        derivation::lemma_unfold(chart, other, known, i, rest, met, way);
        derivation::lemma_unfold_met(chart, pick, known, i, fuel, met, way);
        if k != m {
            unambiguous::lemma_sources_differ(chart, g, tokens, i, k, m, a.trees, b.trees);
        }
        assert(a.met[t] == mid[t]);
        match item.sources[k] {
            Source::Scan { from, .. } => {
                let u = derivation::unfold(chart, pick, known, from, left, mid, here)->Ok_0;
                let v = derivation::unfold(chart, other, known, from, less, mid, here)->Ok_0;
                assert(a.trees.drop_last() =~= u.trees);
                assert(b.trees.drop_last() =~= v.trees);
                lemma_same_trees(setup, g, tokens, pick, other, from, left, less, mid, here);
                assert forall|j: int| t <= j < a.met.len() implies pick(j, #[trigger] a.met[j])
                    == other(j, a.met[j]) by {
                    if j > t {
                        assert(u.met[j] == a.met[j]);
                    }
                }
            },
            Source::Completion { from, by } => {
                let u = derivation::unfold(chart, pick, known, by, left, mid, here)->Ok_0;
                let v = derivation::unfold(chart, other, known, by, less, mid, here)->Ok_0;
                derivation::lemma_unfold(chart, pick, known, by, left, mid, here);
                derivation::lemma_unfold(chart, other, known, by, less, mid, here);
                let w = derivation::unfold(chart, pick, known, from, u.fuel, u.met, here)->Ok_0;
                let x = derivation::unfold(chart, other, known, from, v.fuel, v.met, here)->Ok_0;
                assert(a.trees.drop_last() =~= w.trees);
                assert(b.trees.drop_last() =~= x.trees);
                assert(a.trees.last() == (Tree::Node {
                    rule: chart.items[by].rule,
                    children: u.trees,
                }));
                assert(b.trees.last() == (Tree::Node {
                    rule: chart.items[by].rule,
                    children: v.trees,
                }));
                assert(u.trees == v.trees);
                lemma_same_trees(setup, g, tokens, pick, other, by, left, less, mid, here);
                lemma_same_trees(setup, g, tokens, pick, other, from, u.fuel, v.fuel, u.met, here);
                derivation::lemma_unfold_met(chart, pick, known, from, u.fuel, u.met, here);
                assert forall|j: int| t <= j < a.met.len() implies pick(j, #[trigger] a.met[j])
                    == other(j, a.met[j]) by {
                    if j > t && j < u.met.len() {
                        assert(u.met[j] == a.met[j]);
                    } else if j > t {
                        assert(w.met[j] == a.met[j]);
                    }
                }
            },
        }
    }
}

/// `a` and `b` are the same up to a place where `b` is further on.
spec fn further(a: Seq<Choice>, b: Seq<Choice>, j: int) -> bool {
    &&& 0 <= j < a.len()
    &&& j < b.len()
    &&& forall|m: int| 0 <= m < j ==> a[m] == #[trigger] b[m]
    &&& a[j].span == b[j].span
    &&& a[j].pos < b[j].pos
}

/// What is further on stays further on.
proof fn lemma_still_further(a: Seq<Choice>, b: Seq<Choice>, j: int) -> (k: int)
    requires
        further(a, b, j),
        choices::advanced(b) is Some,
    ensures
        further(a, choices::advanced(b)->Some_0, k),
{
    let next = choices::advanced(b)->Some_0;
    let q = choices::lemma_advanced_at(b);
    if q >= j {
        assert forall|m: int| 0 <= m < j implies a[m] == #[trigger] next[m] by {
            assert(next[m] == b[m]);
        }
        if q > j {
            assert(next[j] == b[j]);
        }
        j
    } else {
        assert forall|m: int| 0 <= m < q implies a[m] == #[trigger] next[m] by {
            assert(next[m] == b[m]);
        }
        assert(a[q] == b[q]);
        q
    }
}

/// Trees that come after others are not among these.
proof fn lemma_not_again<P: Fn(&str) -> bool>(
    setup: Setup,
    g: GrammarModel<P>,
    tokens: Seq<Seq<char>>,
    root: int,
    before: Seq<Choice>,
    choices: Seq<Choice>,
    j: int,
    n: int,
)
    requires
        language::charts(setup.chart, g, tokens),
        g.rules.no_duplicates(),
        setup.ready(root),
        setup.choices_ok(before),
        setup.choices_ok(choices),
        setup.in_order(root, choices),
        setup.tree_under(root, before) is Ok,
        further(setup.after(before, setup.tree_under(root, before)->Ok_0.1), choices, j),
        0 <= n < setup.outcomes_from(root, choices).len(),
    ensures
        setup.outcomes_from(root, choices)[n] != Ok::<Tree, Fault>(
            setup.tree_under(root, before)->Ok_0.0,
        ),
    decreases setup.distance(choices),
{
    let chart = setup.chart;
    let found = setup.tree_under(root, before)->Ok_0;
    let trail = setup.after(before, found.1);
    setup.lemma_tree_under(root, before);
    setup.lemma_progress(root, choices);
    setup.lemma_tree_under(root, choices);
    let all = setup.outcomes_from(root, choices);
    if let Ok(now) = setup.tree_under(root, choices) {
        if n == 0 {
            if now.0 == found.0 {
                let mine = choices::picker(chart, setup.priorities, before);
                let theirs = choices::picker(chart, setup.priorities, choices);
                choices::lemma_picker_in_range(chart, setup.priorities, before);
                choices::lemma_picker_in_range(chart, setup.priorities, choices);
                lemma_same_trees(
                    setup,
                    g,
                    tokens,
                    mine,
                    theirs,
                    root,
                    setup.limit,
                    setup.limit,
                    Seq::empty(),
                    Seq::empty(),
                );
                assert(choices::spans_of(trail)[j] == trail[j].span);
                assert(found.1[j] == trail[j].span);
                assert(mine(j, found.1[j]) == theirs(j, found.1[j]));
                assert(mine(j, found.1[j]) == trail[j].source());
                assert(theirs(j, found.1[j]) == choices[j].source());
                assert(choices::choice_ok(chart, setup.priorities, trail[j]));
                assert(choices::choice_ok(chart, setup.priorities, choices[j]));
                choices::lemma_sources_grow(chart, setup.priorities, trail[j], choices[j]);
            }
        } else if let Some(next) = choices::advanced(setup.after(choices, now.1)) {
            let after = setup.after(choices, now.1);
            let rest = setup.outcomes_from(root, next);
            assert(all[n] == rest[n - 1]);
            assert(further(trail, after, j)) by {
                assert forall|m: int| 0 <= m < j implies trail[m] == #[trigger] after[m] by {
                    setup.lemma_kept(root, choices, m);
                    assert(trail[m] == choices[m]);
                }
                setup.lemma_kept(root, choices, j);
            }
            let k = lemma_still_further(trail, after, j);
            lemma_not_again(setup, g, tokens, root, before, next, k, n - 1);
        }
    }
}

/// The outcomes for one root differ.
proof fn lemma_distinct_from<P: Fn(&str) -> bool>(
    setup: Setup,
    g: GrammarModel<P>,
    tokens: Seq<Seq<char>>,
    root: int,
    choices: Seq<Choice>,
)
    requires
        language::charts(setup.chart, g, tokens),
        g.rules.no_duplicates(),
        setup.ready(root),
        setup.choices_ok(choices),
        setup.in_order(root, choices),
    ensures
        setup.outcomes_from(root, choices).no_duplicates(),
    decreases setup.distance(choices),
{
    let all = setup.outcomes_from(root, choices);
    setup.lemma_progress(root, choices);
    setup.lemma_tree_under(root, choices);
    if let Ok(found) = setup.tree_under(root, choices) {
        let trail = setup.after(choices, found.1);
        if let Some(next) = choices::advanced(trail) {
            lemma_distinct_from(setup, g, tokens, root, next);
            let rest = setup.outcomes_from(root, next);
            let q = choices::lemma_advanced_at(trail);
            assert(further(trail, next, q)) by {
                assert forall|m: int| 0 <= m < q implies trail[m] == #[trigger] next[m] by {}
            }
            assert forall|a: int, b: int| 0 <= a < all.len() && 0 <= b < all.len() && a
                != b implies all[a] != all[b] by {
                if a == 0 {
                    assert(all[b] == rest[b - 1]);
                    lemma_not_again(setup, g, tokens, root, choices, next, q, b - 1);
                } else if b == 0 {
                    assert(all[a] == rest[a - 1]);
                    lemma_not_again(setup, g, tokens, root, choices, next, q, a - 1);
                } else {
                    assert(all[a] == rest[a - 1]);
                    assert(all[b] == rest[b - 1]);
                }
            }
        }
    }
}

/// An outcome that is a tree is one of its root's rule.
proof fn lemma_rule_of_root(setup: Setup, roots: Seq<int>, n: int)
    requires
        forall|k: int| 0 <= k < roots.len() ==> setup.ready(#[trigger] roots[k]),
        0 <= n < setup.outcomes(roots).len(),
        setup.outcomes(roots)[n] is Ok,
    ensures
        exists|root: int| #[trigger]
            roots.contains(root) && (setup.outcomes(roots)[n]->Ok_0 matches Tree::Node { rule, .. }
                && rule == setup.chart.items[root].rule),
{
    setup.law_outcomes_are_admissible(roots, n);
    let (root, pick) = choose|root: int, pick: spec_fn(int, int) -> int|
        #![trigger setup.tree_by(root, pick)]
        roots.contains(root) && laws::admissible(setup.chart, setup.priorities, pick)
            && setup.outcomes(roots)[n] == setup.tree_by(root, pick);
    let k = roots.index_of(root);
    assert(setup.ready(roots[k]));
    setup.law_trees_are_derivations(root, pick);
}

/// The outcomes for different roots, none of them twice, differ.
proof fn lemma_distinct_roots<P: Fn(&str) -> bool>(
    setup: Setup,
    g: GrammarModel<P>,
    tokens: Seq<Seq<char>>,
    roots: Seq<int>,
)
    requires
        language::charts(setup.chart, g, tokens),
        g.rules.no_duplicates(),
        roots.no_duplicates(),
        forall|k: int| 0 <= k < roots.len() ==> setup.chart.roots.contains(#[trigger] roots[k]),
    ensures
        setup.outcomes(roots).no_duplicates(),
    decreases roots.len(),
{
    let chart = setup.chart;
    assert forall|k: int| 0 <= k < roots.len() implies setup.ready(#[trigger] roots[k]) by {
        let m = chart.roots.index_of(roots[k]);
        assert(chart.roots[m] == roots[k]);
    }
    if roots.len() > 0 {
        let root = roots[0];
        let others = roots.drop_first();
        assert(setup.ready(root));
        assert(chart.roots.contains(root));
        assert forall|k: int| 0 <= k < others.len() implies chart.roots.contains(
            #[trigger] others[k],
        ) && setup.ready(others[k]) by {
            assert(others[k] == roots[k + 1]);
        }
        lemma_distinct_roots(setup, g, tokens, others);
        let none = Seq::<Choice>::empty();
        setup.lemma_none_in_order(root);
        lemma_distinct_from(setup, g, tokens, root, none);
        setup.lemma_errors_last_from(root, none);
        setup.lemma_errors_last(others);
        let first = setup.outcomes_from(root, none);
        let second = setup.outcomes(others);
        let all = setup.outcomes(roots);
        if !enumeration::cut_short(first) {
            assert(all == first + second);
            assert forall|a: int, b: int|
                0 <= a < first.len() && 0 <= b < second.len() implies #[trigger] first[a]
                != #[trigger] second[b] by {
                assert(first[a] is Ok) by {
                    if a == first.len() - 1 {
                        assert(first.last() is Ok);
                    }
                }
                if first[a] == second[b] {
                    lemma_apart_roots(setup, g, tokens, root, others, a, b);
                }
            }
            assert forall|a: int, b: int| 0 <= a < all.len() && 0 <= b < all.len() && a
                != b implies all[a] != all[b] by {
                if a < first.len() && b >= first.len() {
                    assert(first[a] != second[b - first.len()]);
                } else if b < first.len() && a >= first.len() {
                    assert(first[b] != second[a - first.len()]);
                } else if a < first.len() {
                    assert(first[a] != first[b]);
                } else {
                    assert(second[a - first.len()] != second[b - first.len()]);
                }
            }
        }
    }
}

/// Different roots have different trees.
proof fn lemma_apart_roots<P: Fn(&str) -> bool>(
    setup: Setup,
    g: GrammarModel<P>,
    tokens: Seq<Seq<char>>,
    root: int,
    others: Seq<int>,
    a: int,
    b: int,
)
    requires
        language::charts(setup.chart, g, tokens),
        g.rules.no_duplicates(),
        setup.ready(root),
        setup.chart.roots.contains(root),
        !others.contains(root),
        forall|k: int|
            0 <= k < others.len() ==> setup.chart.roots.contains(#[trigger] others[k])
                && setup.ready(others[k]),
        0 <= a < setup.outcomes_from(root, Seq::empty()).len(),
        0 <= b < setup.outcomes(others).len(),
        setup.outcomes_from(root, Seq::empty())[a] is Ok,
    ensures
        setup.outcomes_from(root, Seq::empty())[a] != setup.outcomes(others)[b],
{
    let chart = setup.chart;
    let first = setup.outcomes_from(root, Seq::empty());
    if first[a] == setup.outcomes(others)[b] {
        setup.lemma_none_in_order(root);
        setup.lemma_sound_from(root, Seq::empty(), a);
        let pick = choose|pick: spec_fn(int, int) -> int| #[trigger]
            laws::admissible(chart, setup.priorities, pick) && first[a] == setup.tree_by(
                root,
                pick,
            );
        setup.law_trees_are_derivations(root, pick);
        lemma_rule_of_root(setup, others, b);
        let other = choose|other: int| #[trigger]
            others.contains(other) && (setup.outcomes(others)[b]->Ok_0 matches Tree::Node {
                rule,
                ..
            } && rule == chart.items[other].rule);
        let k = others.index_of(other);
        assert(chart.roots.contains(others[k]));
        assert(setup.ready(others[k]));
        assert(language::is_root(chart.items[root], g, tokens));
        assert(language::is_root(chart.items[other], g, tokens));
        assert(chart.item_ok(root));
        assert(chart.item_ok(other));
        unambiguous::lemma_same_item(chart.items, root, other);
    }
}

/// No root is eligible twice.
proof fn lemma_eligible_once(chart: Chart, priorities: Map<Seq<char>, i32>)
    requires
        chart.wf(),
        chart.roots.no_duplicates(),
    ensures
        choices::eligible_roots(chart, priorities).no_duplicates(),
        forall|k: int|
            0 <= k < choices::eligible_roots(chart, priorities).len() ==> chart.roots.contains(
                #[trigger] choices::eligible_roots(chart, priorities)[k],
            ),
{
    choices::lemma_eligible_roots(chart, priorities);
    let best = choices::best_positions(choices::root_scores(chart, priorities));
    choices::lemma_best_positions(choices::root_scores(chart, priorities));
    let kept = choices::eligible_roots(chart, priorities);
    assert forall|a: int, b: int| 0 <= a < kept.len() && 0 <= b < kept.len() && a != b implies
        kept[a] != kept[b] by {
        assert(kept[a] == chart.roots[best[a]]);
        assert(kept[b] == chart.roots[best[b]]);
        if a < b {
            assert(best[a] < best[b]);
        } else {
            assert(best[b] < best[a]);
        }
    }
}

/// No outcome of an enumeration comes twice, so no tree does: where the chart is that of a
/// parse, trees that are enumerated at different times differ.
pub proof fn law_no_tree_twice<P: Fn(&str) -> bool>(
    setup: Setup,
    g: GrammarModel<P>,
    tokens: Seq<Seq<char>>,
)
    requires
        language::charts(setup.chart, g, tokens),
        g.rules.no_duplicates(),
    ensures
        setup.outcomes(choices::eligible_roots(setup.chart, setup.priorities)).no_duplicates(),
{
    lemma_eligible_once(setup.chart, setup.priorities);
    lemma_distinct_roots(
        setup,
        g,
        tokens,
        choices::eligible_roots(setup.chart, setup.priorities),
    );
}

/// Unless a walk gives up, an enumeration of the chart of a parse is of trees only, holds each
/// derivation of an eligible root by eligible back-pointers, holds it once, and nothing else.
pub proof fn law_each_derivation_once<P: Fn(&str) -> bool>(
    setup: Setup,
    g: GrammarModel<P>,
    tokens: Seq<Seq<char>>,
    tree: Tree,
)
    requires
        language::charts(setup.chart, g, tokens),
        g.rules.no_duplicates(),
        ({
            let list = setup.outcomes(choices::eligible_roots(setup.chart, setup.priorities));
            list.len() == 0 || list.last() is Ok
        }),
    ensures
        ({
            let roots = choices::eligible_roots(setup.chart, setup.priorities);
            let list = setup.outcomes(roots);
            &&& forall|k: int| 0 <= k < list.len() ==> (#[trigger] list[k]) is Ok
            &&& list.no_duplicates()
            &&& list.contains(Ok(tree)) <==> complete::derived_from(setup, roots, tree)
        }),
{
    let roots = choices::eligible_roots(setup.chart, setup.priorities);
    let list = setup.outcomes(roots);
    choices::lemma_eligible_roots(setup.chart, setup.priorities);
    setup.lemma_errors_last(roots);
    assert forall|k: int| 0 <= k < list.len() implies (#[trigger] list[k]) is Ok by {
        if k == list.len() - 1 {
            assert(list.last() is Ok);
        }
    }
    law_no_tree_twice(setup, g, tokens);
    complete::law_exactly_the_derivations(setup, roots, tree);
}

/// Every tree that is enumerated from the chart of a parse is a derivation tree of the grammar,
/// of the start symbol, over the tokens.
pub proof fn law_trees_are_parses<P: Fn(&str) -> bool>(
    setup: Setup,
    g: GrammarModel<P>,
    tokens: Seq<Seq<char>>,
    n: int,
)
    requires
        language::charts(setup.chart, g, tokens),
        0 <= n < setup.outcomes(choices::eligible_roots(setup.chart, setup.priorities)).len(),
        setup.outcomes(choices::eligible_roots(setup.chart, setup.priorities))[n] is Ok,
    ensures
        g.parses(
            tokens,
            setup.outcomes(choices::eligible_roots(setup.chart, setup.priorities))[n]->Ok_0,
            false,
        ),
{
    let roots = choices::eligible_roots(setup.chart, setup.priorities);
    choices::lemma_eligible_roots(setup.chart, setup.priorities);
    setup.law_outcomes_are_admissible(roots, n);
    let (root, pick) = choose|root: int, pick: spec_fn(int, int) -> int|
        #![trigger setup.tree_by(root, pick)]
        roots.contains(root) && laws::admissible(setup.chart, setup.priorities, pick)
            && setup.outcomes(roots)[n] == setup.tree_by(root, pick);
    let k = roots.index_of(root);
    assert(setup.chart.roots.contains(roots[k]));
    setup.law_trees_are_derivations(root, pick);
    let tree = setup.outcomes(roots)[n]->Ok_0;
    language::law_chart_is_sound(setup.chart, g, tokens, root, tree->children);
}

} // verus!
