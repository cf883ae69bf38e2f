//! Every derivation is found.

use vstd::prelude::*;

use crate::choices;
use crate::climb;
use crate::derivation;
use crate::derivation::Tree;
use crate::enumeration;
use crate::enumeration::{Outcome, Setup};
use crate::grammar::GrammarModel;
use crate::language;
use crate::laws;
use crate::spans::{Chart, Source};
use crate::unambiguous;

verus! {

/// `trees` are derived from item `i` by eligible back-pointers only.
pub open spec fn derives_eligibly(
    chart: Chart,
    priorities: Map<Seq<char>, i32>,
    i: int,
    trees: Seq<Tree>,
) -> bool
    decreases derivation::forest_steps(trees),
{
    if trees.len() == 0 {
        chart.items[i].sources.len() == 0
    } else {
        exists|k: int|
            #![trigger chart.items[i].sources[k]]
            0 <= k < chart.items[i].sources.len() && choices::eligible(
                chart,
                priorities,
                i,
            ).contains(k) && match chart.items[i].sources[k] {
                Source::Scan { from, token } => {
                    &&& trees.last() == (Tree::Leaf {
                        symbol: chart.items[from].next_symbol(),
                        token,
                    })
                    &&& derives_eligibly(chart, priorities, from, trees.drop_last())
                },
                Source::Completion { from, by } => match trees.last() {
                    Tree::Leaf { .. } => false,
                    Tree::Node { rule, children } => {
                        proof {
                            assert(trees.last().steps() == 1 + derivation::forest_steps(children));
                        }
                        &&& rule == chart.items[by].rule
                        &&& derives_eligibly(chart, priorities, by, children)
                        &&& derives_eligibly(chart, priorities, from, trees.drop_last())
                    },
                },
            }
    }
}

/// Without priorities every derivation is by eligible back-pointers.
pub proof fn lemma_all_eligible(chart: Chart, i: int, trees: Seq<Tree>)
    requires
        chart.wf(),
        0 <= i < chart.items.len(),
        derivation::derives(chart, i, trees),
    ensures
        derives_eligibly(chart, Map::empty(), i, trees),
    decreases derivation::forest_steps(trees),
{
    let none = Map::<Seq<char>, i32>::empty();
    assert(chart.item_ok(i));
    if trees.len() > 0 {
        let k = derivation::lemma_derives_source(chart, i, trees);
        laws::law_no_priorities_no_filter(chart, i);
        let kept = choices::eligible(chart, none, i);
        assert(kept[k] == k);
        assert(chart.source_ok(i, chart.items[i].sources[k]));
        match chart.items[i].sources[k] {
            Source::Scan { from, .. } => {
                lemma_all_eligible(chart, from, trees.drop_last());
            },
            Source::Completion { from, by } => {
                let children = trees.last()->children;
                assert(trees.last().steps() == 1 + derivation::forest_steps(children));
                lemma_all_eligible(chart, by, children);
                lemma_all_eligible(chart, from, trees.drop_last());
            },
        }
    }
}

/// What is derived by eligible back-pointers is derived.
pub proof fn lemma_eligible_derives(
    chart: Chart,
    priorities: Map<Seq<char>, i32>,
    i: int,
    trees: Seq<Tree>,
)
    requires
        chart.wf(),
        0 <= i < chart.items.len(),
        derives_eligibly(chart, priorities, i, trees),
    ensures
        derivation::derives(chart, i, trees),
    decreases derivation::forest_steps(trees),
{
    let items = chart.items;
    assert(chart.item_ok(i));
    if trees.len() > 0 {
        let k = choose|k: int|
            #![trigger items[i].sources[k]]
            0 <= k < items[i].sources.len() && choices::eligible(chart, priorities, i).contains(k)
                && match items[i].sources[k] {
                Source::Scan { from, token } => {
                    &&& trees.last() == (Tree::Leaf { symbol: items[from].next_symbol(), token })
                    &&& derives_eligibly(chart, priorities, from, trees.drop_last())
                },
                Source::Completion { from, by } => match trees.last() {
                    Tree::Leaf { .. } => false,
                    Tree::Node { rule, children } => {
                        &&& rule == items[by].rule
                        &&& derives_eligibly(chart, priorities, by, children)
                        &&& derives_eligibly(chart, priorities, from, trees.drop_last())
                    },
                },
            };
        assert(chart.source_ok(i, items[i].sources[k]));
        match items[i].sources[k] {
            Source::Scan { from, .. } => {
                lemma_eligible_derives(chart, priorities, from, trees.drop_last());
            },
            Source::Completion { from, by } => {
                let children = trees.last()->children;
                assert(trees.last().steps() == 1 + derivation::forest_steps(children));
                lemma_eligible_derives(chart, priorities, by, children);
                lemma_eligible_derives(chart, priorities, from, trees.drop_last());
            },
        }
        derivation::lemma_derives_by(chart, i, k, trees);
    }
}

/// How many spans with back-pointers a walk of `trees` meets.
pub open spec fn visits(trees: Seq<Tree>) -> nat
    decreases derivation::forest_steps(trees),
{
    if trees.len() == 0 {
        0
    } else {
        match trees.last() {
            Tree::Leaf { .. } => visits(trees.drop_last()) + 1,
            Tree::Node { children, .. } => {
                proof {
                    assert(trees.last().steps() == 1 + derivation::forest_steps(children));
                }
                visits(trees.drop_last()) + 1 + visits(children)
            },
        }
    }
}

/// `trees` are derived from item `i` by the back-pointers that `pick` chooses, where `i` is the
/// `t`-th span that is met.
spec fn follows(
    chart: Chart,
    pick: spec_fn(int, int) -> int,
    i: int,
    t: int,
    trees: Seq<Tree>,
) -> bool
    decreases derivation::forest_steps(trees),
{
    if trees.len() == 0 {
        chart.items[i].sources.len() == 0
    } else {
        let k = pick(t, i);
        0 <= k < chart.items[i].sources.len() && match chart.items[i].sources[k] {
            Source::Scan { from, token } => {
                &&& trees.last() == (Tree::Leaf { symbol: chart.items[from].next_symbol(), token })
                &&& follows(chart, pick, from, t + 1, trees.drop_last())
            },
            Source::Completion { from, by } => match trees.last() {
                Tree::Leaf { .. } => false,
                Tree::Node { rule, children } => {
                    proof {
                        assert(trees.last().steps() == 1 + derivation::forest_steps(children));
                    }
                    &&& rule == chart.items[by].rule
                    &&& follows(chart, pick, by, t + 1, children)
                    &&& follows(chart, pick, from, t + 1 + visits(children), trees.drop_last())
                },
            },
        }
    }
}

/// A choice that agrees with one while the spans of a derivation are met is as good.
proof fn lemma_follows_agree(
    chart: Chart,
    pick: spec_fn(int, int) -> int,
    other: spec_fn(int, int) -> int,
    i: int,
    t: int,
    trees: Seq<Tree>,
)
    requires
        chart.wf(),
        0 <= i < chart.items.len(),
        follows(chart, pick, i, t, trees),
        forall|s: int, x: int|
            t <= s < t + visits(trees) && 0 <= x < chart.items.len() ==> #[trigger] pick(s, x)
                == other(s, x),
    ensures
        follows(chart, other, i, t, trees),
    decreases derivation::forest_steps(trees),
{
    assert(chart.item_ok(i));
    if trees.len() > 0 {
        let k = pick(t, i);
        assert(chart.source_ok(i, chart.items[i].sources[k]));
        assert(pick(t, i) == other(t, i));
        match chart.items[i].sources[k] {
            Source::Scan { from, .. } => {
                lemma_follows_agree(chart, pick, other, from, t + 1, trees.drop_last());
            },
            Source::Completion { from, by } => {
                let children = trees.last()->children;
                assert(trees.last().steps() == 1 + derivation::forest_steps(children));
                assert(visits(trees) == visits(trees.drop_last()) + 1 + visits(children));
                lemma_follows_agree(chart, pick, other, by, t + 1, children);
                lemma_follows_agree(
                    chart,
                    pick,
                    other,
                    from,
                    t + 1 + visits(children),
                    trees.drop_last(),
                );
            },
        }
    }
}

/// A derivation by eligible back-pointers is that of an admissible choice.
proof fn lemma_choice(
    chart: Chart,
    priorities: Map<Seq<char>, i32>,
    i: int,
    t: int,
    trees: Seq<Tree>,
) -> (pick: spec_fn(int, int) -> int)
    requires
        chart.wf(),
        0 <= i < chart.items.len(),
        derives_eligibly(chart, priorities, i, trees),
    ensures
        laws::admissible(chart, priorities, pick),
        follows(chart, pick, i, t, trees),
    decreases derivation::forest_steps(trees),
{
    let items = chart.items;
    assert(chart.item_ok(i));
    if trees.len() == 0 {
        choices::lemma_picker_in_range(chart, priorities, Seq::empty());
        choices::picker(chart, priorities, Seq::empty())
    } else {
        let k = choose|k: int|
            #![trigger items[i].sources[k]]
            0 <= k < items[i].sources.len() && choices::eligible(chart, priorities, i).contains(k)
                && match items[i].sources[k] {
                Source::Scan { from, token } => {
                    &&& trees.last() == (Tree::Leaf { symbol: items[from].next_symbol(), token })
                    &&& derives_eligibly(chart, priorities, from, trees.drop_last())
                },
                Source::Completion { from, by } => match trees.last() {
                    Tree::Leaf { .. } => false,
                    Tree::Node { rule, children } => {
                        &&& rule == items[by].rule
                        &&& derives_eligibly(chart, priorities, by, children)
                        &&& derives_eligibly(chart, priorities, from, trees.drop_last())
                    },
                },
            };
        assert(chart.source_ok(i, items[i].sources[k]));
        let before = trees.drop_last();
        match items[i].sources[k] {
            Source::Scan { from, .. } => {
                let left = lemma_choice(chart, priorities, from, t + 1, before);
                let pick = laws::joined(i, k, t, left, t + 1, left);
                laws::lemma_joined(chart, priorities, i, k, t, left, t + 1, left);
                lemma_follows_agree(chart, left, pick, from, t + 1, before);
                pick
            },
            Source::Completion { from, by } => {
                let children = trees.last()->children;
                assert(trees.last().steps() == 1 + derivation::forest_steps(children));
                let m = t + 1 + visits(children);
                let left = lemma_choice(chart, priorities, from, m, before);
                let right = lemma_choice(chart, priorities, by, t + 1, children);
                let pick = laws::joined(i, k, t, right, m, left);
                laws::lemma_joined(chart, priorities, i, k, t, right, m, left);
                lemma_follows_agree(chart, left, pick, from, m, before);
                lemma_follows_agree(chart, right, pick, by, t + 1, children);
                pick
            },
        }
    }
}

/// The walk that follows a derivation finds it, unless it gives up.
proof fn lemma_walk_follows(
    setup: Setup,
    pick: spec_fn(int, int) -> int,
    i: int,
    trees: Seq<Tree>,
    fuel: nat,
    met: Seq<int>,
    way: Seq<int>,
)
    requires
        setup.chart.wf(),
        derivation::picks_in_range(setup.chart, pick),
        0 <= i < setup.chart.items.len(),
        follows(setup.chart, pick, i, met.len() as int, trees),
    ensures
        derivation::unfold(setup.chart, pick, setup.known, i, fuel, met, way) matches Ok(u) ==> u.trees
            == trees && u.met.len() == met.len() + visits(trees),
    decreases fuel,
{
    let chart = setup.chart;
    assert(chart.item_ok(i));
    if trees.len() == 0 {
        assert(trees =~= Seq::<Tree>::empty());
    } else if fuel > 0 && !derivation::circles(chart, way, i) {
        let here = derivation::onward(chart, way, i);
        let k = pick(met.len() as int, i);
        let left = (fuel - 1) as nat;
        let mid = met.push(i);
        let before = trees.drop_last();
        assert(trees =~= before.push(trees.last()));
        assert(chart.source_ok(i, chart.items[i].sources[k]));
        match chart.items[i].sources[k] {
            Source::Scan { from, .. } => {
                lemma_walk_follows(setup, pick, from, before, left, mid, here);
            },
            Source::Completion { from, by } => {
                let children = trees.last()->children;
                assert(trees.last().steps() == 1 + derivation::forest_steps(children));
                assert(visits(trees) == visits(before) + 1 + visits(children));
                lemma_walk_follows(setup, pick, by, children, left, mid, here);
                derivation::lemma_unfold(chart, pick, setup.known, by, left, mid, here);
                if let Ok(u) = derivation::unfold(chart, pick, setup.known, by, left, mid, here) {
                    lemma_walk_follows(setup, pick, from, before, u.fuel, u.met, here);
                }
            },
        }
    }
}

/// Every derivation of a root by eligible back-pointers is enumerated, unless a walk gives up.
pub proof fn law_every_derivation_is_enumerated(
    setup: Setup,
    roots: Seq<int>,
    root: int,
    children: Seq<Tree>,
)
    requires
        forall|k: int| 0 <= k < roots.len() ==> setup.ready(#[trigger] roots[k]),
        roots.contains(root),
        derives_eligibly(setup.chart, setup.priorities, root, children),
        !enumeration::cut_short(setup.outcomes(roots)),
    ensures
        setup.outcomes(roots).contains(
            Ok(Tree::Node { rule: setup.chart.items[root].rule, children }),
        ),
{
    let chart = setup.chart;
    let m = roots.index_of(root);
    assert(setup.ready(roots[m]));
    let pick = lemma_choice(chart, setup.priorities, root, 0, children);
    laws::lemma_admissible_in_range(chart, setup.priorities, pick);
    lemma_walk_follows(setup, pick, root, children, setup.limit, Seq::empty(), Seq::empty());
    setup.law_nothing_is_left_out(roots, root, pick);
}

/// What a walk finds by admissible choices is derived by eligible back-pointers.
proof fn lemma_walk_eligible(
    setup: Setup,
    pick: spec_fn(int, int) -> int,
    i: int,
    fuel: nat,
    met: Seq<int>,
    way: Seq<int>,
)
    requires
        setup.chart.wf(),
        laws::admissible(setup.chart, setup.priorities, pick),
        0 <= i < setup.chart.items.len(),
    ensures
        derivation::unfold(setup.chart, pick, setup.known, i, fuel, met, way) matches Ok(u)
            ==> derives_eligibly(setup.chart, setup.priorities, i, u.trees),
    decreases fuel,
{
    let chart = setup.chart;
    let known = setup.known;
    laws::lemma_admissible_in_range(chart, setup.priorities, pick);
    assert(chart.item_ok(i));
    let item = chart.items[i];
    if fuel > 0 && !derivation::circles(chart, way, i) && item.sources.len() > 0 {
        let here = derivation::onward(chart, way, i);
        let k = pick(met.len() as int, i);
        let left = (fuel - 1) as nat;
        let mid = met.push(i);
        assert(choices::eligible(chart, setup.priorities, i).contains(k));
        assert(chart.source_ok(i, item.sources[k]));
        match item.sources[k] {
            Source::Scan { from, token } => {
                lemma_walk_eligible(setup, pick, from, left, mid, here);
                if let Ok(u) = derivation::unfold(chart, pick, known, from, left, mid, here) {
                    let trees = u.trees.push(
                        Tree::Leaf { symbol: chart.items[from].next_symbol(), token },
                    );
                    assert(trees.drop_last() =~= u.trees);
                    assert(derives_eligibly(chart, setup.priorities, i, trees));
                }
            },
            Source::Completion { from, by } => {
                lemma_walk_eligible(setup, pick, by, left, mid, here);
                derivation::lemma_unfold(chart, pick, known, by, left, mid, here);
                if let Ok(u) = derivation::unfold(chart, pick, known, by, left, mid, here) {
                    lemma_walk_eligible(setup, pick, from, u.fuel, u.met, here);
                    if let Ok(w) = derivation::unfold(chart, pick, known, from, u.fuel, u.met, here) {
                        let node = Tree::Node { rule: chart.items[by].rule, children: u.trees };
                        let trees = w.trees.push(node);
                        assert(trees.drop_last() =~= w.trees);
                        assert(trees.last() == node);
                        assert(trees.last().steps() == 1 + derivation::forest_steps(u.trees));
                        assert(derives_eligibly(chart, setup.priorities, i, trees));
                    }
                }
            },
        }
    }
}

/// `tree` is a derivation of one of the roots by eligible back-pointers.
pub open spec fn derived_from(setup: Setup, roots: Seq<int>, tree: Tree) -> bool {
    exists|root: int| #[trigger]
        roots.contains(root) && (tree matches Tree::Node { rule, children } && rule
            == setup.chart.items[root].rule && derives_eligibly(
            setup.chart,
            setup.priorities,
            root,
            children,
        ))
}

/// The trees that are enumerated are exactly the derivations of the roots by eligible
/// back-pointers, unless a walk gives up.
pub proof fn law_exactly_the_derivations(setup: Setup, roots: Seq<int>, tree: Tree)
    requires
        forall|k: int| 0 <= k < roots.len() ==> setup.ready(#[trigger] roots[k]),
        !enumeration::cut_short(setup.outcomes(roots)),
    ensures
        setup.outcomes(roots).contains(Ok(tree)) <==> derived_from(setup, roots, tree),
{
    let all = setup.outcomes(roots);
    let wanted: Outcome = Ok(tree);
    if all.contains(wanted) {
        let n = all.index_of(wanted);
        setup.law_outcomes_are_admissible(roots, n);
        let (root, pick) = choose|root: int, pick: spec_fn(int, int) -> int|
            #![trigger setup.tree_by(root, pick)]
            roots.contains(root) && laws::admissible(setup.chart, setup.priorities, pick)
                && all[n] == setup.tree_by(root, pick);
        let m = roots.index_of(root);
        assert(setup.ready(roots[m]));
        lemma_walk_eligible(setup, pick, root, setup.limit, Seq::empty(), Seq::empty());
        assert(roots.contains(root));
    }
    if derived_from(setup, roots, tree) {
        let root = choose|root: int| #[trigger]
            roots.contains(root) && (tree matches Tree::Node { rule, children } && rule
                == setup.chart.items[root].rule && derives_eligibly(
                setup.chart,
                setup.priorities,
                root,
                children,
            ));
        law_every_derivation_is_enumerated(setup, roots, root, tree->children);
    }
}

/// Every parse of the tokens is enumerated by a forest without priorities, unless a walk gives
/// up.
pub proof fn law_every_parse_is_enumerated<P: Fn(&str) -> bool>(
    setup: Setup,
    g: GrammarModel<P>,
    tokens: Seq<Seq<char>>,
    tree: Tree,
)
    requires
        language::charts(setup.chart, g, tokens),
        setup.priorities == Map::<Seq<char>, i32>::empty(),
        g.parses(tokens, tree, true),
        !enumeration::cut_short(setup.outcomes(setup.chart.roots)),
    ensures
        setup.outcomes(setup.chart.roots).contains(Ok(tree)),
{
    let chart = setup.chart;
    language::law_chart_is_complete(chart, g, tokens, tree);
    let children = tree->children;
    let root = choose|root: int| #[trigger]
        chart.roots.contains(root) && chart.items[root].rule == tree->rule && derivation::derives(
            chart,
            root,
            children,
        );
    let m = chart.roots.index_of(root);
    assert(chart.roots[m] == root);
    lemma_all_eligible(chart, root, children);
    law_every_derivation_is_enumerated(setup, chart.roots, root, children);
}

/// Back-pointers lead to items of lower rank, so that no way through the chart comes back to
/// where it was.
pub open spec fn ranked(chart: Chart, rank: spec_fn(int) -> nat) -> bool {
    forall|i: int, k: int|
        #![trigger chart.items[i].sources[k]]
        0 <= i < chart.items.len() && 0 <= k < chart.items[i].sources.len() ==> match
        chart.items[i].sources[k] {
            Source::Scan { from, .. } => rank(from) < rank(i),
            Source::Completion { from, by } => rank(from) < rank(i) && rank(by) < rank(i),
        }
}

/// No back-pointer of an item of this rank or a lower one has been taken.
pub open spec fn untaken(
    chart: Chart,
    rank: spec_fn(int) -> nat,
    explored: Seq<Source>,
    bound: nat,
) -> bool {
    forall|j: int, x: int|
        #![trigger explored[j], chart.items[x]]
        0 <= j < explored.len() && 0 <= x < chart.items.len() && rank(x) <= bound
            ==> !chart.items[x].sources.contains(explored[j])
}

/// A back-pointer belongs to one item only.
proof fn lemma_one_owner(chart: Chart, a: int, b: int, src: Source)
    requires
        chart.wf(),
        language::tidy(chart.items),
        0 <= a < chart.items.len(),
        0 <= b < chart.items.len(),
        chart.items[a].sources.contains(src),
        chart.items[b].sources.contains(src),
    ensures
        a == b,
{
    assert(chart.item_ok(a));
    assert(chart.item_ok(b));
    let k = chart.items[a].sources.index_of(src);
    let m = chart.items[b].sources.index_of(src);
    assert(chart.source_ok(a, chart.items[a].sources[k]));
    assert(chart.source_ok(b, chart.items[b].sources[m]));
    unambiguous::lemma_same_item(chart.items, a, b);
}

/// No back-pointer of an item of a rank below that of `i` has been taken, and none of those of
/// `i` from the `n`-th on.
pub open spec fn untaken_below(
    chart: Chart,
    rank: spec_fn(int) -> nat,
    explored: Seq<Source>,
    i: int,
    n: int,
) -> bool {
    &&& forall|x: int|
        #![trigger chart.items[x]]
        0 <= x < chart.items.len() && rank(x) < rank(i) ==> forall|j: int|
            0 <= j < explored.len() ==> !chart.items[x].sources.contains(#[trigger] explored[j])
    &&& forall|j: int, m: int|
        #![trigger explored[j], chart.items[i].sources[m]]
        0 <= j < explored.len() && n <= m < chart.items[i].sources.len() ==> explored[j]
            != chart.items[i].sources[m]
}

/// With the `n`-th back-pointer of an item taken, those behind it are not, nor are those of items
/// of lower rank.
pub proof fn lemma_taken(
    chart: Chart,
    rank: spec_fn(int) -> nat,
    explored: Seq<Source>,
    i: int,
    n: int,
)
    requires
        chart.wf(),
        language::tidy(chart.items),
        0 <= i < chart.items.len(),
        0 <= n < chart.items[i].sources.len(),
        untaken_below(chart, rank, explored, i, n),
    ensures
        untaken_below(chart, rank, explored.push(chart.items[i].sources[n]), i, n + 1),
{
    let sources = chart.items[i].sources;
    let taken = explored.push(sources[n]);
    assert(sources.no_duplicates());
    assert forall|x: int|
        #![trigger chart.items[x]]
        0 <= x < chart.items.len() && rank(x) < rank(i) implies forall|j: int|
        0 <= j < taken.len() ==> !chart.items[x].sources.contains(#[trigger] taken[j]) by {
        assert forall|j: int| 0 <= j < taken.len() implies !chart.items[x].sources.contains(
            #[trigger] taken[j],
        ) by {
            if j < explored.len() {
                assert(taken[j] == explored[j]);
            } else if chart.items[x].sources.contains(sources[n]) {
                assert(sources.contains(sources[n]));
                lemma_one_owner(chart, x, i, sources[n]);
            }
        }
    }
    assert forall|j: int, m: int|
        #![trigger taken[j], sources[m]]
        0 <= j < taken.len() && n + 1 <= m < sources.len() implies taken[j] != sources[m] by {
        if j < explored.len() {
            assert(taken[j] == explored[j]);
        } else {
            assert(sources[n] != sources[m]);
        }
    }
}

/// Every product is among the products.
proof fn lemma_product_there(
    lefts: Seq<Seq<Tree>>,
    rights: Seq<Seq<Tree>>,
    a: int,
    b: int,
)
    requires
        0 <= a < lefts.len(),
        0 <= b < rights.len(),
    ensures
        climb::products(lefts, rights).contains(lefts[a] + rights[b]),
    decreases lefts.len(),
{
    let fewer = climb::products(lefts.drop_last(), rights);
    let all = climb::products(lefts, rights);
    if a == lefts.len() - 1 {
        assert(all[fewer.len() + b] == lefts[a] + rights[b]);
    } else {
        lemma_product_there(lefts.drop_last(), rights, a, b);
        assert(lefts.drop_last()[a] == lefts[a]);
        let n = fewer.index_of(lefts[a] + rights[b]);
        assert(all[n] == fewer[n]);
    }
}

/// A list that accounts for an item is there, reduced, after the reduction.
proof fn lemma_reduced_there(
    chart: Chart,
    known: Set<Seq<char>>,
    i: int,
    lists: Seq<Seq<Tree>>,
    trees: Seq<Tree>,
)
    requires
        lists.contains(trees),
        climb::reduced(chart, known, i, lists) is Ok,
    ensures
        climb::reduced(chart, known, i, lists)->Ok_0.contains(climb::wrapped(chart, i, trees)),
{
    let n = lists.index_of(trees);
    let out = climb::reduced(chart, known, i, lists)->Ok_0;
    assert(out[n] == climb::wrapped(chart, i, trees));
}

/// The walk by recursion hands up every derivation of an item.
pub proof fn lemma_climb_finds(
    chart: Chart,
    known: Set<Seq<char>>,
    rank: spec_fn(int) -> nat,
    i: int,
    level: int,
    explored: Seq<Source>,
    trees: Seq<Tree>,
)
    requires
        chart.wf(),
        language::tidy(chart.items),
        ranked(chart, rank),
        0 <= i < chart.items.len(),
        untaken(chart, rank, explored, rank(i)),
        climb::climb_all(chart, known, i, level, explored) is Ok,
        derivation::derives(chart, i, trees),
    ensures
        climb::climb_all(chart, known, i, level, explored)->Ok_0.contains(
            climb::wrapped(chart, i, trees),
        ),
    decreases climb::MAX_WALKER_RECURSION - level, chart.items[i].sources.len() + 2,
{
    assert(chart.item_ok(i));
    if chart.items[i].sources.len() == 0 {
        if trees.len() > 0 {
            let k = derivation::lemma_derives_source(chart, i, trees);
        }
        let lists = seq![Seq::<Tree>::empty()];
        assert(trees =~= lists[0]);
        assert(lists.contains(trees));
        lemma_reduced_there(chart, known, i, lists, trees);
    } else {
        let k = derivation::lemma_derives_source(chart, i, trees);
        lemma_climb_from_finds(chart, known, rank, i, level, explored, 0, k, trees);
    }
}

/// From the `n`-th back-pointer on, what the `k`-th derives is found.
proof fn lemma_climb_from_finds(
    chart: Chart,
    known: Set<Seq<char>>,
    rank: spec_fn(int) -> nat,
    i: int,
    level: int,
    explored: Seq<Source>,
    n: int,
    k: int,
    trees: Seq<Tree>,
)
    requires
        chart.wf(),
        language::tidy(chart.items),
        ranked(chart, rank),
        0 <= i < chart.items.len(),
        level < climb::MAX_WALKER_RECURSION,
        0 <= n <= k < chart.items[i].sources.len(),
        untaken_below(chart, rank, explored, i, n),
        climb::climb_from(chart, known, i, level, explored, n) is Ok,
        derivation::derives_by(chart, chart.items[i].sources[k], trees),
    ensures
        climb::climb_from(chart, known, i, level, explored, n)->Ok_0.contains(
            climb::wrapped(chart, i, trees),
        ),
    decreases climb::MAX_WALKER_RECURSION - level, chart.items[i].sources.len() - n + 1,
{
    let sources = chart.items[i].sources;
    assert(chart.item_ok(i));
    assert(sources.no_duplicates());
    assert(!explored.contains(sources[n])) by {
        if explored.contains(sources[n]) {
            let j = explored.index_of(sources[n]);
            assert(explored[j] != sources[n]);
        }
    }
    let taken = explored.push(sources[n]);
    assert(chart.source_ok(i, sources[n]));
    let here = climb::climb_here(chart, known, i, level, taken, n);
    let more = climb::climb_from(chart, known, i, level, taken, n + 1);
    let all = climb::climb_from(chart, known, i, level, explored, n);
    assert(here is Ok);
    assert(more is Ok);
    assert(all->Ok_0 == here->Ok_0 + more->Ok_0);
    lemma_taken(chart, rank, explored, i, n);
    let goal = climb::wrapped(chart, i, trees);
    if n < k {
        lemma_climb_from_finds(chart, known, rank, i, level, taken, n + 1, k, trees);
        let p = more->Ok_0.index_of(goal);
        assert(all->Ok_0[here->Ok_0.len() + p] == goal);
    } else {
        let before = trees.drop_last();
        match sources[n] {
            Source::Scan { from, token } => {
                assert(untaken(chart, rank, taken, rank(from)));
                lemma_climb_finds(chart, known, rank, from, level + 1, taken, before);
                let lefts = climb::climb_all(chart, known, from, level + 1, taken)->Ok_0;
                let lists = lefts.map_values(
                    |left: Seq<Tree>|
                        left.push(
                            Tree::Leaf { symbol: chart.items[from].next_symbol(), token },
                        ),
                );
                let a = lefts.index_of(before);
                assert(lists[a] =~= trees);
                assert(lists.contains(trees));
                lemma_reduced_there(chart, known, i, lists, trees);
            },
            Source::Completion { from, by } => {
                let children = trees.last()->children;
                assert(untaken(chart, rank, taken, rank(from)));
                assert(untaken(chart, rank, taken, rank(by)));
                lemma_climb_finds(chart, known, rank, from, level + 1, taken, before);
                let lefts = climb::climb_all(chart, known, from, level + 1, taken)->Ok_0;
                let a = lefts.index_of(before);
                assert(lefts.len() > 0);
                lemma_climb_finds(chart, known, rank, by, level + 1, taken, children);
                let rights = climb::climb_all(chart, known, by, level + 1, taken)->Ok_0;
                let last = climb::wrapped(chart, by, children);
                let b = rights.index_of(last);
                lemma_product_there(lefts, rights, a, b);
                assert(lefts[a] + rights[b] =~= trees);
                lemma_reduced_there(chart, known, i, climb::products(lefts, rights), trees);
            },
        }
        let p = here->Ok_0.index_of(goal);
        assert(all->Ok_0[p] == goal);
    }
}

/// `trees` are derived from item `i` without coming to an item from which the way leads: `above`
/// holds the items on the way here.
pub open spec fn derives_plainly(chart: Chart, i: int, trees: Seq<Tree>, above: Seq<int>) -> bool
    decreases derivation::forest_steps(trees),
{
    &&& !above.contains(i)
    &&& if trees.len() == 0 {
        chart.items[i].sources.len() == 0
    } else {
        exists|k: int|
            #![trigger chart.items[i].sources[k]]
            0 <= k < chart.items[i].sources.len() && match chart.items[i].sources[k] {
                Source::Scan { from, token } => {
                    &&& trees.last() == (Tree::Leaf {
                        symbol: chart.items[from].next_symbol(),
                        token,
                    })
                    &&& derives_plainly(chart, from, trees.drop_last(), above.push(i))
                },
                Source::Completion { from, by } => match trees.last() {
                    Tree::Leaf { .. } => false,
                    Tree::Node { rule, children } => {
                        proof {
                            assert(trees.last().steps() == 1 + derivation::forest_steps(children));
                        }
                        &&& rule == chart.items[by].rule
                        &&& derives_plainly(chart, by, children, above.push(i))
                        &&& derives_plainly(chart, from, trees.drop_last(), above.push(i))
                    },
                },
            }
    }
}

/// One of the items has the back-pointer.
spec fn has_owner(chart: Chart, items: Seq<int>, src: Source) -> bool {
    exists|a: int|
        0 <= a < items.len() && 0 <= items[a] < chart.items.len() && chart.items[
            #[trigger] items[a]
        ].sources.contains(src)
}

/// The back-pointers that have been taken are those of the items.
spec fn owned(chart: Chart, items: Seq<int>, explored: Seq<Source>) -> bool {
    forall|j: int| 0 <= j < explored.len() ==> has_owner(chart, items, #[trigger] explored[j])
}

proof fn lemma_owned(
    chart: Chart,
    above: Seq<int>,
    explored: Seq<Source>,
    i: int,
    n: int,
)
    requires
        0 <= i < chart.items.len(),
        0 <= n < chart.items[i].sources.len(),
        owned(chart, above, explored) || owned(chart, above.push(i), explored),
    ensures
        owned(chart, above.push(i), explored),
        owned(chart, above.push(i), explored.push(chart.items[i].sources[n])),
{
    let more = above.push(i);
    let src = chart.items[i].sources[n];
    let taken = explored.push(src);
    assert(more[above.len() as int] == i);
    assert(chart.items[i].sources.contains(src));
    assert(has_owner(chart, more, src));
    assert forall|j: int| 0 <= j < explored.len() implies has_owner(
        chart,
        more,
        #[trigger] explored[j],
    ) by {
        if has_owner(chart, above, explored[j]) {
            let a = choose|a: int|
                0 <= a < above.len() && 0 <= above[a] < chart.items.len() && chart.items[
                    #[trigger] above[a]
                ].sources.contains(explored[j]);
            assert(more[a] == above[a]);
        }
    }
    assert forall|j: int| 0 <= j < taken.len() implies has_owner(
        chart,
        more,
        #[trigger] taken[j],
    ) by {
        if j < explored.len() {
            assert(taken[j] == explored[j]);
        }
    }
}

/// The walk by recursion hands up every plain derivation of an item.
proof fn lemma_climb_finds_plain(
    chart: Chart,
    known: Set<Seq<char>>,
    i: int,
    level: int,
    explored: Seq<Source>,
    above: Seq<int>,
    trees: Seq<Tree>,
)
    requires
        chart.wf(),
        language::tidy(chart.items),
        0 <= i < chart.items.len(),
        owned(chart, above, explored),
        climb::climb_all(chart, known, i, level, explored) is Ok,
        derives_plainly(chart, i, trees, above),
    ensures
        climb::climb_all(chart, known, i, level, explored)->Ok_0.contains(
            climb::wrapped(chart, i, trees),
        ),
    decreases climb::MAX_WALKER_RECURSION - level, chart.items[i].sources.len() + 2,
{
    let sources = chart.items[i].sources;
    assert(chart.item_ok(i));
    if trees.len() == 0 {
        let lists = seq![Seq::<Tree>::empty()];
        assert(trees =~= lists[0]);
        assert(lists.contains(trees));
        lemma_reduced_there(chart, known, i, lists, trees);
    } else {
        let k = choose|k: int|
            #![trigger chart.items[i].sources[k]]
            0 <= k < chart.items[i].sources.len() && plain_by(
                chart,
                chart.items[i].sources[k],
                trees,
                above.push(i),
            );
        assert forall|j: int, m: int|
            #![trigger explored[j], sources[m]]
            0 <= j < explored.len() && 0 <= m < sources.len() implies explored[j]
            != sources[m] by {
            if explored[j] == sources[m] {
                assert(has_owner(chart, above, explored[j]));
                let a = choose|a: int|
                    0 <= a < above.len() && 0 <= above[a] < chart.items.len() && chart.items[
                        #[trigger] above[a]
                    ].sources.contains(explored[j]);
                assert(sources.contains(sources[m]));
                lemma_one_owner(chart, above[a], i, explored[j]);
                assert(above.contains(above[a]));
            }
        }
        lemma_owned(chart, above, explored, i, k);
        lemma_climb_from_finds_plain(chart, known, i, level, explored, above, 0, k, trees);
    }
}

/// The back-pointer accounts for the trees plainly.
spec fn plain_by(chart: Chart, src: Source, trees: Seq<Tree>, above: Seq<int>) -> bool {
    match src {
        Source::Scan { from, token } => {
            &&& trees.last() == (Tree::Leaf { symbol: chart.items[from].next_symbol(), token })
            &&& derives_plainly(chart, from, trees.drop_last(), above)
        },
        Source::Completion { from, by } => match trees.last() {
            Tree::Leaf { .. } => false,
            Tree::Node { rule, children } => {
                &&& rule == chart.items[by].rule
                &&& derives_plainly(chart, by, children, above)
                &&& derives_plainly(chart, from, trees.drop_last(), above)
            },
        },
    }
}

proof fn lemma_climb_from_finds_plain(
    chart: Chart,
    known: Set<Seq<char>>,
    i: int,
    level: int,
    explored: Seq<Source>,
    above: Seq<int>,
    n: int,
    k: int,
    trees: Seq<Tree>,
)
    requires
        chart.wf(),
        language::tidy(chart.items),
        0 <= i < chart.items.len(),
        level < climb::MAX_WALKER_RECURSION,
        0 <= n <= k < chart.items[i].sources.len(),
        owned(chart, above.push(i), explored),
        forall|j: int, m: int|
            #![trigger explored[j], chart.items[i].sources[m]]
            0 <= j < explored.len() && n <= m < chart.items[i].sources.len() ==> explored[j]
                != chart.items[i].sources[m],
        climb::climb_from(chart, known, i, level, explored, n) is Ok,
        trees.len() > 0,
        plain_by(chart, chart.items[i].sources[k], trees, above.push(i)),
    ensures
        climb::climb_from(chart, known, i, level, explored, n)->Ok_0.contains(
            climb::wrapped(chart, i, trees),
        ),
    decreases climb::MAX_WALKER_RECURSION - level, chart.items[i].sources.len() - n + 1,
{
    let sources = chart.items[i].sources;
    let more_above = above.push(i);
    assert(chart.item_ok(i));
    assert(sources.no_duplicates());
    assert(!explored.contains(sources[n])) by {
        if explored.contains(sources[n]) {
            let j = explored.index_of(sources[n]);
            assert(explored[j] != sources[n]);
        }
    }
    let taken = explored.push(sources[n]);
    assert(chart.source_ok(i, sources[n]));
    lemma_owned(chart, above, explored, i, n);
    let here = climb::climb_here(chart, known, i, level, taken, n);
    let more = climb::climb_from(chart, known, i, level, taken, n + 1);
    let all = climb::climb_from(chart, known, i, level, explored, n);
    assert(all->Ok_0 == here->Ok_0 + more->Ok_0);
    let goal = climb::wrapped(chart, i, trees);
    if n < k {
        assert forall|j: int, m: int|
            #![trigger taken[j], sources[m]]
            0 <= j < taken.len() && n + 1 <= m < sources.len() implies taken[j] != sources[m] by {
            if j < explored.len() {
                assert(taken[j] == explored[j]);
            } else {
                assert(sources[n] != sources[m]);
            }
        }
        lemma_climb_from_finds_plain(chart, known, i, level, taken, above, n + 1, k, trees);
        let p = more->Ok_0.index_of(goal);
        assert(all->Ok_0[here->Ok_0.len() + p] == goal);
    } else {
        let before = trees.drop_last();
        match sources[n] {
            Source::Scan { from, token } => {
                lemma_climb_finds_plain(chart, known, from, level + 1, taken, more_above, before);
                let lefts = climb::climb_all(chart, known, from, level + 1, taken)->Ok_0;
                let lists = lefts.map_values(
                    |left: Seq<Tree>|
                        left.push(
                            Tree::Leaf { symbol: chart.items[from].next_symbol(), token },
                        ),
                );
                let a = lefts.index_of(before);
                assert(lists[a] =~= trees);
                assert(lists.contains(trees));
                lemma_reduced_there(chart, known, i, lists, trees);
            },
            Source::Completion { from, by } => {
                let children = trees.last()->children;
                lemma_climb_finds_plain(chart, known, from, level + 1, taken, more_above, before);
                let lefts = climb::climb_all(chart, known, from, level + 1, taken)->Ok_0;
                let a = lefts.index_of(before);
                assert(lefts.len() > 0);
                lemma_climb_finds_plain(chart, known, by, level + 1, taken, more_above, children);
                let rights = climb::climb_all(chart, known, by, level + 1, taken)->Ok_0;
                let last = climb::wrapped(chart, by, children);
                let b = rights.index_of(last);
                lemma_product_there(lefts, rights, a, b);
                assert(lefts[a] + rights[b] =~= trees);
                lemma_reduced_there(chart, known, i, climb::products(lefts, rights), trees);
            },
        }
        let p = here->Ok_0.index_of(goal);
        assert(all->Ok_0[p] == goal);
    }
}

/// Evaluation by recursion leaves no derivation of a root out that does not go round in a cycle,
/// unless it gives up: on any chart of a parse, with cycles or without.
pub proof fn law_recursion_finds_every_plain_derivation(
    chart: Chart,
    known: Set<Seq<char>>,
    n: int,
    r: int,
    children: Seq<Tree>,
)
    requires
        chart.wf(),
        language::tidy(chart.items),
        0 <= r < n <= chart.roots.len(),
        climb::climb_roots(chart, known, n) is Ok,
        derives_plainly(chart, chart.roots[r], children, Seq::empty()),
    ensures
        climb::climb_roots(chart, known, n)->Ok_0.contains(
            Tree::Node { rule: chart.items[chart.roots[r]].rule, children },
        ),
    decreases n,
{
    let root = chart.roots[n - 1];
    let before = climb::climb_roots(chart, known, n - 1)->Ok_0;
    let lists = climb::climb_all(chart, known, root, 0, Seq::empty())->Ok_0;
    let all = climb::climb_roots(chart, known, n)->Ok_0;
    let tree = Tree::Node { rule: chart.items[chart.roots[r]].rule, children };
    if r == n - 1 {
        lemma_climb_finds_plain(chart, known, root, 0, Seq::empty(), Seq::empty(), children);
        let p = lists.index_of(climb::wrapped(chart, root, children));
        assert(all[before.len() + p] == lists[p][0]);
        assert(all[before.len() + p] == tree);
    } else {
        law_recursion_finds_every_plain_derivation(chart, known, n - 1, r, children);
        let p = before.index_of(tree);
        assert(all[p] == tree);
    }
}

/// Evaluation by recursion leaves no derivation of a root out, unless it gives up: on charts
/// without cycles.
pub proof fn law_recursion_finds_every_derivation(
    chart: Chart,
    known: Set<Seq<char>>,
    rank: spec_fn(int) -> nat,
    n: int,
    r: int,
    children: Seq<Tree>,
)
    requires
        chart.wf(),
        language::tidy(chart.items),
        ranked(chart, rank),
        0 <= r < n <= chart.roots.len(),
        climb::climb_roots(chart, known, n) is Ok,
        derivation::derives(chart, chart.roots[r], children),
    ensures
        climb::climb_roots(chart, known, n)->Ok_0.contains(
            Tree::Node { rule: chart.items[chart.roots[r]].rule, children },
        ),
    decreases n,
{
    let root = chart.roots[n - 1];
    let before = climb::climb_roots(chart, known, n - 1)->Ok_0;
    let lists = climb::climb_all(chart, known, root, 0, Seq::empty())->Ok_0;
    let all = climb::climb_roots(chart, known, n)->Ok_0;
    let tree = Tree::Node { rule: chart.items[chart.roots[r]].rule, children };
    if r == n - 1 {
        lemma_climb_finds(chart, known, rank, root, 0, Seq::empty(), children);
        let p = lists.index_of(climb::wrapped(chart, root, children));
        assert(all[before.len() + p] == lists[p][0]);
        assert(all[before.len() + p] == tree);
    } else {
        law_recursion_finds_every_derivation(chart, known, rank, n - 1, r, children);
        let p = before.index_of(tree);
        assert(all[p] == tree);
    }
}

} // verus!
