//! Evaluation by iteration and by recursion return the same values.

use vstd::prelude::*;
use vstd::seq_lib::*;

use crate::agreement;
use crate::choices;
use crate::climb;
use crate::complete;
use crate::depth;
use crate::derivation;
use crate::derivation::{Fault, Tree};
use crate::enumeration;
use crate::enumeration::{Outcome, Setup};
use crate::grammar::GrammarModel;
use crate::language;
use crate::laws;
use crate::rewriting;
use crate::spans::{Chart, Source};
use crate::text;
use crate::trees;
use crate::trees::EarleyForest;

verus! {

/// Every rule of the tree has an action.
pub open spec fn acted(tree: Tree, known: Set<Seq<char>>) -> bool
    decreases tree,
{
    match tree {
        Tree::Leaf { .. } => true,
        Tree::Node { rule, children } => {
            &&& known.contains(rule.text())
            &&& forall|k: int|
                #![trigger children[k]]
                0 <= k < children.len() ==> acted(children[k], known)
        },
    }
}

/// Every rule of the trees has an action.
pub open spec fn all_acted(list: Seq<Tree>, known: Set<Seq<char>>) -> bool {
    forall|k: int| 0 <= k < list.len() ==> acted(#[trigger] list[k], known)
}

/// Where every rule of the trees has an action, so has every rule of their parts.
proof fn lemma_acted_parts(list: Seq<Tree>, known: Set<Seq<char>>)
    requires
        list.len() > 0,
    ensures
        all_acted(list, known) ==> all_acted(list.drop_last(), known) && (list.last() matches Tree::Node {
            rule,
            children,
        } ==> known.contains(rule.text()) && all_acted(children, known)),
{
    if all_acted(list, known) {
        let before = list.drop_last();
        assert forall|k: int| 0 <= k < before.len() implies acted(#[trigger] before[k], known) by {
            assert(before[k] == list[k]);
        }
        assert(acted(list[list.len() - 1], known));
    }
}

/// Why a walk gave up, on a chart without cycles: some derivation of the item takes more steps
/// than it had, or has a rule without an action.
proof fn lemma_why_it_gave_up(
    chart: Chart,
    rank: spec_fn(int) -> nat,
    pick: spec_fn(int, int) -> int,
    known: Set<Seq<char>>,
    i: int,
    fuel: nat,
    met: Seq<int>,
    way: Seq<int>,
) -> (list: Seq<Tree>)
    requires
        chart.wf(),
        language::founded(chart.items),
        complete::ranked(chart, rank),
        derivation::picks_in_range(chart, pick),
        0 <= i < chart.items.len(),
        forall|j: int| 0 <= j < way.len() ==> rank(i) < rank(#[trigger] way[j]),
        derivation::unfold(chart, pick, known, i, fuel, met, way) is Err,
    ensures
        derivation::derives(chart, i, list),
        1 + derivation::forest_steps(list) > fuel || !all_acted(list, known),
        match derivation::unfold(chart, pick, known, i, fuel, met, way)->Err_0 {
            Fault::OutOfSteps => 1 + derivation::forest_steps(list) > fuel,
            Fault::MissingAction { rule } => depth::unknown(chart, known, rule),
            Fault::TooDeep { .. } => false,
        },
    decreases fuel,
{
    assert(chart.item_ok(i));
    let item = chart.items[i];
    assert(!derivation::circles(chart, way, i)) by {
        if way.contains(i) {
            let j = way.index_of(i);
            assert(way[j] == i);
        }
    }
    if fuel == 0 {
        language::lemma_derives_some(chart, i)
    } else {
        let here = derivation::onward(chart, way, i);
        let k = pick(met.len() as int, i);
        let left = (fuel - 1) as nat;
        let mid = met.push(i);
        assert(chart.source_ok(i, item.sources[k]));
        assert forall|j: int| 0 <= j < here.len() implies rank(i) <= rank(#[trigger] here[j]) by {
            if j < way.len() {
                assert(here[j] == way[j]);
            }
        }
        match item.sources[k] {
            Source::Scan { from, token } => {
                let before = lemma_why_it_gave_up(
                    chart,
                    rank,
                    pick,
                    known,
                    from,
                    left,
                    mid,
                    here,
                );
                let list = language::lemma_derives_more(chart, i, k, before, Seq::empty());
                lemma_acted_parts(list, known);
                list
            },
            Source::Completion { from, by } => {
                let rule = chart.items[by].rule;
                match derivation::unfold(chart, pick, known, by, left, mid, here) {
                    Err(_) => {
                        let children = lemma_why_it_gave_up(
                            chart,
                            rank,
                            pick,
                            known,
                            by,
                            left,
                            mid,
                            here,
                        );
                        let before = language::lemma_derives_some(chart, from);
                        let list = language::lemma_derives_more(chart, i, k, before, children);
                        lemma_acted_parts(list, known);
                        assert(list.last().steps() == 1 + derivation::forest_steps(children));
                        list
                    },
                    Ok(u) => {
                        derivation::lemma_unfold(chart, pick, known, by, left, mid, here);
                        let before = if known.contains(rule.text()) {
                            lemma_why_it_gave_up(
                                chart,
                                rank,
                                pick,
                                known,
                                from,
                                u.fuel,
                                u.met,
                                here,
                            )
                        } else {
                            language::lemma_derives_some(chart, from)
                        };
                        let list = language::lemma_derives_more(chart, i, k, before, u.trees);
                        assert(chart.items[by].complete());
                        lemma_acted_parts(list, known);
                        assert(list.last().steps() == 1 + derivation::forest_steps(u.trees));
                        list
                    },
                }
            },
        }
    }
}

/// What a walk by recursion reduces has actions where its parts have.
proof fn lemma_reduced_acted(
    chart: Chart,
    known: Set<Seq<char>>,
    i: int,
    lists: Seq<Seq<Tree>>,
)
    requires
        forall|k: int| 0 <= k < lists.len() ==> all_acted(#[trigger] lists[k], known),
    ensures
        climb::reduced(chart, known, i, lists) matches Ok(out) ==> forall|k: int|
            0 <= k < out.len() ==> all_acted(#[trigger] out[k], known),
{
    if let Ok(out) = climb::reduced(chart, known, i, lists) {
        assert forall|k: int| 0 <= k < out.len() implies all_acted(#[trigger] out[k], known) by {
            assert(out[k] == climb::wrapped(chart, i, lists[k]));
            assert(all_acted(lists[k], known));
        }
    }
}

/// Every rule of the trees that a walk by recursion hands up has an action.
proof fn lemma_climb_acted(
    chart: Chart,
    known: Set<Seq<char>>,
    i: int,
    level: int,
    explored: Seq<Source>,
)
    ensures
        climb::climb_all(chart, known, i, level, explored) matches Ok(lists) ==> forall|k: int|
            0 <= k < lists.len() ==> all_acted(#[trigger] lists[k], known),
    decreases climb::MAX_WALKER_RECURSION - level, chart.items[i].sources.len() + 2,
{
    if level < climb::MAX_WALKER_RECURSION {
        if chart.items[i].sources.len() == 0 {
            lemma_reduced_acted(chart, known, i, seq![Seq::<Tree>::empty()]);
        } else {
            lemma_climb_from_acted(chart, known, i, level, explored, 0);
        }
    }
}

proof fn lemma_climb_from_acted(
    chart: Chart,
    known: Set<Seq<char>>,
    i: int,
    level: int,
    explored: Seq<Source>,
    k: int,
)
    ensures
        climb::climb_from(chart, known, i, level, explored, k) matches Ok(lists) ==> forall|n: int|
            0 <= n < lists.len() ==> all_acted(#[trigger] lists[n], known),
    decreases climb::MAX_WALKER_RECURSION - level, chart.items[i].sources.len() - k + 1,
{
    let sources = chart.items[i].sources;
    if level >= climb::MAX_WALKER_RECURSION || k < 0 || k >= sources.len() {
    } else if explored.contains(sources[k]) {
        lemma_climb_from_acted(chart, known, i, level, explored, k + 1);
    } else {
        let taken = explored.push(sources[k]);
        lemma_climb_from_acted(chart, known, i, level, taken, k + 1);
        match sources[k] {
            Source::Scan { from, token } => {
                lemma_climb_acted(chart, known, from, level + 1, taken);
                if let Ok(lefts) = climb::climb_all(chart, known, from, level + 1, taken) {
                    let lists = lefts.map_values(
                        |left: Seq<Tree>|
                            left.push(
                                Tree::Leaf { symbol: chart.items[from].next_symbol(), token },
                            ),
                    );
                    assert forall|n: int| 0 <= n < lists.len() implies all_acted(
                        #[trigger] lists[n],
                        known,
                    ) by {
                        assert(all_acted(lefts[n], known));
                    }
                    lemma_reduced_acted(chart, known, i, lists);
                }
            },
            Source::Completion { from, by } => {
                lemma_climb_acted(chart, known, from, level + 1, taken);
                lemma_climb_acted(chart, known, by, level + 1, taken);
                if let Ok(lefts) = climb::climb_all(chart, known, from, level + 1, taken) {
                    if let Ok(rights) = climb::climb_all(chart, known, by, level + 1, taken) {
                        let lists = climb::products(lefts, rights);
                        assert forall|n: int| 0 <= n < lists.len() implies all_acted(
                            #[trigger] lists[n],
                            known,
                        ) by {
                            climb::lemma_products(lefts, rights, n);
                            let (a, b) = choose|a: int, b: int|
                                #![trigger lefts[a], rights[b]]
                                0 <= a < lefts.len() && 0 <= b < rights.len() && lists[n]
                                    == lefts[a] + rights[b];
                            assert(all_acted(lefts[a], known));
                            assert(all_acted(rights[b], known));
                        }
                        lemma_reduced_acted(chart, known, i, lists);
                    }
                }
            },
        }
        let here = climb::climb_here(chart, known, i, level, taken, k);
        let more = climb::climb_from(chart, known, i, level, taken, k + 1);
        let all = climb::climb_from(chart, known, i, level, explored, k);
        if all is Ok {
            assert(all->Ok_0 == here->Ok_0 + more->Ok_0);
            assert forall|n: int| 0 <= n < all->Ok_0.len() implies all_acted(
                #[trigger] all->Ok_0[n],
                known,
            ) by {
                if n < here->Ok_0.len() {
                    assert(all->Ok_0[n] == here->Ok_0[n]);
                } else {
                    assert(all->Ok_0[n] == more->Ok_0[n - here->Ok_0.len()]);
                }
            }
        }
    }
}

/// Every rule of the trees that evaluation by recursion finds has an action.
pub proof fn law_recursion_finds_acted_trees(chart: Chart, known: Set<Seq<char>>, n: int, k: int)
    requires
        chart.wf(),
        0 <= n <= chart.roots.len(),
        climb::climb_roots(chart, known, n) is Ok,
        0 <= k < climb::climb_roots(chart, known, n)->Ok_0.len(),
    ensures
        acted(climb::climb_roots(chart, known, n)->Ok_0[k], known),
    decreases n,
{
    let root = chart.roots[n - 1];
    let before = climb::climb_roots(chart, known, n - 1)->Ok_0;
    if k < before.len() {
        law_recursion_finds_acted_trees(chart, known, n - 1, k);
        assert(climb::climb_roots(chart, known, n)->Ok_0[k] == before[k]);
    } else {
        lemma_climb_acted(chart, known, root, 0, Seq::empty());
        climb::lemma_climb_all(chart, known, root, 0, Seq::empty());
        let lists = climb::climb_all(chart, known, root, 0, Seq::empty())->Ok_0;
        let list = lists[k - before.len()];
        assert(climb::handed_up(chart, root, list));
        assert(all_acted(list, known));
        assert(climb::climb_roots(chart, known, n)->Ok_0[k] == list[0]);
    }
}

/// No derivation of a root takes more than `limit` steps.
pub open spec fn within(chart: Chart, limit: nat) -> bool {
    forall|root: int, children: Seq<Tree>|
        chart.roots.contains(root) && #[trigger] derivation::derives(chart, root, children) ==> 1
            + derivation::forest_steps(children) <= limit
}

/// No walk of an enumeration of roots gives up where evaluation by recursion does not and every
/// derivation is within the cap on steps: on charts of a parse without cycles.
pub proof fn law_no_walk_gives_up<P: Fn(&str) -> bool>(
    setup: Setup,
    g: GrammarModel<P>,
    tokens: Seq<Seq<char>>,
    rank: spec_fn(int) -> nat,
    roots: Seq<int>,
)
    requires
        language::charts(setup.chart, g, tokens),
        g.rules.no_duplicates(),
        complete::ranked(setup.chart, rank),
        within(setup.chart, setup.limit),
        climb::climb_roots(setup.chart, setup.known, setup.chart.roots.len() as int) is Ok,
        forall|k: int| 0 <= k < roots.len() ==> setup.chart.roots.contains(#[trigger] roots[k]),
    ensures
        !enumeration::cut_short(setup.outcomes(roots)),
{
    let chart = setup.chart;
    let known = setup.known;
    let all = setup.outcomes(roots);
    if enumeration::cut_short(all) {
        let n = all.len() - 1;
        assert forall|k: int| 0 <= k < roots.len() implies setup.ready(#[trigger] roots[k]) by {
            let r = chart.roots.index_of(roots[k]);
            assert(chart.roots[r] == roots[k]);
        }
        setup.law_outcomes_are_admissible(roots, n);
        let (root, pick) = choose|root: int, pick: spec_fn(int, int) -> int|
            #![trigger setup.tree_by(root, pick)]
            roots.contains(root) && laws::admissible(chart, setup.priorities, pick) && all[n]
                == setup.tree_by(root, pick);
        assert(chart.roots.contains(roots[roots.index_of(root)]));
        let r = chart.roots.index_of(root);
        assert(chart.roots[r] == root);
        laws::lemma_admissible_in_range(chart, setup.priorities, pick);
        let none = Seq::<int>::empty();
        let walk = derivation::unfold(chart, pick, known, root, setup.limit, none, none);
        let children = if walk is Err {
            lemma_why_it_gave_up(chart, rank, pick, known, root, setup.limit, none, none)
        } else {
            derivation::lemma_unfold(chart, pick, known, root, setup.limit, none, none);
            walk->Ok_0.trees
        };
        let tree = Tree::Node { rule: chart.items[root].rule, children };
        let m = chart.roots.len() as int;
        complete::law_recursion_finds_every_derivation(chart, known, rank, m, r, children);
        let found = climb::climb_roots(chart, known, m)->Ok_0;
        let k = found.index_of(tree);
        assert(found[k] == tree);
        law_recursion_finds_acted_trees(chart, known, m, k);
        assert(all_acted(seq![tree], known));
        lemma_acted_parts(seq![tree], known);
    }
}

/// An enumeration succeeds where it can: on charts of a parse without cycles, where every rule has
/// an action and no derivation of a root has so many rules and tokens, the rules counted twice,
/// that it takes more steps than the cap allows, no walk gives up, whatever the priorities.
pub proof fn law_enumeration_succeeds_where_it_can<P: Fn(&str) -> bool>(
    setup: Setup,
    g: GrammarModel<P>,
    tokens: Seq<Seq<char>>,
    rank: spec_fn(int) -> nat,
)
    requires
        language::charts(setup.chart, g, tokens),
        complete::ranked(setup.chart, rank),
        depth::all_known(setup.chart, setup.known),
        forall|root: int, children: Seq<Tree>|
            setup.chart.roots.contains(root) && #[trigger] derivation::derives(
                setup.chart,
                root,
                children,
            ) ==> 2 * rewriting::all_nodes(children) + derivation::forest_tokens(children).len() + 1
                <= setup.limit,
    ensures
        ({
            let list = setup.outcomes(choices::eligible_roots(setup.chart, setup.priorities));
            &&& forall|k: int| 0 <= k < list.len() ==> (#[trigger] list[k]) is Ok
            &&& setup.chart.roots.len() > 0 ==> list.len() > 0
        }),
{
    let chart = setup.chart;
    let known = setup.known;
    let roots = choices::eligible_roots(chart, setup.priorities);
    let all = setup.outcomes(roots);
    choices::lemma_eligible_roots(chart, setup.priorities);
    setup.lemma_errors_last(roots);
    if enumeration::cut_short(all) {
        let n = all.len() - 1;
        setup.law_outcomes_are_admissible(roots, n);
        let (root, pick) = choose|root: int, pick: spec_fn(int, int) -> int|
            #![trigger setup.tree_by(root, pick)]
            roots.contains(root) && laws::admissible(chart, setup.priorities, pick) && all[n]
                == setup.tree_by(root, pick);
        assert(chart.roots.contains(roots[roots.index_of(root)]));
        laws::lemma_admissible_in_range(chart, setup.priorities, pick);
        let none = Seq::<int>::empty();
        assert(chart.items[root].complete());
        assert(known.contains(chart.items[root].rule.text()));
        let children = lemma_why_it_gave_up(
            chart,
            rank,
            pick,
            known,
            root,
            setup.limit,
            none,
            none,
        );
        lemma_derivations_acted(chart, known, root, children);
        rewriting::law_tokens_and_steps_of_a_tree(
            Tree::Node { rule: chart.items[root].rule, children },
        );
        let tree = Tree::Node { rule: chart.items[root].rule, children };
        assert(tree.steps() == 1 + derivation::forest_steps(children));
        assert(tree.tokens() == derivation::forest_tokens(children));
        assert(rewriting::nodes(tree) == 1 + rewriting::all_nodes(children));
    }
    assert forall|k: int| 0 <= k < all.len() implies (#[trigger] all[k]) is Ok by {
        if k == all.len() - 1 {
            assert(all.last() is Ok);
        }
    }
}

/// What an enumeration reports is true, on charts of a parse without cycles: where it runs out of
/// steps, some derivation of a root takes more than the cap allows, and where it misses an action,
/// the rule that it names is one that the chart completes and that has none.
pub proof fn law_enumeration_reports_the_truth<P: Fn(&str) -> bool>(
    setup: Setup,
    g: GrammarModel<P>,
    tokens: Seq<Seq<char>>,
    rank: spec_fn(int) -> nat,
)
    requires
        language::charts(setup.chart, g, tokens),
        complete::ranked(setup.chart, rank),
        ({
            let list = setup.outcomes(choices::eligible_roots(setup.chart, setup.priorities));
            list.len() > 0 && list.last() is Err
        }),
    ensures
        match setup.outcomes(
            choices::eligible_roots(setup.chart, setup.priorities),
        ).last()->Err_0 {
            Fault::OutOfSteps => exists|root: int, children: Seq<Tree>|
                setup.chart.roots.contains(root) && #[trigger] derivation::derives(
                    setup.chart,
                    root,
                    children,
                ) && 2 * rewriting::all_nodes(children) + derivation::forest_tokens(
                    children,
                ).len() + 1 > setup.limit,
            Fault::MissingAction { rule } => !setup.known.contains(rule.text()) && exists|i: int|
                0 <= i < setup.chart.items.len() && (#[trigger] setup.chart.items[i]).rule == rule
                    && setup.chart.items[i].dot >= rule.spec.len(),
            Fault::TooDeep { .. } => false,
        },
{
    let chart = setup.chart;
    let known = setup.known;
    let roots = choices::eligible_roots(chart, setup.priorities);
    let all = setup.outcomes(roots);
    choices::lemma_eligible_roots(chart, setup.priorities);
    let n = all.len() - 1;
    setup.law_outcomes_are_admissible(roots, n);
    let (root, pick) = choose|root: int, pick: spec_fn(int, int) -> int|
        #![trigger setup.tree_by(root, pick)]
        roots.contains(root) && laws::admissible(chart, setup.priorities, pick) && all[n]
            == setup.tree_by(root, pick);
    assert(chart.roots.contains(roots[roots.index_of(root)]));
    laws::lemma_admissible_in_range(chart, setup.priorities, pick);
    let none = Seq::<int>::empty();
    assert(chart.items[root].complete());
    let walk = derivation::unfold(chart, pick, known, root, setup.limit, none, none);
    if walk is Err {
        let children = lemma_why_it_gave_up(
            chart,
            rank,
            pick,
            known,
            root,
            setup.limit,
            none,
            none,
        );
        let tree = Tree::Node { rule: chart.items[root].rule, children };
        rewriting::law_tokens_and_steps_of_a_tree(tree);
        assert(tree.steps() == 1 + derivation::forest_steps(children));
        assert(tree.tokens() == derivation::forest_tokens(children));
        assert(rewriting::nodes(tree) == 1 + rewriting::all_nodes(children));
    }
}

/// Where every rule that a chart completes has an action, so has every rule of its derivations.
proof fn lemma_derivations_acted(
    chart: Chart,
    known: Set<Seq<char>>,
    i: int,
    list: Seq<Tree>,
)
    requires
        chart.wf(),
        depth::all_known(chart, known),
        0 <= i < chart.items.len(),
        derivation::derives(chart, i, list),
    ensures
        all_acted(list, known),
    decreases derivation::forest_steps(list),
{
    if list.len() > 0 {
        let k = derivation::lemma_derives_source(chart, i, list);
        assert(chart.item_ok(i));
        assert(chart.source_ok(i, chart.items[i].sources[k]));
        let before = list.drop_last();
        let last = list.last();
        match chart.items[i].sources[k] {
            Source::Scan { from, .. } => {
                lemma_derivations_acted(chart, known, from, before);
            },
            Source::Completion { from, by } => {
                let children = last->children;
                assert(last.steps() == 1 + derivation::forest_steps(children));
                lemma_derivations_acted(chart, known, from, before);
                lemma_derivations_acted(chart, known, by, children);
                assert(chart.items[by].dot >= chart.items[by].rule.spec.len());
            },
        }
        assert(acted(last, known));
        assert forall|m: int| 0 <= m < list.len() implies acted(#[trigger] list[m], known) by {
            if m < before.len() {
                assert(list[m] == before[m]);
            }
        }
    }
}

/// Lists that are the same but for their order are so after the same is done to each part.
proof fn lemma_mapped<A, B>(a: Seq<A>, b: Seq<A>, f: spec_fn(A) -> B)
    requires
        a.to_multiset() == b.to_multiset(),
    ensures
        a.map_values(f).to_multiset() == b.map_values(f).to_multiset(),
    decreases a.len(),
{
    broadcast use group_to_multiset_ensures;

    assert(a.len() == a.to_multiset().len());
    assert(b.len() == b.to_multiset().len());
    let x = a.map_values(f);
    let y = b.map_values(f);
    if a.len() == 0 {
        assert(x =~= y);
    } else {
        let n = a.len() - 1;
        let last = a[n];
        assert(a.contains(last));
        assert(a.to_multiset().count(last) > 0);
        assert(b.contains(last));
        let j = b.index_of(last);
        assert(a.remove(n).to_multiset() == a.to_multiset().remove(last));
        assert(b.remove(j).to_multiset() == b.to_multiset().remove(last));
        lemma_mapped(a.remove(n), b.remove(j), f);
        assert(x.remove(n) =~= a.remove(n).map_values(f));
        assert(y.remove(j) =~= b.remove(j).map_values(f));
        assert(x.remove(n).to_multiset() == x.to_multiset().remove(f(last)));
        assert(y.remove(j).to_multiset() == y.to_multiset().remove(f(last)));
        assert(x[n] == f(last));
        assert(y[j] == f(last));
        assert(x.contains(f(last)));
        assert(y.contains(f(last)));
        assert(x.to_multiset().count(f(last)) > 0);
        assert(y.to_multiset().count(f(last)) > 0);
        assert(x.to_multiset() =~= x.to_multiset().remove(f(last)).insert(f(last)));
        assert(y.to_multiset() =~= y.to_multiset().remove(f(last)).insert(f(last)));
    }
}

impl<ASTNode: Clone, Lift: Fn(&str, &str) -> ASTNode, Action: Fn(Vec<ASTNode>) -> ASTNode> EarleyForest<
    ASTNode,
    Lift,
    Action,
> {
    /// The terminal parser and the actions give one value each for what they are called with, and
    /// a clone is the value that it was made of.
    pub open spec fn deterministic(self) -> bool {
        &&& forall|symbol: Seq<char>, token: Seq<char>, u: ASTNode, v: ASTNode|
            #[trigger] self.lifts(symbol, token, u) && #[trigger] self.lifts(symbol, token, v) ==> u
                == v
        &&& forall|rule: Seq<char>, a: Vec<ASTNode>, b: Vec<ASTNode>, u: ASTNode, v: ASTNode|
            self.action_map().contains_key(rule) && a@ == b@ && #[trigger] call_ensures(
                self.action_map()[rule],
                (a,),
                u,
            ) && #[trigger] call_ensures(self.action_map()[rule], (b,), v) ==> u == v
        &&& forall|u: ASTNode, v: ASTNode| #[trigger] cloned(u, v) ==> u == v
    }

    /// Copies are the values that they were made of.
    proof fn lemma_copies_same(self, raw: Seq<ASTNode>, args: Seq<ASTNode>, copied: bool)
        requires
            self.deterministic(),
            trees::passed(raw, args, copied),
        ensures
            raw == args,
    {
        assert forall|k: int| 0 <= k < raw.len() implies raw[k] == args[k] by {
            if copied {
                assert(trees::copies(raw[k], args[k]));
                let chain = choose|chain: Seq<ASTNode>| #[trigger]
                    trees::clone_chain(chain, raw[k], args[k]);
                self.lemma_chain_same(chain, chain.len() - 1);
            }
        }
        assert(raw =~= args);
    }

    proof fn lemma_chain_same(self, chain: Seq<ASTNode>, n: int)
        requires
            self.deterministic(),
            0 <= n < chain.len(),
            forall|k: int| 0 < k < chain.len() ==> cloned(chain[k - 1], #[trigger] chain[k]),
        ensures
            chain[n] == chain[0],
        decreases n,
    {
        if n > 0 {
            self.lemma_chain_same(chain, n - 1);
            assert(cloned(chain[n - 1], chain[n]));
        }
    }

    /// A tree has one value, whether values were handed on as they are or as clones.
    pub proof fn law_one_value(self, tree: Tree, u: ASTNode, v: ASTNode, a: bool, b: bool)
        requires
            self.deterministic(),
            self.produces(tree, u, a),
            self.produces(tree, v, b),
        ensures
            u == v,
        decreases tree,
    {
        if let Tree::Node { rule, children } = tree {
            let action = self.action_map()[rule.text()];
            let (raw, args) = choose|raw: Seq<ASTNode>, args: Vec<ASTNode>|
                {
                    &&& #[trigger] trees::passed(raw, args@, a)
                    &&& raw.len() == children.len()
                    &&& forall|k: int|
                        #![trigger children[k]]
                        0 <= k < children.len() ==> self.produces(children[k], raw[k], a)
                    &&& call_ensures(action, (args,), u)
                };
            let (other, given) = choose|raw: Seq<ASTNode>, args: Vec<ASTNode>|
                {
                    &&& #[trigger] trees::passed(raw, args@, b)
                    &&& raw.len() == children.len()
                    &&& forall|k: int|
                        #![trigger children[k]]
                        0 <= k < children.len() ==> self.produces(children[k], raw[k], b)
                    &&& call_ensures(action, (args,), v)
                };
            assert forall|k: int| 0 <= k < children.len() implies raw[k] == other[k] by {
                assert(self.produces(children[k], raw[k], a));
                assert(self.produces(children[k], other[k], b));
                self.law_one_value(children[k], raw[k], other[k], a, b);
            }
            assert(raw =~= other);
            self.lemma_copies_same(raw, args@, a);
            self.lemma_copies_same(other, given@, b);
            assert(call_ensures(self.action_map()[rule.text()], (args,), u));
            assert(call_ensures(self.action_map()[rule.text()], (given,), v));
        }
    }

    /// `v` is a value of the tree.
    spec fn evaluates(self, tree: Tree, v: ASTNode) -> bool {
        self.produces(tree, v, false) || self.produces(tree, v, true)
    }

    /// The value of a token is what the terminal parser gives for its symbol and its text; the
    /// value of a rule is what its action gives for the values of its parts, one for each and in
    /// order.
    pub proof fn law_values_are_made_of_values(self, tree: Tree, v: ASTNode)
        ensures
            tree matches Tree::Leaf { symbol, token } ==> (self.produces(tree, v, false)
                <==> exists|a: &str, b: &str|
                a@ == symbol && b@ == token && #[trigger] call_ensures(self.lift(), (a, b), v)),
            tree matches Tree::Node { rule, children } ==> (self.produces(tree, v, false)
                <==> self.action_map().contains_key(rule.text()) && exists|args: Vec<ASTNode>|
                {
                    &&& args@.len() == children.len()
                    &&& forall|k: int|
                        #![trigger children[k]]
                        0 <= k < children.len() ==> self.produces(children[k], args@[k], false)
                    &&& #[trigger] call_ensures(self.action_map()[rule.text()], (args,), v)
                }),
    {
        if let Tree::Node { rule, children } = tree {
            let action = self.action_map()[rule.text()];
            if self.produces(tree, v, false) {
                let (raw, args) = choose|raw: Seq<ASTNode>, args: Vec<ASTNode>|
                    {
                        &&& #[trigger] trees::passed(raw, args@, false)
                        &&& raw.len() == children.len()
                        &&& forall|k: int|
                            #![trigger children[k]]
                            0 <= k < children.len() ==> self.produces(children[k], raw[k], false)
                        &&& call_ensures(action, (args,), v)
                    };
                assert(raw =~= args@);
                assert(call_ensures(self.action_map()[rule.text()], (args,), v));
            }
            if self.action_map().contains_key(rule.text()) && exists|args: Vec<ASTNode>|
                {
                    &&& args@.len() == children.len()
                    &&& forall|k: int|
                        #![trigger children[k]]
                        0 <= k < children.len() ==> self.produces(children[k], args@[k], false)
                    &&& #[trigger] call_ensures(self.action_map()[rule.text()], (args,), v)
                } {
                let args = choose|args: Vec<ASTNode>|
                    {
                        &&& args@.len() == children.len()
                        &&& forall|k: int|
                            #![trigger children[k]]
                            0 <= k < children.len() ==> self.produces(children[k], args@[k], false)
                        &&& #[trigger] call_ensures(self.action_map()[rule.text()], (args,), v)
                    };
                assert(trees::passed(args@, args@, false));
            }
        }
    }

    /// What is collected: a value for each tree, in order and none left out, or the message of the
    /// walk that gave up.
    pub proof fn law_every_outcome_is_collected(
        self,
        list: Seq<Outcome>,
        res: Result<Vec<ASTNode>, String>,
    )
        requires
            self.collects(list, res),
            forall|k: int| 0 <= k < list.len() - 1 ==> (#[trigger] list[k]) is Ok,
        ensures
            list.len() == 0 || list.last() is Ok ==> (res matches Ok(values) && values@.len()
                == list.len() && forall|k: int|
                #![trigger list[k]]
                0 <= k < list.len() ==> self.produces(list[k]->Ok_0, values@[k], false)),
            list.len() > 0 && list.last() is Err ==> (res matches Err(msg) && msg@
                == match list.last()->Err_0 {
                Fault::OutOfSteps => "Bottomless grammar: eval_one exceeded max tree-walk steps "@
                    + text::decimal(self.step_limit()),
                Fault::TooDeep { all } => if all {
                    "Bottomless grammar: "@ + "walker_all"@ + " exceeded max recursion depth "@
                        + text::decimal(100)
                } else {
                    "Bottomless grammar: "@ + "walker"@ + " exceeded max recursion depth "@
                        + text::decimal(100)
                },
                Fault::MissingAction { rule } => "Missing Action: "@ + rule.text(),
            }),
    {
    }

    /// What an evaluation depends on, and what comes of it: the chart, the priorities, the rules that
    /// have an action, and the cap, each as it was given; and the roots that no other one beats.
    pub proof fn law_what_an_evaluation_depends_on(self, chart: Chart)
        ensures
            self.setup(chart).chart == chart,
            self.setup(chart).priorities == self.priority_map(),
            forall|name: Seq<char>| #[trigger]
                self.setup(chart).known.contains(name) <==> self.action_map().contains_key(name),
            self.setup(chart).limit == self.step_limit(),
            self.outcomes(chart) == self.setup(chart).outcomes(
                choices::eligible_roots(chart, self.priority_map()),
            ),
    {
    }

    /// `eval_all` succeeds where it can: on charts of a parse without cycles, where every rule has
    /// an action and every derivation is within the cap. `res` is what it returns.
    pub proof fn law_eval_all_succeeds_where_it_can<P: Fn(&str) -> bool>(
        self,
        chart: Chart,
        g: GrammarModel<P>,
        tokens: Seq<Seq<char>>,
        rank: spec_fn(int) -> nat,
        res: Result<Vec<ASTNode>, String>,
    )
        requires
            language::charts(chart, g, tokens),
            complete::ranked(chart, rank),
            forall|i: int|
                0 <= i < chart.items.len() ==> self.action_map().contains_key(
                    (#[trigger] chart.items[i]).rule.text(),
                ),
            forall|root: int, children: Seq<Tree>|
                chart.roots.contains(root) && #[trigger] derivation::derives(chart, root, children)
                    ==> 2 * rewriting::all_nodes(children) + derivation::forest_tokens(
                    children,
                ).len() + 1 <= self.step_limit(),
            self.collects(self.outcomes(chart), res),
        ensures
            res is Ok,
            chart.roots.len() > 0 ==> res->Ok_0@.len() > 0,
    {
        law_enumeration_succeeds_where_it_can(self.setup(chart), g, tokens, rank);
        let list = self.outcomes(chart);
        if list.len() > 0 {
            assert(list[list.len() - 1] is Ok);
        }
    }

    /// What evaluation by recursion over all back-pointers returns: a value for each tree that it
    /// finds, in order and none left out, or the message.
    pub proof fn law_every_tree_that_is_found_is_returned(
        self,
        chart: Chart,
        res: Result<Vec<ASTNode>, String>,
    )
        requires
            self.found_by_recursion(chart, res),
        ensures
            match climb::climb_roots(chart, self.action_map().dom(), chart.roots.len() as int) {
                Ok(list) => res matches Ok(values) && values@.len() == list.len() && forall|k: int|
                    #![trigger list[k]]
                    0 <= k < list.len() ==> self.produces(list[k], values@[k], true),
                Err(fault) => res matches Err(msg) && msg@ == self.fault_text(fault),
            },
    {
    }

    /// What is reported of one walk: a value of its tree, or the message.
    pub proof fn law_every_walk_is_reported(
        self,
        found: Result<Tree, Fault>,
        res: Result<ASTNode, String>,
    )
        requires
            self.reports(found, res),
        ensures
            found matches Ok(tree) ==> (res matches Ok(v) && self.produces(tree, v, false)),
            found matches Err(fault) ==> (res matches Err(msg) && msg@ == self.fault_text(fault)),
    {
    }

    /// What a capped evaluation returns is a beginning of what the whole one returns: `all` and
    /// `some` are what the two return.
    pub proof fn law_capped_is_a_beginning(
        self,
        list: Seq<Outcome>,
        max: nat,
        all: Result<Vec<ASTNode>, String>,
        some: Result<Vec<ASTNode>, String>,
    )
        requires
            self.deterministic(),
            self.collects(list, all),
            self.collects(
                if max < list.len() {
                    list.take(max as int)
                } else {
                    list
                },
                some,
            ),
            all is Ok,
        ensures
            some matches Ok(values) && values@ == if max < all->Ok_0@.len() {
                all->Ok_0@.take(max as int)
            } else {
                all->Ok_0@
            },
    {
        let v = all->Ok_0@;
        let part = if max < list.len() {
            list.take(max as int)
        } else {
            list
        };
        assert(!enumeration::cut_short(part)) by {
            if part.len() > 0 {
                assert(part.last() == list[part.len() - 1]);
            }
        }
        let w = some->Ok_0@;
        assert forall|k: int| 0 <= k < w.len() implies w[k] == v[k] by {
            assert(part[k] == list[k]);
            self.law_one_value(list[k]->Ok_0, w[k], v[k], false, false);
        }
        if max < list.len() {
            assert(w =~= v.take(max as int));
        } else {
            assert(w =~= v);
        }
    }

    /// The value of a tree, where it has one.
    spec fn value_of(self, tree: Tree) -> ASTNode {
        choose|v: ASTNode| self.evaluates(tree, v)
    }

    proof fn lemma_value_of(self, tree: Tree, v: ASTNode, copied: bool)
        requires
            self.deterministic(),
            self.produces(tree, v, copied),
        ensures
            v == self.value_of(tree),
    {
        assert(self.evaluates(tree, v));
        let u = self.value_of(tree);
        if self.produces(tree, u, false) {
            self.law_one_value(tree, u, v, false, copied);
        } else {
            self.law_one_value(tree, u, v, true, copied);
        }
    }

    /// Where evaluation by recursion succeeds, `eval_all` returns the same values, each as often:
    /// for a forest without priorities whose closures are deterministic, on the chart of a parse
    /// without cycles, where every derivation is within the cap on steps. `all` and `found` are
    /// what the two return.
    pub proof fn law_eval_all_and_recursion_return_the_same<P: Fn(&str) -> bool>(
        self,
        chart: Chart,
        g: GrammarModel<P>,
        tokens: Seq<Seq<char>>,
        rank: spec_fn(int) -> nat,
        all: Result<Vec<ASTNode>, String>,
        found: Result<Vec<ASTNode>, String>,
    )
        requires
            self.deterministic(),
            self.priority_map() == Map::<Seq<char>, i32>::empty(),
            language::charts(chart, g, tokens),
            g.rules.no_duplicates(),
            complete::ranked(chart, rank),
            within(chart, self.step_limit()),
            self.collects(self.outcomes(chart), all),
            self.found_by_recursion(chart, found),
            found is Ok,
        ensures
            all matches Ok(values) && values@.to_multiset() == found->Ok_0@.to_multiset(),
    {
        let setup = self.setup(chart);
        let list = self.outcomes(chart);
        let n = chart.roots.len() as int;
        laws::law_no_priorities_no_filter(chart, 0);
        assert(choices::eligible_roots(chart, self.priority_map()) == chart.roots);
        law_no_walk_gives_up(setup, g, tokens, rank, chart.roots);
        agreement::law_iteration_and_recursion_agree(setup, g, tokens, rank);
        let a = agreement::trees_of(list);
        let b = climb::climb_roots(chart, self.known(), n)->Ok_0;
        let v = all->Ok_0@;
        let w = found->Ok_0@;
        let f = |tree: Tree| self.value_of(tree);
        assert(v =~= a.map_values(f)) by {
            assert forall|k: int| 0 <= k < v.len() implies v[k] == a.map_values(f)[k] by {
                assert(list[k] is Ok);
                self.lemma_value_of(a[k], v[k], false);
            }
        }
        assert(w =~= b.map_values(f)) by {
            assert forall|k: int| 0 <= k < w.len() implies w[k] == b.map_values(f)[k] by {
                assert(self.produces(b[k], w[k], true));
                self.lemma_value_of(b[k], w[k], true);
            }
        }
        lemma_mapped(a, b, f);
    }
}

} // verus!
