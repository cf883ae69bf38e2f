//! Evaluation by recursion: root by root, no tree twice, and the same trees as by iteration.

use vstd::prelude::*;
use vstd::seq_lib::*;

use crate::choices;
use crate::climb;
use crate::complete;
use crate::derivation;
use crate::derivation::{Fault, Tree};
use crate::distinct;
use crate::enumeration;
use crate::enumeration::{Outcome, Setup};
use crate::grammar::GrammarModel;
use crate::language;
use crate::laws;
use crate::spans::{Chart, Source};
use crate::unambiguous;

verus! {

/// A walk by recursion does not look at the roots of the chart.
proof fn lemma_roots_apart(
    a: Chart,
    b: Chart,
    known: Set<Seq<char>>,
    i: int,
    level: int,
    explored: Seq<Source>,
)
    requires
        a.items == b.items,
    ensures
        climb::climb_all(a, known, i, level, explored) == climb::climb_all(
            b,
            known,
            i,
            level,
            explored,
        ),
    decreases climb::MAX_WALKER_RECURSION - level, a.items[i].sources.len() + 2,
{
    if level < climb::MAX_WALKER_RECURSION {
        lemma_reduced_apart(a, b, known, i, seq![Seq::<Tree>::empty()]);
        if a.items[i].sources.len() > 0 {
            lemma_roots_apart_from(a, b, known, i, level, explored, 0);
        }
    }
}

proof fn lemma_reduced_apart(
    a: Chart,
    b: Chart,
    known: Set<Seq<char>>,
    i: int,
    lists: Seq<Seq<Tree>>,
)
    requires
        a.items == b.items,
    ensures
        climb::reduced(a, known, i, lists) == climb::reduced(b, known, i, lists),
{
    assert(lists.map_values(|t: Seq<Tree>| climb::wrapped(a, i, t)) =~= lists.map_values(
        |t: Seq<Tree>| climb::wrapped(b, i, t),
    ));
}

proof fn lemma_roots_apart_from(
    a: Chart,
    b: Chart,
    known: Set<Seq<char>>,
    i: int,
    level: int,
    explored: Seq<Source>,
    k: int,
)
    requires
        a.items == b.items,
    ensures
        climb::climb_from(a, known, i, level, explored, k) == climb::climb_from(
            b,
            known,
            i,
            level,
            explored,
            k,
        ),
    decreases climb::MAX_WALKER_RECURSION - level, a.items[i].sources.len() - k + 1,
{
    let sources = a.items[i].sources;
    if level >= climb::MAX_WALKER_RECURSION || k < 0 || k >= sources.len() {
    } else if explored.contains(sources[k]) {
        lemma_roots_apart_from(a, b, known, i, level, explored, k + 1);
    } else {
        let taken = explored.push(sources[k]);
        lemma_roots_apart_from(a, b, known, i, level, taken, k + 1);
        match sources[k] {
            Source::Scan { from, token } => {
                lemma_roots_apart(a, b, known, from, level + 1, taken);
                if let Ok(lefts) = climb::climb_all(a, known, from, level + 1, taken) {
                    let x = lefts.map_values(
                        |left: Seq<Tree>|
                            left.push(Tree::Leaf { symbol: a.items[from].next_symbol(), token }),
                    );
                    let y = lefts.map_values(
                        |left: Seq<Tree>|
                            left.push(Tree::Leaf { symbol: b.items[from].next_symbol(), token }),
                    );
                    assert(x =~= y);
                    lemma_reduced_apart(a, b, known, i, x);
                }
            },
            Source::Completion { from, by } => {
                lemma_roots_apart(a, b, known, from, level + 1, taken);
                lemma_roots_apart(a, b, known, by, level + 1, taken);
                if let Ok(lefts) = climb::climb_all(a, known, from, level + 1, taken) {
                    if let Ok(rights) = climb::climb_all(a, known, by, level + 1, taken) {
                        lemma_reduced_apart(a, b, known, i, climb::products(lefts, rights));
                    }
                }
            },
        }
        assert(climb::climb_here(a, known, i, level, taken, k) == climb::climb_here(
            b,
            known,
            i,
            level,
            taken,
            k,
        ));
    }
}

/// The chart with its `r`-th root alone.
pub open spec fn only_root(chart: Chart, r: int) -> Chart {
    Chart { items: chart.items, roots: seq![chart.roots[r]] }
}

/// The trees of the first `n` roots, each found in a chart of its own: one behind the other,
/// or the first error.
pub open spec fn one_by_one(chart: Chart, known: Set<Seq<char>>, n: int) -> Result<
    Seq<Tree>,
    Fault,
>
    decreases n,
{
    if n <= 0 {
        Ok(Seq::empty())
    } else {
        match one_by_one(chart, known, n - 1) {
            Err(fault) => Err(fault),
            Ok(before) => match climb::climb_roots(only_root(chart, n - 1), known, 1) {
                Err(fault) => Err(fault),
                Ok(more) => Ok(before + more),
            },
        }
    }
}

/// Evaluation by recursion takes the roots one by one: what it finds is what it finds for each
/// root alone, one behind the other, or the error of the first root that has one.
pub proof fn law_recursion_goes_root_by_root(chart: Chart, known: Set<Seq<char>>, n: int)
    ensures
        climb::climb_roots(chart, known, n) == one_by_one(chart, known, n),
    decreases n,
{
    if n > 0 {
        law_recursion_goes_root_by_root(chart, known, n - 1);
        let alone = only_root(chart, n - 1);
        lemma_roots_apart(chart, alone, known, chart.roots[n - 1], 0, Seq::empty());
        assert(climb::climb_roots(alone, known, 0) == Ok::<Seq<Tree>, Fault>(Seq::empty()));
        if let Ok(lists) = climb::climb_all(chart, known, chart.roots[n - 1], 0, Seq::empty()) {
            let trees = lists.map_values(|list: Seq<Tree>| list[0]);
            assert(Seq::<Tree>::empty() + trees =~= trees);
            assert(climb::climb_roots(alone, known, 1) == Ok::<Seq<Tree>, Fault>(trees));
        } else {
            assert(climb::climb_roots(alone, known, 1) is Err);
        }
    }
}

/// The list is what is handed up for subtrees that the back-pointer accounts for.
spec fn handed_by(chart: Chart, i: int, src: Source, list: Seq<Tree>) -> bool {
    exists|trees: Seq<Tree>| #[trigger]
        climb::wrapped(chart, i, trees) == list && derivation::derives_by(chart, src, trees)
}

/// What is found by way of a back-pointer is accounted for by it.
proof fn lemma_here_by(
    chart: Chart,
    known: Set<Seq<char>>,
    i: int,
    level: int,
    taken: Seq<Source>,
    k: int,
    n: int,
)
    requires
        chart.wf(),
        0 <= i < chart.items.len(),
        0 <= k < chart.items[i].sources.len(),
        climb::climb_here(chart, known, i, level, taken, k) matches Ok(lists) && 0 <= n
            < lists.len(),
    ensures
        handed_by(
            chart,
            i,
            chart.items[i].sources[k],
            climb::climb_here(chart, known, i, level, taken, k)->Ok_0[n],
        ),
{
    let src = chart.items[i].sources[k];
    let out = climb::climb_here(chart, known, i, level, taken, k)->Ok_0;
    assert(chart.item_ok(i));
    assert(chart.source_ok(i, src));
    match src {
        Source::Scan { from, token } => {
            let lefts = climb::climb_all(chart, known, from, level + 1, taken)->Ok_0;
            climb::lemma_climb_all(chart, known, from, level + 1, taken);
            let left = lefts[n];
            assert(climb::handed_up(chart, from, left));
            let trees = left.push(Tree::Leaf { symbol: chart.items[from].next_symbol(), token });
            assert(trees.drop_last() =~= left);
            assert(out[n] == climb::wrapped(chart, i, trees));
        },
        Source::Completion { from, by } => {
            let lefts = climb::climb_all(chart, known, from, level + 1, taken)->Ok_0;
            let rights = climb::climb_all(chart, known, by, level + 1, taken)->Ok_0;
            climb::lemma_climb_all(chart, known, from, level + 1, taken);
            climb::lemma_climb_all(chart, known, by, level + 1, taken);
            let lists = climb::products(lefts, rights);
            climb::lemma_products(lefts, rights, n);
            let (a, b) = choose|a: int, b: int|
                #![trigger lefts[a], rights[b]]
                0 <= a < lefts.len() && 0 <= b < rights.len() && lists[n] == lefts[a] + rights[b];
            assert(climb::handed_up(chart, from, lefts[a]));
            assert(climb::handed_up(chart, by, rights[b]));
            let trees = lefts[a] + rights[b];
            assert(trees.last() == rights[b][0]);
            assert(trees.drop_last() =~= lefts[a]);
            assert(out[n] == climb::wrapped(chart, i, trees));
        },
    }
}

/// What is found from the `k`-th back-pointer on is accounted for by one of these.
proof fn lemma_from_by(
    chart: Chart,
    known: Set<Seq<char>>,
    i: int,
    level: int,
    explored: Seq<Source>,
    k: int,
    n: int,
) -> (m: int)
    requires
        chart.wf(),
        0 <= i < chart.items.len(),
        0 <= k,
        climb::climb_from(chart, known, i, level, explored, k) matches Ok(lists) && 0 <= n
            < lists.len(),
    ensures
        k <= m < chart.items[i].sources.len(),
        handed_by(
            chart,
            i,
            chart.items[i].sources[m],
            climb::climb_from(chart, known, i, level, explored, k)->Ok_0[n],
        ),
    decreases chart.items[i].sources.len() - k,
{
    let sources = chart.items[i].sources;
    if explored.contains(sources[k]) {
        lemma_from_by(chart, known, i, level, explored, k + 1, n)
    } else {
        let taken = explored.push(sources[k]);
        let here = climb::climb_here(chart, known, i, level, taken, k)->Ok_0;
        let more = climb::climb_from(chart, known, i, level, taken, k + 1)->Ok_0;
        let all = climb::climb_from(chart, known, i, level, explored, k)->Ok_0;
        assert(all == here + more);
        if n < here.len() {
            lemma_here_by(chart, known, i, level, taken, k, n);
            k
        } else {
            assert(all[n] == more[n - here.len()]);
            lemma_from_by(chart, known, i, level, taken, k + 1, n - here.len())
        }
    }
}

/// Lists that differ, reduced, differ.
proof fn lemma_reduced_distinct(
    chart: Chart,
    known: Set<Seq<char>>,
    i: int,
    lists: Seq<Seq<Tree>>,
)
    requires
        lists.no_duplicates(),
    ensures
        climb::reduced(chart, known, i, lists) matches Ok(out) ==> out.no_duplicates(),
{
    if let Ok(out) = climb::reduced(chart, known, i, lists) {
        assert forall|a: int, b: int| 0 <= a < out.len() && 0 <= b < out.len() && a != b implies
            out[a] != out[b] by {
            assert(out[a] == climb::wrapped(chart, i, lists[a]));
            assert(out[b] == climb::wrapped(chart, i, lists[b]));
            if out[a] == out[b] && chart.items[i].complete() {
                assert(out[a][0] == out[b][0]);
            }
        }
    }
}

/// The products of lists that differ differ, where those on the left are of one length.
proof fn lemma_products_distinct(lefts: Seq<Seq<Tree>>, rights: Seq<Seq<Tree>>, len: nat)
    requires
        lefts.no_duplicates(),
        rights.no_duplicates(),
        forall|a: int| 0 <= a < lefts.len() ==> (#[trigger] lefts[a]).len() == len,
    ensures
        climb::products(lefts, rights).no_duplicates(),
    decreases lefts.len(),
{
    if lefts.len() > 0 {
        let rest = lefts.drop_last();
        let last = lefts.last();
        let fewer = climb::products(rest, rights);
        let all = climb::products(lefts, rights);
        assert forall|a: int| 0 <= a < rest.len() implies (#[trigger] rest[a]).len() == len by {
            assert(rest[a] == lefts[a]);
        }
        lemma_products_distinct(rest, rights, len);
        assert(lefts[lefts.len() - 1].len() == len);
        assert forall|x: int, y: int| 0 <= x < all.len() && 0 <= y < all.len() && x < y implies
            all[x] != all[y] by {
            if y < fewer.len() {
                assert(all[x] == fewer[x] && all[y] == fewer[y]);
            } else {
                let b = y - fewer.len();
                assert(all[y] == last + rights[b]);
                if x < fewer.len() {
                    assert(all[x] == fewer[x]);
                    climb::lemma_products(rest, rights, x);
                    let (c, d) = choose|c: int, d: int|
                        #![trigger rest[c], rights[d]]
                        0 <= c < rest.len() && 0 <= d < rights.len() && fewer[x] == rest[c]
                            + rights[d];
                    if all[x] == all[y] {
                        assert((rest[c] + rights[d]).take(len as int) =~= rest[c]);
                        assert((last + rights[b]).take(len as int) =~= last);
                        assert(lefts[c] == lefts[lefts.len() - 1]);
                    }
                } else {
                    let a = x - fewer.len();
                    assert(all[x] == last + rights[a]);
                    if all[x] == all[y] {
                        assert((last + rights[a]).skip(len as int) =~= rights[a]);
                        assert((last + rights[b]).skip(len as int) =~= rights[b]);
                    }
                }
            }
        }
    }
}

/// The lists that a walk by recursion hands up from an item differ.
proof fn lemma_climb_distinct<P: Fn(&str) -> bool>(
    chart: Chart,
    g: GrammarModel<P>,
    tokens: Seq<Seq<char>>,
    known: Set<Seq<char>>,
    i: int,
    level: int,
    explored: Seq<Source>,
)
    requires
        language::charts(chart, g, tokens),
        g.rules.no_duplicates(),
        0 <= i < chart.items.len(),
    ensures
        climb::climb_all(chart, known, i, level, explored) matches Ok(lists)
            ==> lists.no_duplicates(),
    decreases climb::MAX_WALKER_RECURSION - level, chart.items[i].sources.len() + 2,
{
    if level < climb::MAX_WALKER_RECURSION {
        if chart.items[i].sources.len() == 0 {
            lemma_reduced_distinct(chart, known, i, seq![Seq::<Tree>::empty()]);
        } else {
            lemma_climb_from_distinct(chart, g, tokens, known, i, level, explored, 0);
        }
    }
}

proof fn lemma_climb_from_distinct<P: Fn(&str) -> bool>(
    chart: Chart,
    g: GrammarModel<P>,
    tokens: Seq<Seq<char>>,
    known: Set<Seq<char>>,
    i: int,
    level: int,
    explored: Seq<Source>,
    k: int,
)
    requires
        language::charts(chart, g, tokens),
        g.rules.no_duplicates(),
        0 <= i < chart.items.len(),
        0 <= k,
    ensures
        climb::climb_from(chart, known, i, level, explored, k) matches Ok(lists)
            ==> lists.no_duplicates(),
    decreases climb::MAX_WALKER_RECURSION - level, chart.items[i].sources.len() - k + 1,
{
    let sources = chart.items[i].sources;
    assert(chart.item_ok(i));
    if level >= climb::MAX_WALKER_RECURSION || k >= sources.len() {
    } else if explored.contains(sources[k]) {
        lemma_climb_from_distinct(chart, g, tokens, known, i, level, explored, k + 1);
    } else {
        let taken = explored.push(sources[k]);
        assert(chart.source_ok(i, sources[k]));
        lemma_climb_from_distinct(chart, g, tokens, known, i, level, taken, k + 1);
        match sources[k] {
            Source::Scan { from, token } => {
                lemma_climb_distinct(chart, g, tokens, known, from, level + 1, taken);
                if let Ok(lefts) = climb::climb_all(chart, known, from, level + 1, taken) {
                    let leaf = Tree::Leaf { symbol: chart.items[from].next_symbol(), token };
                    let lists = lefts.map_values(
                        |left: Seq<Tree>|
                            left.push(
                                Tree::Leaf { symbol: chart.items[from].next_symbol(), token },
                            ),
                    );
                    assert forall|a: int, b: int|
                        0 <= a < lists.len() && 0 <= b < lists.len() && a != b implies lists[a]
                        != lists[b] by {
                        if lists[a] == lists[b] {
                            assert(lefts[a].push(leaf).drop_last() =~= lefts[a]);
                            assert(lefts[b].push(leaf).drop_last() =~= lefts[b]);
                        }
                    }
                    lemma_reduced_distinct(chart, known, i, lists);
                }
            },
            Source::Completion { from, by } => {
                lemma_climb_distinct(chart, g, tokens, known, from, level + 1, taken);
                lemma_climb_distinct(chart, g, tokens, known, by, level + 1, taken);
                climb::lemma_climb_all(chart, known, from, level + 1, taken);
                if let Ok(lefts) = climb::climb_all(chart, known, from, level + 1, taken) {
                    if let Ok(rights) = climb::climb_all(chart, known, by, level + 1, taken) {
                        let len = chart.items[from].dot as nat;
                        assert(chart.item_ok(from));
                        assert forall|a: int| 0 <= a < lefts.len() implies (
                        #[trigger] lefts[a]).len() == len by {
                            assert(climb::handed_up(chart, from, lefts[a]));
                            language::lemma_derived(chart, g, tokens, from, lefts[a]);
                        }
                        lemma_products_distinct(lefts, rights, len);
                        lemma_reduced_distinct(chart, known, i, climb::products(lefts, rights));
                    }
                }
            },
        }
        let here = climb::climb_here(chart, known, i, level, taken, k);
        let more = climb::climb_from(chart, known, i, level, taken, k + 1);
        let all = climb::climb_from(chart, known, i, level, explored, k);
        if all is Ok {
            let x = here->Ok_0;
            let y = more->Ok_0;
            assert(x.no_duplicates());
            assert(all->Ok_0 == x + y);
            assert forall|a: int, b: int| 0 <= a < x.len() && 0 <= b < y.len() implies
                #[trigger] x[a] != #[trigger] y[b] by {
                lemma_here_by(chart, known, i, level, taken, k, a);
                let m = lemma_from_by(chart, known, i, level, taken, k + 1, b);
                if x[a] == y[b] {
                    let s = choose|s: Seq<Tree>| #[trigger]
                        climb::wrapped(chart, i, s) == x[a] && derivation::derives_by(
                            chart,
                            sources[k],
                            s,
                        );
                    let t = choose|t: Seq<Tree>| #[trigger]
                        climb::wrapped(chart, i, t) == y[b] && derivation::derives_by(
                            chart,
                            sources[m],
                            t,
                        );
                    if chart.items[i].complete() {
                        assert(x[a][0] == y[b][0]);
                    }
                    assert(s == t);
                    unambiguous::lemma_sources_differ(chart, g, tokens, i, k, m, s, t);
                }
            }
            lemma_joined_distinct(x, y);
        }
    }
}

/// Two lists without duplicates that share nothing have none together.
proof fn lemma_joined_distinct<T>(x: Seq<T>, y: Seq<T>)
    requires
        x.no_duplicates(),
        y.no_duplicates(),
        forall|a: int, b: int|
            0 <= a < x.len() && 0 <= b < y.len() ==> #[trigger] x[a] != #[trigger] y[b],
    ensures
        (x + y).no_duplicates(),
{
    let all = x + y;
    assert forall|a: int, b: int| 0 <= a < all.len() && 0 <= b < all.len() && a != b implies all[a]
        != all[b] by {
        if a < x.len() && b >= x.len() {
            assert(x[a] != y[b - x.len()]);
        } else if b < x.len() && a >= x.len() {
            assert(x[b] != y[a - x.len()]);
        } else if a < x.len() {
            assert(x[a] != x[b]);
        } else {
            assert(y[a - x.len()] != y[b - x.len()]);
        }
    }
}

/// Evaluation by recursion finds no tree twice, on the chart of a parse.
pub proof fn law_recursion_finds_no_tree_twice<P: Fn(&str) -> bool>(
    chart: Chart,
    g: GrammarModel<P>,
    tokens: Seq<Seq<char>>,
    known: Set<Seq<char>>,
    n: int,
)
    requires
        language::charts(chart, g, tokens),
        g.rules.no_duplicates(),
        0 <= n <= chart.roots.len(),
    ensures
        climb::climb_roots(chart, known, n) matches Ok(trees) ==> trees.no_duplicates(),
    decreases n,
{
    if n > 0 && climb::climb_roots(chart, known, n) is Ok {
        let root = chart.roots[n - 1];
        assert(chart.roots.contains(root));
        law_recursion_finds_no_tree_twice(chart, g, tokens, known, n - 1);
        lemma_climb_distinct(chart, g, tokens, known, root, 0, Seq::empty());
        climb::lemma_climb_all(chart, known, root, 0, Seq::empty());
        let before = climb::climb_roots(chart, known, n - 1)->Ok_0;
        let lists = climb::climb_all(chart, known, root, 0, Seq::empty())->Ok_0;
        let more = lists.map_values(|list: Seq<Tree>| list[0]);
        assert forall|a: int, b: int| 0 <= a < more.len() && 0 <= b < more.len() && a != b implies
            more[a] != more[b] by {
            assert(climb::handed_up(chart, root, lists[a]));
            assert(climb::handed_up(chart, root, lists[b]));
            if more[a] == more[b] {
                assert(lists[a] =~= lists[b]);
            }
        }
        assert forall|a: int, b: int| 0 <= a < before.len() && 0 <= b < more.len() implies
            #[trigger] before[a] != #[trigger] more[b] by {
            laws::law_recursive_trees_are_derivations(chart, known, n - 1, a);
            let r = choose|r: int|
                0 <= r < n - 1 && (before[a] matches Tree::Node { rule, children } && rule
                    == chart.items[#[trigger] chart.roots[r]].rule && derivation::derives(
                    chart,
                    chart.roots[r],
                    children,
                ));
            let other = chart.roots[r];
            assert(climb::handed_up(chart, root, lists[b]));
            if before[a] == more[b] {
                assert(chart.roots.contains(other));
                assert(language::is_root(chart.items[root], g, tokens));
                assert(language::is_root(chart.items[other], g, tokens));
                assert(chart.item_ok(root));
                assert(chart.item_ok(other));
                unambiguous::lemma_same_item(chart.items, root, other);
            }
        }
        lemma_joined_distinct(before, more);
    }
}

/// The trees of a list of outcomes.
pub open spec fn trees_of(list: Seq<Outcome>) -> Seq<Tree> {
    list.map_values(|o: Outcome| o->Ok_0)
}

/// Lists without duplicates that hold the same are the same but for their order.
proof fn lemma_same_multiset(a: Seq<Tree>, b: Seq<Tree>)
    requires
        a.no_duplicates(),
        b.no_duplicates(),
        forall|t: Tree| a.contains(t) <==> b.contains(t),
    ensures
        a.to_multiset() == b.to_multiset(),
{
    a.lemma_multiset_has_no_duplicates();
    b.lemma_multiset_has_no_duplicates();
    lemma_in_multiset(a);
    lemma_in_multiset(b);
    assert forall|t: Tree| a.to_multiset().count(t) == b.to_multiset().count(t) by {
        if a.contains(t) {
            assert(b.contains(t));
            assert(a.to_multiset().contains(t));
            assert(b.to_multiset().contains(t));
        } else {
            assert(!b.contains(t));
            assert(!a.to_multiset().contains(t));
            assert(!b.to_multiset().contains(t));
        }
    }
    assert(a.to_multiset() =~= b.to_multiset());
}

/// A list and its multiset hold the same.
proof fn lemma_in_multiset(a: Seq<Tree>)
    ensures
        forall|t: Tree| a.contains(t) <==> #[trigger] a.to_multiset().contains(t),
{
    broadcast use group_to_multiset_ensures;

    assert forall|t: Tree| a.contains(t) <==> #[trigger] a.to_multiset().contains(t) by {
        assert(a.contains(t) <==> a.to_multiset().count(t) > 0);
    }
}

/// Iteration without priorities and recursion find the same trees, each as often, where neither
/// gives up: on charts of a parse without cycles.
pub proof fn law_iteration_and_recursion_agree<P: Fn(&str) -> bool>(
    setup: Setup,
    g: GrammarModel<P>,
    tokens: Seq<Seq<char>>,
    rank: spec_fn(int) -> nat,
)
    requires
        language::charts(setup.chart, g, tokens),
        g.rules.no_duplicates(),
        setup.priorities == Map::<Seq<char>, i32>::empty(),
        complete::ranked(setup.chart, rank),
        !enumeration::cut_short(setup.outcomes(setup.chart.roots)),
        climb::climb_roots(setup.chart, setup.known, setup.chart.roots.len() as int) is Ok,
    ensures
        trees_of(setup.outcomes(setup.chart.roots)).to_multiset() == climb::climb_roots(
            setup.chart,
            setup.known,
            setup.chart.roots.len() as int,
        )->Ok_0.to_multiset(),
{
    let chart = setup.chart;
    let n = chart.roots.len() as int;
    let list = setup.outcomes(chart.roots);
    let a = trees_of(list);
    let b = climb::climb_roots(chart, setup.known, n)->Ok_0;
    laws::law_no_priorities_no_filter(chart, 0);
    assert(choices::eligible_roots(chart, setup.priorities) == chart.roots);
    distinct::law_no_tree_twice(setup, g, tokens);
    law_recursion_finds_no_tree_twice(chart, g, tokens, setup.known, n);
    assert forall|k: int| 0 <= k < chart.roots.len() implies setup.ready(
        #[trigger] chart.roots[k],
    ) by {}
    setup.lemma_errors_last(chart.roots);
    assert forall|k: int| 0 <= k < list.len() implies #[trigger] list[k] == Ok::<Tree, Fault>(
        a[k],
    ) by {
        if k == list.len() - 1 {
            assert(list.last() is Ok);
        }
    }
    assert forall|x: int, y: int| 0 <= x < a.len() && 0 <= y < a.len() && x != y implies a[x]
        != a[y] by {
        assert(list[x] != list[y]);
    }
    assert forall|t: Tree| a.contains(t) <==> b.contains(t) by {
        complete::law_exactly_the_derivations(setup, chart.roots, t);
        let wanted: Outcome = Ok(t);
        if a.contains(t) {
            let k = a.index_of(t);
            assert(list[k] == wanted);
            let root = choose|root: int| #[trigger]
                chart.roots.contains(root) && (t matches Tree::Node { rule, children } && rule
                    == chart.items[root].rule && complete::derives_eligibly(
                    chart,
                    setup.priorities,
                    root,
                    children,
                ));
            let r = chart.roots.index_of(root);
            assert(chart.roots[r] == root);
            complete::lemma_eligible_derives(chart, setup.priorities, root, t->children);
            complete::law_recursion_finds_every_derivation(
                chart,
                setup.known,
                rank,
                n,
                r,
                t->children,
            );
        }
        if b.contains(t) {
            let k = b.index_of(t);
            laws::law_recursive_trees_are_derivations(chart, setup.known, n, k);
            let r = choose|r: int|
                0 <= r < n && (b[k] matches Tree::Node { rule, children } && rule
                    == chart.items[#[trigger] chart.roots[r]].rule && derivation::derives(
                    chart,
                    chart.roots[r],
                    children,
                ));
            let root = chart.roots[r];
            assert(chart.roots.contains(root));
            complete::lemma_all_eligible(chart, root, t->children);
            assert(complete::derived_from(setup, chart.roots, t));
            let m = list.index_of(wanted);
            assert(a[m] == t);
        }
    }
    lemma_same_multiset(a, b);
}

} // verus!
