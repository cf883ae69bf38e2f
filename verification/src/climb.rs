//! Walks that follow the chart by recursion, to a fixed depth.

use vstd::prelude::*;

use crate::derivation;
use crate::derivation::{Fault, Tree};
use crate::spans::{Chart, Source};

verus! {

/// How deep a walk by recursion may go.
pub const MAX_WALKER_RECURSION: u16 = 100;

/// The subtrees of item `i`, made into one tree where the item is complete.
pub open spec fn wrapped(chart: Chart, i: int, trees: Seq<Tree>) -> Seq<Tree> {
    if chart.items[i].complete() {
        seq![Tree::Node { rule: chart.items[i].rule, children: trees }]
    } else {
        trees
    }
}

/// The lists of subtrees for item `i`, reduced by its rule where the item is complete.
pub open spec fn reduced(
    chart: Chart,
    known: Set<Seq<char>>,
    i: int,
    lists: Seq<Seq<Tree>>,
) -> Result<Seq<Seq<Tree>>, Fault> {
    let rule = chart.items[i].rule;
    if lists.len() > 0 && chart.items[i].complete() && !known.contains(rule.text()) {
        Err(Fault::MissingAction { rule })
    } else {
        Ok(lists.map_values(|trees: Seq<Tree>| wrapped(chart, i, trees)))
    }
}

/// The subtrees before the dot of item `i` by way of the first back-pointer at each item; one
/// tree where the item is complete.
pub open spec fn climb(
    chart: Chart,
    known: Set<Seq<char>>,
    i: int,
    level: int,
) -> Result<Seq<Tree>, Fault>
    decreases MAX_WALKER_RECURSION - level,
{
    if level >= MAX_WALKER_RECURSION {
        Err(Fault::TooDeep { all: false })
    } else {
        let item = chart.items[i];
        let before: Result<Seq<Tree>, Fault> = if item.sources.len() == 0 {
            Ok(Seq::empty())
        } else {
            match item.sources[0] {
                Source::Completion { from, by } => match climb(chart, known, from, level + 1) {
                    Err(fault) => Err(fault),
                    Ok(left) => match climb(chart, known, by, level + 1) {
                        Err(fault) => Err(fault),
                        Ok(right) => Ok(left + right),
                    },
                },
                Source::Scan { from, token } => match climb(chart, known, from, level + 1) {
                    Err(fault) => Err(fault),
                    Ok(left) => Ok(
                        left.push(Tree::Leaf { symbol: chart.items[from].next_symbol(), token }),
                    ),
                },
            }
        };
        match before {
            Err(fault) => Err(fault),
            Ok(trees) => if item.complete() && !known.contains(item.rule.text()) {
                Err(Fault::MissingAction { rule: item.rule })
            } else {
                Ok(wrapped(chart, i, trees))
            },
        }
    }
}

/// `trees` is what a walk hands up from item `i`: the subtrees before the dot, or the one
/// tree of a complete item.
pub open spec fn handed_up(chart: Chart, i: int, trees: Seq<Tree>) -> bool {
    if chart.items[i].complete() {
        &&& trees.len() == 1
        &&& trees[0] matches Tree::Node { rule, children } && rule == chart.items[i].rule
            && derivation::derives(chart, i, children)
    } else {
        derivation::derives(chart, i, trees)
    }
}

/// What is handed up to both sides of a back-pointer accounts for the item it belongs to.
pub proof fn lemma_join(chart: Chart, i: int, k: int, left: Seq<Tree>, right: Seq<Tree>)
    requires
        chart.wf(),
        0 <= i < chart.items.len(),
        0 <= k < chart.items[i].sources.len(),
        chart.items[i].sources[k] matches Source::Completion { from, by } && handed_up(
            chart,
            from,
            left,
        ) && handed_up(chart, by, right),
    ensures
        derivation::derives(chart, i, left + right),
        right.len() == 1,
{
    assert(chart.item_ok(i));
    assert(chart.source_ok(i, chart.items[i].sources[k]));
    let trees = left + right;
    assert(trees.last() == right[0]);
    assert(trees.drop_last() =~= left);
    derivation::lemma_derives_by(chart, i, k, trees);
}

/// What is handed up to a token accounts for the item behind it.
pub proof fn lemma_join_token(chart: Chart, i: int, k: int, left: Seq<Tree>)
    requires
        chart.wf(),
        0 <= i < chart.items.len(),
        0 <= k < chart.items[i].sources.len(),
        chart.items[i].sources[k] matches Source::Scan { from, .. } && handed_up(chart, from, left),
    ensures
        chart.items[i].sources[k] matches Source::Scan { from, token } && derivation::derives(
            chart,
            i,
            left.push(Tree::Leaf { symbol: chart.items[from].next_symbol(), token }),
        ) && !chart.items[from].complete(),
{
    assert(chart.item_ok(i));
    assert(chart.source_ok(i, chart.items[i].sources[k]));
    if let Source::Scan { from, token } = chart.items[i].sources[k] {
        let trees = left.push(Tree::Leaf { symbol: chart.items[from].next_symbol(), token });
        assert(trees.drop_last() =~= left);
        derivation::lemma_derives_by(chart, i, k, trees);
    }
}

/// What a walk hands up comes from the chart.
pub proof fn lemma_climb(chart: Chart, known: Set<Seq<char>>, i: int, level: int)
    requires
        chart.wf(),
        0 <= i < chart.items.len(),
    ensures
        climb(chart, known, i, level) matches Ok(trees) ==> handed_up(chart, i, trees),
    decreases MAX_WALKER_RECURSION - level,
{
    let item = chart.items[i];
    assert(chart.item_ok(i));
    if level < MAX_WALKER_RECURSION {
        if item.sources.len() > 0 {
            assert(chart.source_ok(i, item.sources[0]));
            match item.sources[0] {
                Source::Completion { from, by } => {
                    lemma_climb(chart, known, from, level + 1);
                    lemma_climb(chart, known, by, level + 1);
                    if let Ok(left) = climb(chart, known, from, level + 1) {
                        if let Ok(right) = climb(chart, known, by, level + 1) {
                            lemma_join(chart, i, 0, left, right);
                        }
                    }
                },
                Source::Scan { from, token } => {
                    lemma_climb(chart, known, from, level + 1);
                    if let Ok(left) = climb(chart, known, from, level + 1) {
                        lemma_join_token(chart, i, 0, left);
                    }
                },
            }
        } else {
            assert(derivation::derives(chart, i, Seq::<Tree>::empty()));
        }
    }
}

/// Every list of `lefts` with every list of `rights` behind it.
pub open spec fn products(lefts: Seq<Seq<Tree>>, rights: Seq<Seq<Tree>>) -> Seq<Seq<Tree>>
    decreases lefts.len(),
{
    if lefts.len() == 0 {
        Seq::empty()
    } else {
        products(lefts.drop_last(), rights) + rights.map_values(
            |right: Seq<Tree>| lefts.last() + right,
        )
    }
}

/// All that a walk can hand up from item `i`: by way of every back-pointer that has not been
/// taken on the way here.
pub open spec fn climb_all(
    chart: Chart,
    known: Set<Seq<char>>,
    i: int,
    level: int,
    explored: Seq<Source>,
) -> Result<Seq<Seq<Tree>>, Fault>
    decreases MAX_WALKER_RECURSION - level, chart.items[i].sources.len() + 2,
{
    if level >= MAX_WALKER_RECURSION {
        Err(Fault::TooDeep { all: true })
    } else if chart.items[i].sources.len() == 0 {
        reduced(chart, known, i, seq![Seq::<Tree>::empty()])
    } else {
        climb_from(chart, known, i, level, explored, 0)
    }
}

/// What [`climb_all`] finds from the `k`-th back-pointer on.
pub open spec fn climb_from(
    chart: Chart,
    known: Set<Seq<char>>,
    i: int,
    level: int,
    explored: Seq<Source>,
    k: int,
) -> Result<Seq<Seq<Tree>>, Fault>
    decreases MAX_WALKER_RECURSION - level, chart.items[i].sources.len() - k + 1,
{
    let sources = chart.items[i].sources;
    if level >= MAX_WALKER_RECURSION || k < 0 || k >= sources.len() {
        Ok(Seq::empty())
    } else if explored.contains(sources[k]) {
        climb_from(chart, known, i, level, explored, k + 1)
    } else {
        let taken = explored.push(sources[k]);
        match climb_here(chart, known, i, level, taken, k) {
            Err(fault) => Err(fault),
            Ok(lists) => match climb_from(chart, known, i, level, taken, k + 1) {
                Err(fault) => Err(fault),
                Ok(more) => Ok(lists + more),
            },
        }
    }
}

/// What [`climb_all`] finds by way of the `k`-th back-pointer.
pub open spec fn climb_here(
    chart: Chart,
    known: Set<Seq<char>>,
    i: int,
    level: int,
    taken: Seq<Source>,
    k: int,
) -> Result<Seq<Seq<Tree>>, Fault>
    decreases MAX_WALKER_RECURSION - level, 0int,
{
    if level >= MAX_WALKER_RECURSION {
        Ok(Seq::empty())
    } else {
        match chart.items[i].sources[k] {
            Source::Completion { from, by } => match climb_all(
                chart,
                known,
                from,
                level + 1,
                taken,
            ) {
                Err(fault) => Err(fault),
                Ok(lefts) => if lefts.len() == 0 {
                    Ok(Seq::empty())
                } else {
                    match climb_all(chart, known, by, level + 1, taken) {
                        Err(fault) => Err(fault),
                        Ok(rights) => reduced(chart, known, i, products(lefts, rights)),
                    }
                },
            },
            Source::Scan { from, token } => match climb_all(chart, known, from, level + 1, taken) {
                Err(fault) => Err(fault),
                Ok(lefts) => reduced(
                    chart,
                    known,
                    i,
                    lefts.map_values(
                        |left: Seq<Tree>|
                            left.push(
                                Tree::Leaf { symbol: chart.items[from].next_symbol(), token },
                            ),
                    ),
                ),
            },
        }
    }
}

/// Every list is one that a walk can hand up from item `i`.
pub open spec fn all_handed_up(chart: Chart, i: int, lists: Seq<Seq<Tree>>) -> bool {
    forall|k: int| 0 <= k < lists.len() ==> handed_up(chart, i, #[trigger] lists[k])
}

/// A product is made of one list of each side.
pub proof fn lemma_products(lefts: Seq<Seq<Tree>>, rights: Seq<Seq<Tree>>, k: int)
    requires
        0 <= k < products(lefts, rights).len(),
    ensures
        exists|a: int, b: int|
            #![trigger lefts[a], rights[b]]
            0 <= a < lefts.len() && 0 <= b < rights.len() && products(lefts, rights)[k] == lefts[a]
                + rights[b],
    decreases lefts.len(),
{
    let fewer = products(lefts.drop_last(), rights);
    if k < fewer.len() {
        lemma_products(lefts.drop_last(), rights, k);
        let (a, b) = choose|a: int, b: int|
            #![trigger lefts.drop_last()[a], rights[b]]
            0 <= a < lefts.drop_last().len() && 0 <= b < rights.len() && fewer[k]
                == lefts.drop_last()[a] + rights[b];
        assert(lefts.drop_last()[a] == lefts[a]);
        assert(products(lefts, rights)[k] == lefts[a] + rights[b]);
    } else {
        let a = lefts.len() - 1;
        let b = k - fewer.len();
        assert(products(lefts, rights)[k] == lefts[a] + rights[b]);
    }
}

/// The products of one more list.
pub proof fn lemma_products_step(lefts: Seq<Seq<Tree>>, rights: Seq<Seq<Tree>>, a: int)
    requires
        0 <= a < lefts.len(),
    ensures
        products(lefts.take(a + 1), rights) == products(lefts.take(a), rights) + rights.map_values(
            |right: Seq<Tree>| lefts[a] + right,
        ),
{
    let more = lefts.take(a + 1);
    assert(more.drop_last() =~= lefts.take(a));
    assert(more.last() == lefts[a]);
    assert(rights.map_values(|right: Seq<Tree>| more.last() + right) =~= rights.map_values(
        |right: Seq<Tree>| lefts[a] + right,
    ));
}

/// More lists have at least the products of fewer.
pub proof fn lemma_products_grow(lefts: Seq<Seq<Tree>>, rights: Seq<Seq<Tree>>, a: int)
    requires
        0 <= a <= lefts.len(),
    ensures
        products(lefts.take(a), rights).len() <= products(lefts, rights).len(),
    decreases lefts.len() - a,
{
    if a < lefts.len() {
        lemma_products_step(lefts, rights, a);
        lemma_products_grow(lefts, rights, a + 1);
    } else {
        assert(lefts.take(a) =~= lefts);
    }
}

/// Lists that account for item `i`, reduced, are handed up.
proof fn lemma_reduced(chart: Chart, known: Set<Seq<char>>, i: int, lists: Seq<Seq<Tree>>)
    requires
        forall|k: int| 0 <= k < lists.len() ==> derivation::derives(chart, i, #[trigger] lists[k]),
    ensures
        reduced(chart, known, i, lists) matches Ok(out) ==> all_handed_up(chart, i, out),
{
    if let Ok(out) = reduced(chart, known, i, lists) {
        assert forall|k: int| 0 <= k < out.len() implies handed_up(chart, i, #[trigger] out[k]) by {
            assert(derivation::derives(chart, i, lists[k]));
        }
    }
}

/// All that a walk hands up comes from the chart.
pub proof fn lemma_climb_all(
    chart: Chart,
    known: Set<Seq<char>>,
    i: int,
    level: int,
    explored: Seq<Source>,
)
    requires
        chart.wf(),
        0 <= i < chart.items.len(),
    ensures
        climb_all(chart, known, i, level, explored) matches Ok(lists) ==> all_handed_up(
            chart,
            i,
            lists,
        ),
    decreases MAX_WALKER_RECURSION - level, chart.items[i].sources.len() + 2,
{
    assert(chart.item_ok(i));
    if level < MAX_WALKER_RECURSION {
        if chart.items[i].sources.len() == 0 {
            let lists = seq![Seq::<Tree>::empty()];
            assert(derivation::derives(chart, i, lists[0]));
            lemma_reduced(chart, known, i, lists);
        } else {
            lemma_climb_from(chart, known, i, level, explored, 0);
        }
    }
}

/// What is found from the `k`-th back-pointer on comes from the chart.
pub proof fn lemma_climb_from(
    chart: Chart,
    known: Set<Seq<char>>,
    i: int,
    level: int,
    explored: Seq<Source>,
    k: int,
)
    requires
        chart.wf(),
        0 <= i < chart.items.len(),
    ensures
        climb_from(chart, known, i, level, explored, k) matches Ok(lists) ==> all_handed_up(
            chart,
            i,
            lists,
        ),
    decreases MAX_WALKER_RECURSION - level, chart.items[i].sources.len() - k + 1,
{
    let sources = chart.items[i].sources;
    assert(chart.item_ok(i));
    if level >= MAX_WALKER_RECURSION || k < 0 || k >= sources.len() {
    } else if explored.contains(sources[k]) {
        lemma_climb_from(chart, known, i, level, explored, k + 1);
    } else {
        assert(chart.source_ok(i, sources[k]));
        let taken = explored.push(sources[k]);
        lemma_climb_from(chart, known, i, level, taken, k + 1);
        match sources[k] {
            Source::Completion { from, by } => {
                lemma_climb_all(chart, known, from, level + 1, taken);
                lemma_climb_all(chart, known, by, level + 1, taken);
                if let Ok(lefts) = climb_all(chart, known, from, level + 1, taken) {
                    if let Ok(rights) = climb_all(chart, known, by, level + 1, taken) {
                        let lists = products(lefts, rights);
                        assert forall|n: int| 0 <= n < lists.len() implies derivation::derives(
                            chart,
                            i,
                            #[trigger] lists[n],
                        ) by {
                            lemma_products(lefts, rights, n);
                            let (a, b) = choose|a: int, b: int|
                                #![trigger lefts[a], rights[b]]
                                0 <= a < lefts.len() && 0 <= b < rights.len() && lists[n]
                                    == lefts[a] + rights[b];
                            lemma_join(chart, i, k, lefts[a], rights[b]);
                        }
                        lemma_reduced(chart, known, i, lists);
                    }
                }
            },
            Source::Scan { from, token } => {
                lemma_climb_all(chart, known, from, level + 1, taken);
                if let Ok(lefts) = climb_all(chart, known, from, level + 1, taken) {
                    let leaf = Tree::Leaf { symbol: chart.items[from].next_symbol(), token };
                    let lists = lefts.map_values(
                        |left: Seq<Tree>|
                            left.push(
                                Tree::Leaf { symbol: chart.items[from].next_symbol(), token },
                            ),
                    );
                    assert forall|n: int| 0 <= n < lists.len() implies derivation::derives(
                        chart,
                        i,
                        #[trigger] lists[n],
                    ) by {
                        assert(handed_up(chart, from, lefts[n]));
                        lemma_join_token(chart, i, k, lefts[n]);
                    }
                    lemma_reduced(chart, known, i, lists);
                }
            },
        }
        let here = climb_here(chart, known, i, level, taken, k);
        assert(here matches Ok(lists) ==> all_handed_up(chart, i, lists));
        if let Ok(lists) = here {
            if let Ok(more) = climb_from(chart, known, i, level, taken, k + 1) {
                assert(climb_from(chart, known, i, level, explored, k) == Ok::<
                    Seq<Seq<Tree>>,
                    Fault,
                >(lists + more));
            }
        }
    }
}

/// Every tree of the first `n` roots that [`climb_all`] finds, root by root.
pub open spec fn climb_roots(chart: Chart, known: Set<Seq<char>>, n: int) -> Result<
    Seq<Tree>,
    Fault,
>
    decreases n,
{
    if n <= 0 {
        Ok(Seq::empty())
    } else {
        match climb_roots(chart, known, n - 1) {
            Err(fault) => Err(fault),
            Ok(before) => match climb_all(chart, known, chart.roots[n - 1], 0, Seq::empty()) {
                Err(fault) => Err(fault),
                Ok(lists) => Ok(before + lists.map_values(|list: Seq<Tree>| list[0])),
            },
        }
    }
}

/// Where a root goes wrong, so do all that come with it.
pub proof fn lemma_roots_step(chart: Chart, known: Set<Seq<char>>, r: int, n: int)
    requires
        0 <= r < n,
    ensures
        climb_roots(chart, known, r) is Ok && (climb_all(
            chart,
            known,
            chart.roots[r],
            0,
            Seq::empty(),
        ) matches Err(fault)) ==> climb_roots(chart, known, n) == Err::<Seq<Tree>, Fault>(
            climb_all(chart, known, chart.roots[r], 0, Seq::empty())->Err_0,
        ),
    decreases n,
{
    if r + 1 < n {
        lemma_roots_step(chart, known, r, n - 1);
    }
}

/// A walk by recursion never runs out of steps.
proof fn lemma_fault(
    chart: Chart,
    known: Set<Seq<char>>,
    i: int,
    level: int,
    explored: Seq<Source>,
)
    ensures
        climb_all(chart, known, i, level, explored) matches Err(fault) ==> fault !is OutOfSteps,
    decreases MAX_WALKER_RECURSION - level, chart.items[i].sources.len() + 2,
{
    if level < MAX_WALKER_RECURSION && chart.items[i].sources.len() > 0 {
        lemma_fault_from(chart, known, i, level, explored, 0);
    }
}

proof fn lemma_fault_from(
    chart: Chart,
    known: Set<Seq<char>>,
    i: int,
    level: int,
    explored: Seq<Source>,
    k: int,
)
    ensures
        climb_from(chart, known, i, level, explored, k) matches Err(fault) ==> fault
            !is OutOfSteps,
    decreases MAX_WALKER_RECURSION - level, chart.items[i].sources.len() - k + 1,
{
    let sources = chart.items[i].sources;
    if level >= MAX_WALKER_RECURSION || k < 0 || k >= sources.len() {
    } else if explored.contains(sources[k]) {
        lemma_fault_from(chart, known, i, level, explored, k + 1);
    } else {
        let taken = explored.push(sources[k]);
        lemma_fault_from(chart, known, i, level, taken, k + 1);
        match sources[k] {
            Source::Scan { from, .. } => {
                lemma_fault(chart, known, from, level + 1, taken);
            },
            Source::Completion { from, by } => {
                lemma_fault(chart, known, from, level + 1, taken);
                lemma_fault(chart, known, by, level + 1, taken);
            },
        }
        let here = climb_here(chart, known, i, level, taken, k);
        assert(here matches Err(fault) ==> fault !is OutOfSteps);
        let more = climb_from(chart, known, i, level, taken, k + 1);
        assert(more matches Err(fault) ==> fault !is OutOfSteps);
    }
}

/// Evaluation by recursion never reports that it ran out of steps.
pub proof fn lemma_roots_fault(chart: Chart, known: Set<Seq<char>>, n: int)
    ensures
        climb_roots(chart, known, n) matches Err(fault) ==> fault !is OutOfSteps,
    decreases n,
{
    if n > 0 {
        lemma_roots_fault(chart, known, n - 1);
        lemma_fault(chart, known, chart.roots[n - 1], 0, Seq::empty());
    }
}

} // verus!
