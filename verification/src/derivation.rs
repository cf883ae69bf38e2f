//! Derivation trees, and how following back-pointers through a chart unfolds them.

use vstd::prelude::*;

use crate::grammar::RuleModel;
use crate::spans::{Chart, Source};

verus! {

/// A derivation tree.
pub enum Tree {
    /// The token that was read for a terminal symbol.
    Leaf { symbol: Seq<char>, token: Seq<char> },
    /// A rule, with one subtree for each of its symbols.
    Node { rule: RuleModel, children: Seq<Tree> },
}

impl Tree {
    /// The grammar symbol that the tree stands for.
    pub open spec fn symbol(self) -> Seq<char> {
        match self {
            Tree::Leaf { symbol, .. } => symbol,
            Tree::Node { rule, .. } => rule.head,
        }
    }

    /// The number of spans a walk of the tree visits: one for each place of the dot.
    pub open spec fn steps(self) -> nat
        decreases self,
    {
        match self {
            Tree::Leaf { .. } => 0,
            Tree::Node { children, .. } => 1 + forest_steps(children),
        }
    }

    /// The tokens at the leaves, from left to right.
    pub open spec fn tokens(self) -> Seq<Seq<char>>
        decreases self,
    {
        match self {
            Tree::Leaf { token, .. } => seq![token],
            Tree::Node { children, .. } => forest_tokens(children),
        }
    }
}

/// The number of spans a walk visits for `trees`: one for each of them, and their own.
pub open spec fn forest_steps(trees: Seq<Tree>) -> nat
    decreases trees,
{
    if trees.len() == 0 {
        0
    } else {
        forest_steps(trees.drop_last()) + 1 + trees.last().steps()
    }
}

/// The tokens at the leaves of `trees`, from left to right.
pub open spec fn forest_tokens(trees: Seq<Tree>) -> Seq<Seq<char>>
    decreases trees,
{
    if trees.len() == 0 {
        Seq::empty()
    } else {
        forest_tokens(trees.drop_last()) + trees.last().tokens()
    }
}

/// `trees` are subtrees for the symbols before the dot of item `i`, reached by following
/// back-pointers of the chart.
pub open spec fn derives(chart: Chart, i: int, trees: Seq<Tree>) -> bool
    decreases forest_steps(trees),
{
    if trees.len() == 0 {
        chart.items[i].sources.len() == 0
    } else {
        exists|k: int|
            #![trigger chart.items[i].sources[k]]
            0 <= k < chart.items[i].sources.len() && match chart.items[i].sources[k] {
                Source::Scan { from, token } => {
                    &&& trees.last() == (Tree::Leaf {
                        symbol: chart.items[from].next_symbol(),
                        token,
                    })
                    &&& derives(chart, from, trees.drop_last())
                },
                Source::Completion { from, by } => match trees.last() {
                    Tree::Leaf { .. } => false,
                    Tree::Node { rule, children } => {
                        proof {
                            assert(trees.last().steps() == 1 + forest_steps(children));
                        }
                        &&& rule == chart.items[by].rule
                        &&& derives(chart, by, children)
                        &&& derives(chart, from, trees.drop_last())
                    },
                },
            }
    }
}

/// The back-pointer `src` accounts for `trees`: it gives the last of them and leads to an item
/// that accounts for the others.
pub open spec fn derives_by(chart: Chart, src: Source, trees: Seq<Tree>) -> bool {
    &&& trees.len() > 0
    &&& match src {
        Source::Scan { from, token } => {
            &&& trees.last() == (Tree::Leaf { symbol: chart.items[from].next_symbol(), token })
            &&& derives(chart, from, trees.drop_last())
        },
        Source::Completion { from, by } => match trees.last() {
            Tree::Leaf { .. } => false,
            Tree::Node { rule, children } => {
                &&& rule == chart.items[by].rule
                &&& derives(chart, by, children)
                &&& derives(chart, from, trees.drop_last())
            },
        },
    }
}

/// What a back-pointer of an item accounts for, the item does.
pub proof fn lemma_derives_by(chart: Chart, i: int, k: int, trees: Seq<Tree>)
    requires
        0 <= k < chart.items[i].sources.len(),
        derives_by(chart, chart.items[i].sources[k], trees),
    ensures
        derives(chart, i, trees),
{
}

/// What an item accounts for, one of its back-pointers does.
pub proof fn lemma_derives_source(chart: Chart, i: int, trees: Seq<Tree>) -> (k: int)
    requires
        derives(chart, i, trees),
        trees.len() > 0,
    ensures
        0 <= k < chart.items[i].sources.len(),
        derives_by(chart, chart.items[i].sources[k], trees),
{
    let k = choose|k: int|
        #![trigger chart.items[i].sources[k]]
        0 <= k < chart.items[i].sources.len() && derives_by(
            chart,
            chart.items[i].sources[k],
            trees,
        );
    k
}

/// Why a walk gave up.
pub enum Fault {
    /// The walk visited as many spans as it may, and was not done; or it came back to a complete
    /// span that it was still unwinding, so that it never would be.
    OutOfSteps,
    /// The walk by recursion went as deep as it may, and was not done; `all` where it was
    /// after every tree.
    TooDeep { all: bool },
    /// A rule was completed for which there is no action.
    MissingAction { rule: RuleModel },
}

/// What a walk has found: the subtrees, the steps it may still take, and the spans with
/// back-pointers in the order in which they were met, each as often as it was.
pub struct Unfolded {
    pub trees: Seq<Tree>,
    pub fuel: nat,
    pub met: Seq<int>,
}

/// The complete spans that are being unwound once item `i` is met on the way `way`.
pub open spec fn onward(chart: Chart, way: Seq<int>, i: int) -> Seq<int> {
    if chart.items[i].complete() {
        way.push(i)
    } else {
        way
    }
}

/// Item `i` is complete and is being unwound already: from here the walk would go in circles.
pub open spec fn circles(chart: Chart, way: Seq<int>, i: int) -> bool {
    chart.items[i].complete() && way.contains(i)
}

/// Follows back-pointers from item `i`, from the last symbol to the first. `pick` chooses the
/// back-pointer at each item with any, by how many such items have been met and by the item.
/// Each item met takes one step; `known` holds the rules that have an action, and `way` the
/// complete items that are being unwound, from the root to here.
pub open spec fn unfold(
    chart: Chart,
    pick: spec_fn(int, int) -> int,
    known: Set<Seq<char>>,
    i: int,
    fuel: nat,
    met: Seq<int>,
    way: Seq<int>,
) -> Result<Unfolded, Fault>
    decreases fuel,
{
    let item = chart.items[i];
    if fuel == 0 || circles(chart, way, i) {
        Err(Fault::OutOfSteps)
    } else if item.sources.len() == 0 {
        Ok(Unfolded { trees: Seq::empty(), fuel: (fuel - 1) as nat, met })
    } else {
        let left = (fuel - 1) as nat;
        let here = onward(chart, way, i);
        match item.sources[pick(met.len() as int, i)] {
            Source::Scan { from, token } => match unfold(
                chart,
                pick,
                known,
                from,
                left,
                met.push(i),
                here,
            ) {
                Err(fault) => Err(fault),
                Ok(u) => Ok(
                    Unfolded {
                        trees: u.trees.push(
                            Tree::Leaf { symbol: chart.items[from].next_symbol(), token },
                        ),
                        ..u
                    },
                ),
            },
            Source::Completion { from, by } => match unfold(
                chart,
                pick,
                known,
                by,
                left,
                met.push(i),
                here,
            ) {
                Err(fault) => Err(fault),
                Ok(u) => {
                    let rule = chart.items[by].rule;
                    let rest = if u.fuel < left {
                        u.fuel
                    } else {
                        left
                    };
                    if !known.contains(rule.text()) {
                        Err(Fault::MissingAction { rule })
                    } else {
                        match unfold(chart, pick, known, from, rest, u.met, here) {
                            Err(fault) => Err(fault),
                            Ok(w) => Ok(
                                Unfolded {
                                    trees: w.trees.push(Tree::Node { rule, children: u.trees }),
                                    ..w
                                },
                            ),
                        }
                    }
                },
            },
        }
    }
}

/// The tree of the complete item `root` that `pick` chooses, and the spans met on the way.
pub open spec fn grow(
    chart: Chart,
    pick: spec_fn(int, int) -> int,
    known: Set<Seq<char>>,
    root: int,
    limit: nat,
) -> Result<(Tree, Seq<int>), Fault> {
    match unfold(chart, pick, known, root, limit, Seq::empty(), Seq::empty()) {
        Err(fault) => Err(fault),
        Ok(u) => {
            let rule = chart.items[root].rule;
            if !known.contains(rule.text()) {
                Err(Fault::MissingAction { rule })
            } else {
                Ok((Tree::Node { rule, children: u.trees }, u.met))
            }
        },
    }
}

/// `pick` chooses one of the back-pointers of every item that has any.
pub open spec fn picks_in_range(chart: Chart, pick: spec_fn(int, int) -> int) -> bool {
    forall|t: int, i: int|
        0 <= t && 0 <= i < chart.items.len() && chart.items[i].sources.len() > 0 ==> 0
            <= #[trigger] pick(t, i) < chart.items[i].sources.len()
}

/// A walk takes at least one step, finds one subtree for each symbol before the dot, takes
/// exactly the steps of those subtrees, and the subtrees come from the chart.
pub proof fn lemma_unfold(
    chart: Chart,
    pick: spec_fn(int, int) -> int,
    known: Set<Seq<char>>,
    i: int,
    fuel: nat,
    met: Seq<int>,
    way: Seq<int>,
)
    requires
        chart.wf(),
        picks_in_range(chart, pick),
        0 <= i < chart.items.len(),
    ensures
        unfold(chart, pick, known, i, fuel, met, way) matches Ok(u) ==> {
            &&& u.trees.len() == chart.items[i].dot
            &&& u.fuel + 1 + forest_steps(u.trees) == fuel
            &&& derives(chart, i, u.trees)
            &&& chart.items[i].sources.len() > 0 ==> derives_by(
                chart,
                chart.items[i].sources[pick(met.len() as int, i)],
                u.trees,
            )
        },
    decreases fuel,
{
    assert(chart.item_ok(i));
    let item = chart.items[i];
    if fuel > 0 && !circles(chart, way, i) && item.sources.len() > 0 {
        let here = onward(chart, way, i);
        let k = pick(met.len() as int, i);
        let left = (fuel - 1) as nat;
        assert(chart.source_ok(i, item.sources[k]));
        match item.sources[k] {
            Source::Scan { from, token } => {
                lemma_unfold(chart, pick, known, from, left, met.push(i), here);
                if let Ok(u) = unfold(chart, pick, known, from, left, met.push(i), here) {
                    let leaf = Tree::Leaf { symbol: chart.items[from].next_symbol(), token };
                    let trees = u.trees.push(leaf);
                    assert(trees.drop_last() =~= u.trees);
                    assert(trees.last() == leaf);
                    assert(leaf.steps() == 0);
                    lemma_derives_by(chart, i, k, trees);
                }
            },
            Source::Completion { from, by } => {
                lemma_unfold(chart, pick, known, by, left, met.push(i), here);
                if let Ok(u) = unfold(chart, pick, known, by, left, met.push(i), here) {
                    lemma_unfold(chart, pick, known, from, u.fuel, u.met, here);
                    if let Ok(w) = unfold(chart, pick, known, from, u.fuel, u.met, here) {
                        let node = Tree::Node { rule: chart.items[by].rule, children: u.trees };
                        let trees = w.trees.push(node);
                        assert(trees.drop_last() =~= w.trees);
                        assert(trees.last() == node);
                        assert(node.steps() == 1 + forest_steps(u.trees));
                        lemma_derives_by(chart, i, k, trees);
                    }
                }
            },
        }
    }
}

/// `a` begins with `b`.
pub open spec fn begins(a: Seq<int>, b: Seq<int>) -> bool {
    &&& b.len() <= a.len()
    &&& forall|j: int| 0 <= j < b.len() ==> a[j] == #[trigger] b[j]
}

/// `more` begins with `met`, and what it adds are spans with back-pointers.
pub open spec fn continues(chart: Chart, met: Seq<int>, more: Seq<int>) -> bool {
    &&& begins(more, met)
    &&& forall|j: int|
        met.len() <= j < more.len() ==> 0 <= #[trigger] more[j] < chart.items.len()
            && chart.items[more[j]].sources.len() > 0
}

/// A walk adds each span with back-pointers that it meets, the one it starts at first, and
/// takes at least one step for each.
pub proof fn lemma_unfold_met(
    chart: Chart,
    pick: spec_fn(int, int) -> int,
    known: Set<Seq<char>>,
    i: int,
    fuel: nat,
    met: Seq<int>,
    way: Seq<int>,
)
    requires
        chart.wf(),
        picks_in_range(chart, pick),
        0 <= i < chart.items.len(),
    ensures
        unfold(chart, pick, known, i, fuel, met, way) matches Ok(u) ==> {
            &&& continues(chart, met, u.met)
            &&& chart.items[i].sources.len() > 0 ==> begins(u.met, met.push(i))
            &&& u.met.len() + u.fuel <= met.len() + fuel
        },
    decreases fuel,
{
    assert(chart.item_ok(i));
    let item = chart.items[i];
    if fuel > 0 && !circles(chart, way, i) && item.sources.len() > 0 {
        let here = onward(chart, way, i);
        let k = pick(met.len() as int, i);
        let left = (fuel - 1) as nat;
        let mid = met.push(i);
        assert(chart.source_ok(i, item.sources[k]));
        assert(forall|j: int| 0 <= j < met.len() ==> #[trigger] met[j] == mid[j]);
        match item.sources[k] {
            Source::Scan { from, token } => {
                lemma_unfold_met(chart, pick, known, from, left, mid, here);
                if let Ok(u) = unfold(chart, pick, known, from, left, mid, here) {
                    lemma_continues(chart, met, i, u.met, u.met);
                }
            },
            Source::Completion { from, by } => {
                lemma_unfold_met(chart, pick, known, by, left, mid, here);
                lemma_unfold(chart, pick, known, by, left, mid, here);
                if let Ok(u) = unfold(chart, pick, known, by, left, mid, here) {
                    lemma_unfold_met(chart, pick, known, from, u.fuel, u.met, here);
                    if let Ok(w) = unfold(chart, pick, known, from, u.fuel, u.met, here) {
                        lemma_continues(chart, met, i, u.met, w.met);
                    }
                }
            },
        }
    }
}

proof fn lemma_continues(chart: Chart, met: Seq<int>, i: int, a: Seq<int>, b: Seq<int>)
    requires
        0 <= i < chart.items.len(),
        chart.items[i].sources.len() > 0,
        continues(chart, met.push(i), a),
        continues(chart, a, b) || a == b,
    ensures
        continues(chart, met, b),
        begins(b, met.push(i)),
{
    let mid = met.push(i);
    assert forall|j: int| 0 <= j < mid.len() implies b[j] == #[trigger] mid[j] by {
        assert(a[j] == mid[j]);
    }
    assert forall|j: int| 0 <= j < met.len() implies b[j] == #[trigger] met[j] by {
        assert(mid[j] == met[j]);
    }
    assert forall|j: int| met.len() <= j < b.len() implies 0 <= #[trigger] b[j]
        < chart.items.len() && chart.items[b[j]].sources.len() > 0 by {
        if j == met.len() {
            assert(mid[j] == i);
        } else if j < a.len() {
            assert(b[j] == a[j]);
        }
    }
}

/// The two choose the same at the spans of `met` from the `a`-th to the one before the `b`-th.
pub open spec fn agree(
    pick: spec_fn(int, int) -> int,
    other: spec_fn(int, int) -> int,
    met: Seq<int>,
    a: int,
    b: int,
) -> bool {
    forall|j: int| a <= j < b ==> pick(j, #[trigger] met[j]) == other(j, met[j])
}

/// What a walk finds depends on `pick` only where it was asked.
pub proof fn lemma_unfold_agree(
    chart: Chart,
    pick: spec_fn(int, int) -> int,
    other: spec_fn(int, int) -> int,
    known: Set<Seq<char>>,
    i: int,
    fuel: nat,
    met: Seq<int>,
    way: Seq<int>,
)
    requires
        chart.wf(),
        picks_in_range(chart, pick),
        0 <= i < chart.items.len(),
        unfold(chart, pick, known, i, fuel, met, way) matches Ok(u) && agree(
            pick,
            other,
            u.met,
            met.len() as int,
            u.met.len() as int,
        ),
    ensures
        unfold(chart, other, known, i, fuel, met, way) == unfold(chart, pick, known, i, fuel, met, way),
    decreases fuel,
{
    assert(chart.item_ok(i));
    let item = chart.items[i];
    let found = unfold(chart, pick, known, i, fuel, met, way)->Ok_0;
    if fuel > 0 && !circles(chart, way, i) && item.sources.len() > 0 {
        let here = onward(chart, way, i);
        let t = met.len() as int;
        let k = pick(t, i);
        let left = (fuel - 1) as nat;
        let mid = met.push(i);
        lemma_unfold_met(chart, pick, known, i, fuel, met, way);
        assert(found.met[t] == mid[t]);
        assert(chart.source_ok(i, item.sources[k]));
        match item.sources[k] {
            Source::Scan { from, token } => {
                lemma_unfold_agree(chart, pick, other, known, from, left, mid, here);
            },
            Source::Completion { from, by } => {
                lemma_unfold_met(chart, pick, known, by, left, mid, here);
                lemma_unfold(chart, pick, known, by, left, mid, here);
                let u = unfold(chart, pick, known, by, left, mid, here)->Ok_0;
                lemma_unfold_met(chart, pick, known, from, u.fuel, u.met, here);
                assert forall|j: int| mid.len() <= j < u.met.len() implies pick(
                    j,
                    #[trigger] u.met[j],
                ) == other(j, u.met[j]) by {
                    assert(found.met[j] == u.met[j]);
                }
                lemma_unfold_agree(chart, pick, other, known, by, left, mid, here);
                lemma_unfold_agree(chart, pick, other, known, from, u.fuel, u.met, here);
            },
        }
    }
}

/// Walks that choose the same from now on, at the items with back-pointers, go the same way.
pub proof fn lemma_unfold_same(
    chart: Chart,
    pick: spec_fn(int, int) -> int,
    other: spec_fn(int, int) -> int,
    known: Set<Seq<char>>,
    i: int,
    fuel: nat,
    met: Seq<int>,
    way: Seq<int>,
)
    requires
        chart.wf(),
        picks_in_range(chart, pick),
        0 <= i < chart.items.len(),
        forall|s: int, x: int|
            met.len() <= s && 0 <= x < chart.items.len() && chart.items[x].sources.len() > 0
                ==> #[trigger] pick(s, x) == other(s, x),
    ensures
        unfold(chart, pick, known, i, fuel, met, way) == unfold(
            chart,
            other,
            known,
            i,
            fuel,
            met,
            way,
        ),
    decreases fuel,
{
    assert(chart.item_ok(i));
    let item = chart.items[i];
    if fuel > 0 && !circles(chart, way, i) && item.sources.len() > 0 {
        let here = onward(chart, way, i);
        let k = pick(met.len() as int, i);
        let left = (fuel - 1) as nat;
        let mid = met.push(i);
        assert(chart.source_ok(i, item.sources[k]));
        match item.sources[k] {
            Source::Scan { from, .. } => {
                lemma_unfold_same(chart, pick, other, known, from, left, mid, here);
            },
            Source::Completion { from, by } => {
                lemma_unfold_same(chart, pick, other, known, by, left, mid, here);
                lemma_unfold(chart, pick, known, by, left, mid, here);
                lemma_unfold_met(chart, pick, known, by, left, mid, here);
                if let Ok(u) = unfold(chart, pick, known, by, left, mid, here) {
                    lemma_unfold_same(chart, pick, other, known, from, u.fuel, u.met, here);
                }
            },
        }
    }
}

/// A walk that may take more steps finds what one with fewer found.
pub proof fn lemma_more_fuel(
    chart: Chart,
    pick: spec_fn(int, int) -> int,
    known: Set<Seq<char>>,
    i: int,
    fuel: nat,
    more: nat,
    met: Seq<int>,
    way: Seq<int>,
)
    requires
        chart.wf(),
        picks_in_range(chart, pick),
        0 <= i < chart.items.len(),
    ensures
        unfold(chart, pick, known, i, fuel, met, way) matches Ok(u) ==> (unfold(
            chart,
            pick,
            known,
            i,
            fuel + more,
            met,
            way,
        ) matches Ok(w) && w.trees == u.trees && w.met == u.met && w.fuel == u.fuel + more),
    decreases fuel,
{
    assert(chart.item_ok(i));
    let item = chart.items[i];
    if fuel > 0 && !circles(chart, way, i) && item.sources.len() > 0 {
        let here = onward(chart, way, i);
        let left = (fuel - 1) as nat;
        let k = pick(met.len() as int, i);
        assert(chart.source_ok(i, item.sources[k]));
        let mid = met.push(i);
        assert((fuel + more - 1) as nat == left + more);
        match item.sources[k] {
            Source::Scan { from, .. } => {
                lemma_more_fuel(chart, pick, known, from, left, more, mid, here);
            },
            Source::Completion { from, by } => {
                lemma_more_fuel(chart, pick, known, by, left, more, mid, here);
                lemma_unfold(chart, pick, known, by, left, mid, here);
                lemma_unfold(chart, pick, known, by, left + more, mid, here);
                if let Ok(u) = unfold(chart, pick, known, by, left, mid, here) {
                    lemma_more_fuel(chart, pick, known, from, u.fuel, more, u.met, here);
                }
            },
        }
    }
}

/// Two walks that choose the same at the first spans that one of them meets, up to the `q`-th,
/// meet the same spans up to the `q`-th and with it.
pub proof fn lemma_same_beginning(
    chart: Chart,
    pick: spec_fn(int, int) -> int,
    other: spec_fn(int, int) -> int,
    known: Set<Seq<char>>,
    i: int,
    fuel: nat,
    rest: nat,
    met: Seq<int>,
    way: Seq<int>,
    q: int,
)
    requires
        chart.wf(),
        picks_in_range(chart, pick),
        picks_in_range(chart, other),
        0 <= i < chart.items.len(),
        unfold(chart, pick, known, i, fuel, met, way) is Ok,
        unfold(chart, other, known, i, rest, met, way) is Ok,
        met.len() <= q < unfold(chart, pick, known, i, fuel, met, way)->Ok_0.met.len(),
        agree(
            pick,
            other,
            unfold(chart, pick, known, i, fuel, met, way)->Ok_0.met,
            met.len() as int,
            q,
        ),
    ensures
        begins(
            unfold(chart, other, known, i, rest, met, way)->Ok_0.met,
            unfold(chart, pick, known, i, fuel, met, way)->Ok_0.met.take(q + 1),
        ),
    decreases fuel,
{
    let item = chart.items[i];
    assert(chart.item_ok(i));
    let a = unfold(chart, pick, known, i, fuel, met, way)->Ok_0;
    let b = unfold(chart, other, known, i, rest, met, way)->Ok_0;
    lemma_unfold_met(chart, pick, known, i, fuel, met, way);
    lemma_unfold_met(chart, other, known, i, rest, met, way);
    let t = met.len() as int;
    let mid = met.push(i);
    assert(item.sources.len() > 0);
    assert forall|j: int| 0 <= j < mid.len() implies a.met[j] == b.met[j] by {
        assert(a.met[j] == mid[j]);
        assert(b.met[j] == mid[j]);
    }
    if q > t {
        let left = (fuel - 1) as nat;
        let here = onward(chart, way, i);
        let less = (rest - 1) as nat;
        assert(chart.source_ok(i, item.sources[pick(t, i)]));
        assert(a.met[t] == mid[t]);
        assert(pick(t, a.met[t]) == other(t, a.met[t]));
        match item.sources[pick(t, i)] {
            Source::Scan { from, .. } => {
                lemma_same_beginning(chart, pick, other, known, from, left, less, mid, here, q);
            },
            Source::Completion { from, by } => {
                let u = unfold(chart, pick, known, by, left, mid, here)->Ok_0;
                let v = unfold(chart, other, known, by, less, mid, here)->Ok_0;
                lemma_unfold(chart, pick, known, by, left, mid, here);
                lemma_unfold(chart, other, known, by, less, mid, here);
                lemma_unfold_met(chart, pick, known, by, left, mid, here);
                lemma_unfold_met(chart, pick, known, from, u.fuel, u.met, here);
                lemma_unfold_met(chart, other, known, from, v.fuel, v.met, here);
                assert forall|j: int| 0 <= j < u.met.len() implies #[trigger] u.met[j]
                    == a.met[j] by {}
                if q < u.met.len() {
                    assert(agree(pick, other, u.met, mid.len() as int, q)) by {
                        assert forall|j: int| mid.len() <= j < q implies pick(
                            j,
                            #[trigger] u.met[j],
                        ) == other(j, u.met[j]) by {
                            assert(a.met[j] == u.met[j]);
                        }
                    }
                    lemma_same_beginning(chart, pick, other, known, by, left, less, mid, here, q);
                    let some = a.met.take(q + 1);
                    assert forall|j: int| 0 <= j < some.len() implies b.met[j]
                        == #[trigger] some[j] by {
                        assert(u.met.take(q + 1)[j] == u.met[j]);
                        assert(v.met[j] == u.met.take(q + 1)[j]);
                        assert(b.met[j] == v.met[j]);
                    }
                } else {
                    assert forall|j: int| mid.len() <= j < u.met.len() implies pick(
                        j,
                        #[trigger] u.met[j],
                    ) == other(j, u.met[j]) by {
                        assert(a.met[j] == u.met[j]);
                    }
                    lemma_unfold_agree(chart, pick, other, known, by, left, mid, here);
                    if left <= less {
                        lemma_more_fuel(
                            chart,
                            other,
                            known,
                            by,
                            left,
                            (less - left) as nat,
                            mid,
                            here,
                        );
                    } else {
                        lemma_more_fuel(
                            chart,
                            other,
                            known,
                            by,
                            less,
                            (left - less) as nat,
                            mid,
                            here,
                        );
                    }
                    assert(v.met == u.met);
                    lemma_same_beginning(
                        chart,
                        pick,
                        other,
                        known,
                        from,
                        u.fuel,
                        v.fuel,
                        u.met,
                        here,
                        q,
                    );
                }
            },
        }
    }
}

} // verus!
