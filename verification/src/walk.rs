//! The state of a walk that keeps its own stack, and what is left of the walk from there.

use vstd::prelude::*;

use crate::derivation;
use crate::derivation::{Fault, Tree};
use crate::spans::{Chart, Source};

verus! {

/// A rule that is being unwound: `item` is where the dot stands, `goal` is the complete item
/// it is unwound from, and `done` holds the subtrees behind the dot, the last one first.
pub struct Frame {
    pub item: int,
    pub goal: int,
    pub done: Seq<Tree>,
}

/// `frames` with `tree` added to the last of them.
pub open spec fn deliver(frames: Seq<Frame>, tree: Tree) -> Seq<Frame> {
    let last = frames.last();
    frames.drop_last().push(Frame { done: last.done.push(tree), ..last })
}

/// The complete items that are being unwound, the last one unless it is yet to be met.
pub open spec fn way_of(chart: Chart, frames: Seq<Frame>) -> Seq<int> {
    let goals = frames.map_values(|f: Frame| f.goal);
    if chart.items[frames.last().item].complete() {
        goals.drop_last()
    } else {
        goals
    }
}

/// What remains of a walk: the last frame is unwound to the start of its rule, which gives
/// one more subtree to the frame below it.
pub open spec fn resume(
    chart: Chart,
    pick: spec_fn(int, int) -> int,
    known: Set<Seq<char>>,
    frames: Seq<Frame>,
    fuel: nat,
    met: Seq<int>,
) -> Result<(Tree, Seq<int>), Fault>
    decreases frames.len(),
{
    let top = frames.last();
    match derivation::unfold(chart, pick, known, top.item, fuel, met, way_of(chart, frames)) {
        Err(fault) => Err(fault),
        Ok(u) => {
            let rule = chart.items[top.item].rule;
            let node = Tree::Node { rule, children: u.trees + top.done.reverse() };
            if !known.contains(rule.text()) {
                Err(Fault::MissingAction { rule })
            } else if frames.len() <= 1 {
                Ok((node, u.met))
            } else {
                resume(
                    chart,
                    pick,
                    known,
                    deliver(frames.drop_last(), node),
                    u.fuel,
                    u.met,
                )
            }
        },
    }
}

/// The subtrees that wait on the frames, from the first frame to the last.
pub open spec fn waiting(frames: Seq<Frame>) -> Seq<Tree>
    decreases frames.len(),
{
    if frames.len() == 0 {
        Seq::empty()
    } else {
        waiting(frames.drop_last()) + frames.last().done
    }
}

/// Whatever accounts for the symbols before the dot, together with `done` accounts for the
/// whole rule.
pub open spec fn leads(chart: Chart, frame: Frame) -> bool {
    forall|trees: Seq<Tree>| #[trigger]
        derivation::derives(chart, frame.item, trees) ==> derivation::derives(
            chart,
            frame.goal,
            trees + frame.done.reverse(),
        )
}

/// The frame stands between the start of a rule and the complete item it is unwound from.
pub open spec fn frame_ok(chart: Chart, frame: Frame) -> bool {
    &&& 0 <= frame.item < chart.items.len()
    &&& 0 <= frame.goal < chart.items.len()
    &&& chart.items[frame.goal].complete()
    &&& chart.items[frame.goal].rule == chart.items[frame.item].rule
    &&& chart.items[frame.item].complete() ==> frame.item == frame.goal
    &&& frame.done.len() + chart.items[frame.item].dot == chart.items[frame.item].rule.spec.len()
    &&& leads(chart, frame)
}

/// A frame for the complete item `i`, with nothing unwound.
pub open spec fn fresh_frame(i: int) -> Frame {
    Frame { item: i, goal: i, done: Seq::empty() }
}

/// A fresh frame is sound.
pub proof fn lemma_fresh_frame(chart: Chart, i: int)
    requires
        chart.wf(),
        0 <= i < chart.items.len(),
        chart.items[i].complete(),
    ensures
        frame_ok(chart, fresh_frame(i)),
{
    assert(chart.item_ok(i));
    let frame = fresh_frame(i);
    assert forall|trees: Seq<Tree>| #[trigger]
        derivation::derives(chart, frame.item, trees) implies derivation::derives(
        chart,
        frame.goal,
        trees + frame.done.reverse(),
    ) by {
        assert(trees + frame.done.reverse() =~= trees);
    }
}

/// Reversing after adding at the end puts the added one first.
pub proof fn lemma_push_reverse<T>(trees: Seq<T>, done: Seq<T>, tree: T)
    ensures
        trees.push(tree) + done.reverse() == trees + done.push(tree).reverse(),
{
    let left = trees.push(tree) + done.reverse();
    let right = trees + done.push(tree).reverse();
    assert(left.len() == right.len());
    assert forall|k: int| 0 <= k < left.len() implies left[k] == right[k] by {
        if k < trees.len() {
        } else if k == trees.len() {
        } else {
            let m = k - trees.len() - 1;
            assert(left[k] == done.reverse()[m]);
            assert(right[k] == done.push(tree).reverse()[m + 1]);
        }
    }
    assert(left =~= right);
}

/// Once the last frame's item is met, all goals are being unwound.
proof fn lemma_onward(chart: Chart, frames: Seq<Frame>)
    requires
        frames.len() > 0,
        frame_ok(chart, frames.last()),
    ensures
        derivation::onward(chart, way_of(chart, frames), frames.last().item) == frames.map_values(
            |f: Frame| f.goal,
        ),
{
    let goals = frames.map_values(|f: Frame| f.goal);
    assert(goals.last() == frames.last().goal);
    assert(goals.drop_last().push(goals.last()) =~= goals);
}

/// Frames with the same goals are on the same way.
proof fn lemma_goals(frames: Seq<Frame>, a: Frame, b: Frame)
    requires
        a.goal == b.goal,
    ensures
        frames.push(a).map_values(|f: Frame| f.goal) == frames.push(b).map_values(
            |f: Frame| f.goal,
        ),
{
    assert(frames.push(a).map_values(|f: Frame| f.goal) =~= frames.push(b).map_values(
        |f: Frame| f.goal,
    ));
}

/// Stepping back over a token.
pub proof fn lemma_step_scan(
    chart: Chart,
    pick: spec_fn(int, int) -> int,
    known: Set<Seq<char>>,
    frames: Seq<Frame>,
    fuel: nat,
    met: Seq<int>,
    from: int,
    token: Seq<char>,
)
    requires
        chart.wf(),
        derivation::picks_in_range(chart, pick),
        frames.len() > 0,
        fuel > 0,
        frame_ok(chart, frames.last()),
        !derivation::circles(chart, way_of(chart, frames), frames.last().item),
        chart.items[frames.last().item].sources.len() > 0,
        chart.items[frames.last().item].sources[pick(
            met.len() as int,
            frames.last().item,
        )] == (Source::Scan {
            from,
            token,
        }),
    ensures
        ({
            let top = frames.last();
            let leaf = Tree::Leaf { symbol: chart.items[from].next_symbol(), token };
            let next = Frame { item: from, goal: top.goal, done: top.done.push(leaf) };
            &&& frame_ok(chart, next)
            &&& !chart.items[from].complete()
            &&& resume(chart, pick, known, frames, fuel, met) == resume(
                chart,
                pick,
                known,
                frames.drop_last().push(next),
                (fuel - 1) as nat,
                met.push(top.item),
            )
        }),
{
    let top = frames.last();
    let i = top.item;
    let k = pick(met.len() as int, i);
    let leaf = Tree::Leaf { symbol: chart.items[from].next_symbol(), token };
    let next = Frame { item: from, goal: top.goal, done: top.done.push(leaf) };
    let frames2 = frames.drop_last().push(next);
    let left = (fuel - 1) as nat;
    let met2 = met.push(i);
    assert(chart.item_ok(i));
    assert(chart.source_ok(i, chart.items[i].sources[k]));
    assert(frames2.drop_last() =~= frames.drop_last());
    assert(frames2.last() == next);
    let here = derivation::onward(chart, way_of(chart, frames), i);
    assert(way_of(chart, frames2) =~= here) by {
        lemma_onward(chart, frames);
        lemma_goals(frames.drop_last(), top, next);
        assert(frames.drop_last().push(top) =~= frames);
    }
    if let Ok(u) = derivation::unfold(chart, pick, known, from, left, met2, here) {
        lemma_push_reverse(u.trees, top.done, leaf);
    }
    assert forall|trees: Seq<Tree>| #[trigger]
        derivation::derives(chart, next.item, trees) implies derivation::derives(
        chart,
        next.goal,
        trees + next.done.reverse(),
    ) by {
        let more = trees.push(leaf);
        assert(more.drop_last() =~= trees);
        derivation::lemma_derives_by(chart, i, k, more);
        assert(derivation::derives(chart, top.item, more));
        lemma_push_reverse(trees, top.done, leaf);
    }
}

/// Stepping back over a completed rule: that rule is unwound first.
pub proof fn lemma_step_completion(
    chart: Chart,
    pick: spec_fn(int, int) -> int,
    known: Set<Seq<char>>,
    frames: Seq<Frame>,
    fuel: nat,
    met: Seq<int>,
    from: int,
    by: int,
)
    requires
        chart.wf(),
        derivation::picks_in_range(chart, pick),
        frames.len() > 0,
        fuel > 0,
        frame_ok(chart, frames.last()),
        !derivation::circles(chart, way_of(chart, frames), frames.last().item),
        chart.items[frames.last().item].sources.len() > 0,
        chart.items[frames.last().item].sources[pick(
            met.len() as int,
            frames.last().item,
        )] == (Source::Completion {
            from,
            by,
        }),
    ensures
        ({
            let top = frames.last();
            let below = Frame { item: from, ..top };
            &&& 0 <= from < chart.items.len()
            &&& 0 <= by < chart.items.len()
            &&& chart.items[by].complete()
            &&& !chart.items[from].complete()
            &&& chart.items[from].rule == chart.items[top.item].rule
            &&& chart.items[from].dot + 1 == chart.items[top.item].dot
            &&& frame_ok(chart, fresh_frame(by))
            &&& resume(chart, pick, known, frames, fuel, met) == resume(
                chart,
                pick,
                known,
                frames.drop_last().push(below).push(fresh_frame(by)),
                (fuel - 1) as nat,
                met.push(top.item),
            )
        }),
{
    let top = frames.last();
    let i = top.item;
    let k = pick(met.len() as int, i);
    let below = Frame { item: from, ..top };
    let frames1 = frames.drop_last().push(below);
    let frames2 = frames1.push(fresh_frame(by));
    let left = (fuel - 1) as nat;
    let met2 = met.push(i);
    assert(chart.item_ok(i));
    assert(chart.source_ok(i, chart.items[i].sources[k]));
    assert(chart.item_ok(by));
    lemma_fresh_frame(chart, by);
    assert(frames2.drop_last() =~= frames1);
    assert(frames2.last() == fresh_frame(by));
    assert(frames1.drop_last() =~= frames.drop_last());
    assert(frames1.last() == below);
    let here = derivation::onward(chart, way_of(chart, frames), i);
    lemma_onward(chart, frames);
    lemma_goals(frames.drop_last(), top, below);
    assert(frames.drop_last().push(top) =~= frames);
    assert(way_of(chart, frames1) == here);
    assert(way_of(chart, frames2) =~= here);
    derivation::lemma_unfold(chart, pick, known, by, left, met2, here);
    if let Ok(u) = derivation::unfold(chart, pick, known, by, left, met2, here) {
        let rule = chart.items[by].rule;
        assert(u.trees + fresh_frame(by).done.reverse() =~= u.trees);
        let node = Tree::Node { rule, children: u.trees };
        let frames3 = deliver(frames1, node);
        assert(frames3.last() == (Frame { done: top.done.push(node), ..below }));
        assert(frames3.drop_last() =~= frames.drop_last());
        assert(known.contains(rule.text()) ==> resume(chart, pick, known, frames2, left, met2)
            == resume(chart, pick, known, frames3, u.fuel, u.met));
        lemma_goals(frames1.drop_last(), below, frames3.last());
        assert(frames1.drop_last().push(below) =~= frames1);
        assert(frames1.drop_last().push(frames3.last()) =~= frames3);
        assert(way_of(chart, frames3) == here);
        if let Ok(w) = derivation::unfold(chart, pick, known, from, u.fuel, u.met, here) {
            lemma_push_reverse(w.trees, top.done, node);
        }
    }
}

/// The frame waits for the tree of the complete item `by`, and is sound once it is there.
pub open spec fn waits(chart: Chart, frame: Frame, by: int) -> bool {
    forall|children: Seq<Tree>| #[trigger]
        derivation::derives(chart, by, children) ==> frame_ok(
            chart,
            Frame {
                done: frame.done.push(Tree::Node { rule: chart.items[by].rule, children }),
                ..frame
            },
        )
}

/// Stepping back over a completed rule leaves a frame that waits for its tree.
pub proof fn lemma_waits(chart: Chart, top: Frame, k: int, from: int, by: int)
    requires
        chart.wf(),
        frame_ok(chart, top),
        0 <= k < chart.items[top.item].sources.len(),
        chart.items[top.item].sources[k] == (Source::Completion { from, by }),
    ensures
        waits(chart, Frame { item: from, ..top }, by),
{
    let i = top.item;
    assert(chart.item_ok(i));
    assert(chart.source_ok(i, chart.items[i].sources[k]));
    assert forall|children: Seq<Tree>| #[trigger]
        derivation::derives(chart, by, children) implies frame_ok(
        chart,
        Frame {
            item: from,
            goal: top.goal,
            done: top.done.push(Tree::Node { rule: chart.items[by].rule, children }),
        },
    ) by {
        let tree = Tree::Node { rule: chart.items[by].rule, children };
        let next = Frame { item: from, goal: top.goal, done: top.done.push(tree) };
        assert forall|trees: Seq<Tree>| #[trigger]
            derivation::derives(chart, next.item, trees) implies derivation::derives(
            chart,
            next.goal,
            trees + next.done.reverse(),
        ) by {
            let more = trees.push(tree);
            assert(more.drop_last() =~= trees);
            assert(more.last() == tree);
            derivation::lemma_derives_by(chart, i, k, more);
            assert(derivation::derives(chart, top.item, more));
            lemma_push_reverse(trees, top.done, tree);
        }
    }
}

} // verus!
