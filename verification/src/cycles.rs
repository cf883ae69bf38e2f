//! Charts with cycles: a walk that comes back to where it was is an error.

use vstd::prelude::*;

use crate::choices;
use crate::derivation;
use crate::derivation::{Fault, Tree};
use crate::enumeration;
use crate::enumeration::Setup;
use crate::laws;
use crate::spans::{Chart, Source};
use crate::trees::EarleyForest;

verus! {

/// An eligible back-pointer of item `a` leads to item `b`.
pub open spec fn leads_to(
    chart: Chart,
    priorities: Map<Seq<char>, i32>,
    a: int,
    b: int,
) -> bool {
    exists|k: int|
        #![trigger chart.items[a].sources[k]]
        choices::eligible(chart, priorities, a).contains(k) && match chart.items[a].sources[k] {
            Source::Scan { from, .. } => b == from,
            Source::Completion { from, by } => b == from || b == by,
        }
}

/// Each item of the path leads to the next one.
pub open spec fn is_path(
    chart: Chart,
    priorities: Map<Seq<char>, i32>,
    path: Seq<int>,
) -> bool {
    &&& path.len() > 0
    &&& forall|j: int|
        0 <= j < path.len() - 1 ==> leads_to(chart, priorities, #[trigger] path[j], path[j + 1])
}

/// Eligible back-pointers lead from item `a` to item `b`, in one step or more.
pub open spec fn reaches(
    chart: Chart,
    priorities: Map<Seq<char>, i32>,
    a: int,
    b: int,
) -> bool {
    exists|path: Seq<int>| #[trigger]
        is_path(chart, priorities, path) && path.len() > 1 && path[0] == a && path.last() == b
}

/// A path that ends at a complete item that is being unwound, or that it has passed before, is
/// one that a walk can follow until it gives up.
proof fn lemma_path_gives_up(
    chart: Chart,
    priorities: Map<Seq<char>, i32>,
    known: Set<Seq<char>>,
    path: Seq<int>,
    fuel: nat,
    met: Seq<int>,
    way: Seq<int>,
) -> (pick: spec_fn(int, int) -> int)
    requires
        chart.wf(),
        is_path(chart, priorities, path),
        0 <= path[0] < chart.items.len(),
        chart.items[path.last()].complete(),
        way.contains(path.last()) || path.drop_last().contains(path.last()),
    ensures
        laws::admissible(chart, priorities, pick),
        derivation::unfold(chart, pick, known, path[0], fuel, met, way) is Err,
    decreases path.len(),
{
    let i = path[0];
    let goal = path.last();
    let none = Seq::<choices::Choice>::empty();
    let plain = choices::picker(chart, priorities, none);
    choices::lemma_picker_in_range(chart, priorities, none);
    assert(chart.item_ok(i));
    if fuel == 0 || derivation::circles(chart, way, i) {
        plain
    } else if path.len() == 1 {
        assert(path.drop_last() =~= Seq::<int>::empty());
        plain
    } else {
        let rest = path.drop_first();
        let here = derivation::onward(chart, way, i);
        let t = met.len() as int;
        let left = (fuel - 1) as nat;
        let mid = met.push(i);
        assert(leads_to(chart, priorities, path[0], path[1]));
        let k = choose|k: int|
            #![trigger chart.items[i].sources[k]]
            choices::eligible(chart, priorities, i).contains(k) && match chart.items[i].sources[k] {
                Source::Scan { from, .. } => path[1] == from,
                Source::Completion { from, by } => path[1] == from || path[1] == by,
            };
        laws::law_eligible_means_unbeaten(chart, priorities, i, k);
        assert(chart.source_ok(i, chart.items[i].sources[k]));
        assert(is_path(chart, priorities, rest)) by {
            assert forall|j: int| 0 <= j < rest.len() - 1 implies leads_to(
                chart,
                priorities,
                #[trigger] rest[j],
                rest[j + 1],
            ) by {
                assert(rest[j] == path[j + 1]);
                assert(rest[j + 1] == path[j + 1 + 1]);
            }
        }
        assert(here.contains(goal) || rest.drop_last().contains(goal)) by {
            if way.contains(goal) {
                let j = way.index_of(goal);
                assert(here[j] == goal);
            } else {
                let j = path.drop_last().index_of(goal);
                if j == 0 {
                    assert(here[way.len() as int] == goal);
                } else {
                    assert(rest.drop_last()[j - 1] == goal);
                }
            }
        }
        assert(rest.last() == goal);
        match chart.items[i].sources[k] {
            Source::Scan { from, .. } => {
                let then = lemma_path_gives_up(chart, priorities, known, rest, left, mid, here);
                let pick = laws::joined(i, k, t, then, t + 1, then);
                laws::lemma_joined(chart, priorities, i, k, t, then, t + 1, then);
                derivation::lemma_unfold_same(chart, then, pick, known, from, left, mid, here);
                pick
            },
            Source::Completion { from, by } => {
                if path[1] == by {
                    let then = lemma_path_gives_up(chart, priorities, known, rest, left, mid, here);
                    let pick = laws::joined(i, k, t, then, t + 1, then);
                    laws::lemma_joined(chart, priorities, i, k, t, then, t + 1, then);
                    derivation::lemma_unfold_same(chart, then, pick, known, by, left, mid, here);
                    pick
                } else {
                    match derivation::unfold(chart, plain, known, by, left, mid, here) {
                        Err(_) => {
                            let pick = laws::joined(i, k, t, plain, t + 1, plain);
                            laws::lemma_joined(chart, priorities, i, k, t, plain, t + 1, plain);
                            derivation::lemma_unfold_same(chart, plain, pick, known, by, left, mid, here);
                            pick
                        },
                        Ok(u) => {
                            let m = u.met.len() as int;
                            let then = lemma_path_gives_up(
                                chart,
                                priorities,
                                known,
                                rest,
                                u.fuel,
                                u.met,
                                here,
                            );
                            let pick = laws::joined(i, k, t, plain, m, then);
                            laws::lemma_joined(chart, priorities, i, k, t, plain, m, then);
                            derivation::lemma_unfold(chart, plain, known, by, left, mid, here);
                            derivation::lemma_unfold_met(chart, plain, known, by, left, mid, here);
                            assert(derivation::agree(plain, pick, u.met, mid.len() as int, m));
                            derivation::lemma_unfold_agree(
                                chart,
                                plain,
                                pick,
                                known,
                                by,
                                left,
                                mid,
                                here,
                            );
                            derivation::lemma_unfold_same(
                                chart,
                                then,
                                pick,
                                known,
                                from,
                                u.fuel,
                                u.met,
                                here,
                            );
                            pick
                        },
                    }
                }
            },
        }
    }
}

/// Every rule that the chart completes has an action.
pub open spec fn none_missing(chart: Chart, known: Set<Seq<char>>) -> bool {
    forall|i: int|
        0 <= i < chart.items.len() && (#[trigger] chart.items[i]).complete() ==> known.contains(
            chart.items[i].rule.text(),
        )
}

/// Where no action is missing, a walk that gives up is out of steps.
proof fn lemma_out_of_steps(
    chart: Chart,
    pick: spec_fn(int, int) -> int,
    known: Set<Seq<char>>,
    i: int,
    fuel: nat,
    met: Seq<int>,
    way: Seq<int>,
)
    requires
        chart.wf(),
        derivation::picks_in_range(chart, pick),
        none_missing(chart, known),
        0 <= i < chart.items.len(),
    ensures
        derivation::unfold(chart, pick, known, i, fuel, met, way) matches Err(fault) ==> fault
            == Fault::OutOfSteps,
    decreases fuel,
{
    assert(chart.item_ok(i));
    let item = chart.items[i];
    if fuel > 0 && !derivation::circles(chart, way, i) && item.sources.len() > 0 {
        let here = derivation::onward(chart, way, i);
        let k = pick(met.len() as int, i);
        let left = (fuel - 1) as nat;
        let mid = met.push(i);
        assert(chart.source_ok(i, item.sources[k]));
        match item.sources[k] {
            Source::Scan { from, .. } => {
                lemma_out_of_steps(chart, pick, known, from, left, mid, here);
            },
            Source::Completion { from, by } => {
                lemma_out_of_steps(chart, pick, known, by, left, mid, here);
                derivation::lemma_unfold(chart, pick, known, by, left, mid, here);
                if let Ok(u) = derivation::unfold(chart, pick, known, by, left, mid, here) {
                    assert(chart.items[by].complete());
                    lemma_out_of_steps(chart, pick, known, from, u.fuel, u.met, here);
                }
            },
        }
    }
}

/// Where no action is missing, an enumeration that is cut short is out of steps.
pub proof fn law_only_steps_run_out(setup: Setup, roots: Seq<int>)
    requires
        forall|k: int| 0 <= k < roots.len() ==> setup.ready(#[trigger] roots[k]),
        none_missing(setup.chart, setup.known),
        enumeration::cut_short(setup.outcomes(roots)),
    ensures
        setup.outcomes(roots).last() == Err::<Tree, Fault>(Fault::OutOfSteps),
{
    let chart = setup.chart;
    let all = setup.outcomes(roots);
    let n = all.len() - 1;
    setup.law_outcomes_are_admissible(roots, n);
    let (root, pick) = choose|root: int, pick: spec_fn(int, int) -> int|
        #![trigger setup.tree_by(root, pick)]
        roots.contains(root) && laws::admissible(chart, setup.priorities, pick) && all[n]
            == setup.tree_by(root, pick);
    let m = roots.index_of(root);
    assert(setup.ready(roots[m]));
    laws::lemma_admissible_in_range(chart, setup.priorities, pick);
    lemma_out_of_steps(chart, pick, setup.known, root, setup.limit, Seq::empty(), Seq::empty());
    assert(chart.items[root].complete());
}

/// A cycle is an error: where a root leads by eligible back-pointers to a complete span that
/// leads back to itself, the enumeration is cut short, whatever the cap on steps; and unless an
/// action is missing, it is for want of steps.
pub proof fn law_a_cycle_is_an_error(setup: Setup, roots: Seq<int>, root: int, span: int)
    requires
        forall|k: int| 0 <= k < roots.len() ==> setup.ready(#[trigger] roots[k]),
        roots.contains(root),
        span == root || reaches(setup.chart, setup.priorities, root, span),
        setup.chart.items[span].complete(),
        reaches(setup.chart, setup.priorities, span, span),
    ensures
        enumeration::cut_short(setup.outcomes(roots)),
        none_missing(setup.chart, setup.known) ==> setup.outcomes(roots).last() == Err::<Tree, Fault>(
            Fault::OutOfSteps,
        ),
{
    let chart = setup.chart;
    let priorities = setup.priorities;
    let round = choose|path: Seq<int>| #[trigger]
        is_path(chart, priorities, path) && path.len() > 1 && path[0] == span && path.last()
            == span;
    let down = if span == root {
        seq![root]
    } else {
        choose|path: Seq<int>| #[trigger]
            is_path(chart, priorities, path) && path.len() > 1 && path[0] == root && path.last()
                == span
    };
    let path = down + round.drop_first();
    let d = down.len() - 1;
    assert(is_path(chart, priorities, path)) by {
        assert forall|j: int| 0 <= j < path.len() - 1 implies leads_to(
            chart,
            priorities,
            #[trigger] path[j],
            path[j + 1],
        ) by {
            if j < d {
                assert(path[j] == down[j] && path[j + 1] == down[j + 1]);
            } else {
                assert(path[j] == round[j - d]);
                assert(path[j + 1] == round[j - d + 1]);
            }
        }
    }
    assert(path.last() == span);
    assert(path.drop_last()[d] == span);
    let m = roots.index_of(root);
    assert(setup.ready(roots[m]));
    let none = Seq::<int>::empty();
    let pick = lemma_path_gives_up(
        chart,
        priorities,
        setup.known,
        path,
        setup.limit,
        none,
        none,
    );
    if !enumeration::cut_short(setup.outcomes(roots)) {
        setup.law_nothing_is_left_out(roots, root, pick);
    }
    if none_missing(chart, setup.known) {
        law_only_steps_run_out(setup, roots);
    }
}

impl<ASTNode: Clone, Lift: Fn(&str, &str) -> ASTNode, Action: Fn(Vec<ASTNode>) -> ASTNode> EarleyForest<
    ASTNode,
    Lift,
    Action,
> {
    /// `eval_all` fails on a cycle that an eligible root leads to by eligible back-pointers, and
    /// with the message of a walk that ran out of steps unless an action is missing. `res` is
    /// what it returns.
    pub proof fn law_eval_all_fails_on_a_cycle(
        self,
        chart: Chart,
        root: int,
        span: int,
        res: Result<Vec<ASTNode>, String>,
    )
        requires
            chart.wf(),
            choices::eligible_roots(chart, self.priority_map()).contains(root),
            span == root || reaches(chart, self.priority_map(), root, span),
            chart.items[span].complete(),
            reaches(chart, self.priority_map(), span, span),
            self.collects(self.outcomes(chart), res),
        ensures
            res matches Err(msg) && (none_missing(chart, self.known()) ==> msg@ == self.fault_text(
                Fault::OutOfSteps,
            )),
    {
        choices::lemma_eligible_roots(chart, self.priority_map());
        law_a_cycle_is_an_error(
            self.setup(chart),
            choices::eligible_roots(chart, self.priority_map()),
            root,
            span,
        );
    }
}

} // verus!
