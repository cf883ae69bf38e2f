//! The order in which the trees of a chart are enumerated.

use vstd::arithmetic::power::*;
use vstd::prelude::*;
use vstd::set_lib::*;

use crate::choices;
use crate::choices::Choice;
use crate::derivation;
use crate::derivation::{Fault, Tree};
use crate::spans::Chart;

verus! {

/// What an enumeration of trees depends on.
pub struct Setup {
    pub chart: Chart,
    pub priorities: Map<Seq<char>, i32>,
    pub known: Set<Seq<char>>,
    pub limit: nat,
}

/// What comes of one tree.
pub type Outcome = Result<Tree, Fault>;

/// Distinct numbers below `n` are at most `n`.
pub proof fn lemma_pigeonhole(list: Seq<int>, n: int)
    requires
        list.no_duplicates(),
        0 <= n,
        forall|k: int| 0 <= k < list.len() ==> 0 <= #[trigger] list[k] < n,
    ensures
        list.len() <= n,
{
    list.unique_seq_to_set();
    lemma_int_range(0, n);
    assert(list.to_set().subset_of(set_int_range(0, n)));
    lemma_len_subset(list.to_set(), set_int_range(0, n));
}

impl Setup {
    /// The chart is sound and `root` is one of its complete items.
    pub open spec fn ready(self, root: int) -> bool {
        &&& self.chart.wf()
        &&& 0 <= root < self.chart.items.len()
        &&& self.chart.items[root].complete()
    }

    /// The choices are sound for the chart, and no more than a walk can ask for.
    pub open spec fn choices_ok(self, choices: Seq<Choice>) -> bool {
        &&& choices::choices_ok(self.chart, self.priorities, choices)
        &&& choices.len() <= self.limit
    }

    /// The tree of `root` under `choices`, and the spans met.
    pub open spec fn tree_under(self, root: int, choices: Seq<Choice>) -> Result<
        (Tree, Seq<int>),
        Fault,
    > {
        derivation::grow(
            self.chart,
            choices::picker(self.chart, self.priorities, choices),
            self.known,
            root,
            self.limit,
        )
    }

    /// The choices stand at the spans that the walk under them meets first, in that order.
    pub open spec fn in_order(self, root: int, choices: Seq<Choice>) -> bool {
        self.tree_under(root, choices) matches Ok(found) ==> derivation::begins(
            found.1,
            choices::spans_of(choices),
        )
    }

    /// The choices that stand once the tree of `root` under `choices` has been walked.
    pub open spec fn after(self, choices: Seq<Choice>, met: Seq<int>) -> Seq<Choice> {
        choices::extended(self.chart, self.priorities, choices, met)
    }

    /// The largest number of back-pointers among the first `n` items.
    pub open spec fn width(self, n: int) -> nat
        decreases n,
    {
        if n <= 0 {
            0
        } else {
            let rest = self.width(n - 1);
            let here = self.chart.items[n - 1].sources.len();
            if here > rest {
                here
            } else {
                rest
            }
        }
    }

    /// One more than any number that a choice counts to.
    pub open spec fn base(self) -> int {
        self.width(self.chart.items.len() as int) as int + 1
    }

    /// The weight of a choice at place `k`.
    pub open spec fn place(self, k: int) -> int {
        pow(self.base(), (self.limit - k) as nat)
    }

    /// The choices read as a number, the first choice being the most significant digit.
    pub open spec fn rank(self, choices: Seq<Choice>) -> int
        decreases choices.len(),
    {
        if choices.len() == 0 {
            0
        } else {
            self.rank(choices.drop_last()) + (choices.last().pos + 1) * self.place(
                choices.len() as int,
            )
        }
    }

    /// How far the choices are from the last ones.
    pub open spec fn distance(self, choices: Seq<Choice>) -> nat {
        (self.place(0) - self.rank(choices)) as nat
    }

    proof fn lemma_width(self, n: int, i: int)
        requires
            0 <= i < n <= self.chart.items.len(),
        ensures
            self.chart.items[i].sources.len() <= self.width(n),
        decreases n,
    {
        if i < n - 1 {
            self.lemma_width(n - 1, i);
        }
    }

    proof fn lemma_place(self, k: int)
        requires
            0 <= k < self.limit,
        ensures
            self.place(k) == self.base() * self.place(k + 1),
            self.place(k + 1) > 0,
    {
        reveal(pow);
        lemma_pow_positive(self.base(), (self.limit - (k + 1)) as nat);
    }

    /// What can still come behind the choices stays within the step of the last one.
    proof fn lemma_rank_bound(self, choices: Seq<Choice>)
        requires
            self.choices_ok(choices),
        ensures
            self.rank(choices) + self.place(choices.len() as int) <= self.place(0),
            choices.len() > 0 ==> self.rank(choices) + self.place(choices.len() as int)
                <= self.rank(choices.drop_last()) + self.place(choices.len() - 1),
            self.place(choices.len() as int) > 0,
        decreases choices.len(),
    {
        if choices.len() == 0 {
            lemma_pow_positive(self.base(), self.limit);
        } else {
            let n = choices.len() as int;
            let last = choices.last();
            let rest = choices.drop_last();
            assert(choices[n - 1] == last);
            choices::lemma_fewer_ok(self.chart, self.priorities, choices);
            self.lemma_rank_bound(rest);
            self.lemma_place(n - 1);
            self.lemma_width(self.chart.items.len() as int, last.span);
            choices::lemma_best_positions(
                choices::source_scores(self.chart, self.priorities, last.span),
            );
            self.lemma_eligible_len(last.span);
            let p = self.place(n);
            let b = self.base();
            let d = last.pos;
            assert(d + 2 <= b);
            assert((d + 1) * p + p <= b * p) by (nonlinear_arith)
                requires
                    d + 2 <= b,
                    p > 0,
            ;
        }
    }

    /// No more back-pointers are eligible than there are.
    pub proof fn lemma_eligible_len(self, i: int)
        ensures
            choices::eligible(self.chart, self.priorities, i).len()
                <= self.chart.items[i].sources.len(),
    {
        let scores = choices::source_scores(self.chart, self.priorities, i);
        let kept = choices::best_positions(scores);
        choices::lemma_best_positions(scores);
        assert(kept.no_duplicates()) by {
            assert forall|a: int, b: int| 0 <= a < kept.len() && 0 <= b < kept.len() && a
                != b implies kept[a] != kept[b] by {
                if a < b {
                    assert(kept[a] < kept[b]);
                } else {
                    assert(kept[b] < kept[a]);
                }
            }
        }
        lemma_pigeonhole(kept, scores.len() as int);
    }

    /// Moving on raises the rank.
    pub proof fn lemma_advanced_rank(self, choices: Seq<Choice>)
        requires
            self.choices_ok(choices),
        ensures
            choices::advanced(choices) matches Some(next) ==> self.rank(next) >= self.rank(choices)
                + self.place(choices.len() as int) && self.place(choices.len() as int) > 0,
        decreases choices.len(),
    {
        self.lemma_rank_bound(choices);
        if choices.len() > 0 {
            let last = choices.last();
            let rest = choices.drop_last();
            let n = choices.len() as int;
            if last.pos + 1 < last.eligible.len() {
                let next = rest.push(Choice { pos: last.pos + 1, ..last });
                assert(next.drop_last() =~= rest);
                let p = self.place(n);
                let d = last.pos;
                assert((d + 2) * p == (d + 1) * p + p) by (nonlinear_arith);
                assert(self.rank(next) == self.rank(rest) + (d + 2) * p);
            } else {
                choices::lemma_fewer_ok(self.chart, self.priorities, choices);
                self.lemma_advanced_rank(rest);
            }
        }
    }

    /// Choices behind others do not lower the rank.
    proof fn lemma_longer_rank(self, choices: Seq<Choice>, more: Seq<Choice>)
        requires
            choices.len() <= more.len(),
            self.choices_ok(more),
            forall|k: int| 0 <= k < choices.len() ==> #[trigger] choices[k] == more[k],
        ensures
            self.rank(more) >= self.rank(choices),
        decreases more.len(),
    {
        if more.len() == choices.len() {
            assert(more =~= choices);
        } else {
            choices::lemma_fewer_ok(self.chart, self.priorities, more);
            self.lemma_longer_rank(choices, more.drop_last());
            lemma_pow_positive(self.base(), (self.limit - more.len()) as nat);
            assert(choices::choice_ok(self.chart, self.priorities, more[more.len() - 1]));
            let p = self.place(more.len() as int);
            let d = more.last().pos;
            assert((d + 1) * p >= 0) by (nonlinear_arith)
                requires
                    d >= 0,
                    p > 0,
            ;
        }
    }

    /// What the walk for one tree finds, and the choices that stand after it.
    pub proof fn lemma_tree_under(self, root: int, choices: Seq<Choice>)
        requires
            self.ready(root),
            self.choices_ok(choices),
        ensures
            self.tree_under(root, choices) matches Ok(found) ==> {
                &&& derivation::continues(self.chart, Seq::empty(), found.1)
                &&& found.1.len() <= self.limit
                &&& self.choices_ok(self.after(choices, found.1))
                &&& choices::spans_of(self.after(choices, found.1)) == found.1
                &&& derivation::agree(
                    choices::picker(self.chart, self.priorities, choices),
                    choices::picker(self.chart, self.priorities, self.after(choices, found.1)),
                    found.1,
                    0,
                    found.1.len() as int,
                )
                &&& found.0 matches Tree::Node { rule, children } && rule
                    == self.chart.items[root].rule && derivation::derives(
                    self.chart,
                    root,
                    children,
                )
                &&& found.0.steps() <= self.limit
            },
    {
        let pick = choices::picker(self.chart, self.priorities, choices);
        let none = Seq::<int>::empty();
        choices::lemma_picker_in_range(self.chart, self.priorities, choices);
        derivation::lemma_unfold_met(self.chart, pick, self.known, root, self.limit, none, Seq::empty());
        derivation::lemma_unfold(self.chart, pick, self.known, root, self.limit, none, Seq::empty());
        if let Ok(found) = self.tree_under(root, choices) {
            choices::lemma_extended(self.chart, self.priorities, choices, found.1);
        }
    }

    /// Choices that stand in order are the first ones after the walk.
    pub proof fn lemma_kept(self, root: int, choices: Seq<Choice>, k: int)
        requires
            self.ready(root),
            self.choices_ok(choices),
            self.in_order(root, choices),
            self.tree_under(root, choices) is Ok,
            0 <= k < choices.len(),
        ensures
            choices.len() <= self.tree_under(root, choices)->Ok_0.1.len(),
            self.after(choices, self.tree_under(root, choices)->Ok_0.1)[k] == choices[k],
    {
        let found = self.tree_under(root, choices)->Ok_0;
        assert(choices::spans_of(choices)[k] == choices[k].span);
    }

    /// The choices that come next stand in order too.
    pub proof fn lemma_next_in_order(self, root: int, choices: Seq<Choice>, next: Seq<Choice>)
        requires
            self.ready(root),
            self.choices_ok(choices),
            self.choices_ok(next),
            self.tree_under(root, choices) is Ok,
            choices::advanced(self.after(choices, self.tree_under(root, choices)->Ok_0.1)) == Some(
                next,
            ),
        ensures
            self.in_order(root, next),
    {
        let chart = self.chart;
        let found = self.tree_under(root, choices)->Ok_0;
        let trail = self.after(choices, found.1);
        self.lemma_tree_under(root, choices);
        let q = choices::lemma_advanced_at(trail);
        if let Ok(then) = self.tree_under(root, next) {
            let mine = choices::picker(chart, self.priorities, choices);
            let theirs = choices::picker(chart, self.priorities, next);
            choices::lemma_picker_in_range(chart, self.priorities, choices);
            choices::lemma_picker_in_range(chart, self.priorities, next);
            assert forall|m: int| 0 <= m < q implies mine(m, #[trigger] found.1[m]) == theirs(
                m,
                found.1[m],
            ) by {
                assert(choices::spans_of(trail)[m] == trail[m].span);
                assert(next[m] == trail[m]);
            }
            derivation::lemma_same_beginning(
                chart,
                mine,
                theirs,
                self.known,
                root,
                self.limit,
                self.limit,
                Seq::empty(),
                Seq::empty(),
                q,
            );
            let some = found.1.take(q + 1);
            let spans = choices::spans_of(next);
            assert forall|m: int| 0 <= m < spans.len() implies then.1[m] == #[trigger] spans[m] by {
                assert(then.1[m] == some[m]);
                assert(choices::spans_of(trail)[m] == trail[m].span);
                if m < q {
                    assert(next[m] == trail[m]);
                }
            }
        }
    }

    /// Moving on from the choices after a walk comes closer to the last ones.
    pub proof fn lemma_progress(self, root: int, choices: Seq<Choice>)
        requires
            self.ready(root),
            self.choices_ok(choices),
            self.in_order(root, choices),
        ensures
            self.tree_under(root, choices) matches Ok(found) ==> (choices::advanced(
                self.after(choices, found.1),
            ) matches Some(next) ==> self.choices_ok(next) && self.in_order(root, next)
                && self.distance(next) < self.distance(choices)),
    {
        self.lemma_tree_under(root, choices);
        if let Ok(found) = self.tree_under(root, choices) {
            let after = self.after(choices, found.1);
            assert forall|k: int| 0 <= k < choices.len() implies #[trigger] choices[k]
                == after[k] by {
                self.lemma_kept(root, choices, k);
            }
            self.lemma_longer_rank(choices, after);
            choices::lemma_advanced_ok(self.chart, self.priorities, after);
            self.lemma_advanced_rank(after);
            if let Some(next) = choices::advanced(after) {
                self.lemma_rank_bound(next);
                self.lemma_next_in_order(root, choices, next);
            }
        }
    }

    /// No choices stand in order.
    pub proof fn lemma_none_in_order(self, root: int)
        ensures
            self.choices_ok(Seq::empty()),
            self.in_order(root, Seq::empty()),
    {
        assert(choices::spans_of(Seq::empty()) =~= Seq::<int>::empty());
    }

    /// What comes of `root`, from `choices` on: one tree for each setting of the choices, in
    /// order, up to the first walk that gives up.
    pub open spec fn outcomes_from(self, root: int, choices: Seq<Choice>) -> Seq<Outcome>
        decreases self.distance(choices),
        when self.ready(root) && self.choices_ok(choices) && self.in_order(root, choices)
        via Self::outcomes_from_decreases
    {
        match self.tree_under(root, choices) {
            Err(fault) => seq![Err(fault)],
            Ok(found) => match choices::advanced(self.after(choices, found.1)) {
                None => seq![Ok(found.0)],
                Some(next) => seq![Ok(found.0)] + self.outcomes_from(root, next),
            },
        }
    }

    #[via_fn]
    proof fn outcomes_from_decreases(self, root: int, choices: Seq<Choice>) {
        self.lemma_progress(root, choices);
    }
}

/// The list ends in a walk that gave up.
pub open spec fn cut_short(list: Seq<Outcome>) -> bool {
    list.len() > 0 && list.last() is Err
}

/// `first`, and unless it was cut short, `second` behind it.
pub open spec fn followed_by(first: Seq<Outcome>, second: Seq<Outcome>) -> Seq<Outcome> {
    if cut_short(first) {
        first
    } else {
        first + second
    }
}

/// Taking the first of the trees away leaves what follows.
pub proof fn lemma_followed_by(tree: Tree, rest: Seq<Outcome>, later: Seq<Outcome>)
    ensures
        ({
            let first = seq![Ok::<Tree, Fault>(tree)] + rest;
            &&& followed_by(first, later).len() > 0
            &&& followed_by(first, later)[0] == Ok::<Tree, Fault>(tree)
            &&& followed_by(first, later).drop_first() == followed_by(rest, later)
        }),
{
    let first = seq![Ok::<Tree, Fault>(tree)] + rest;
    if rest.len() > 0 {
        assert(first.last() == rest.last());
    }
    assert(first.drop_first() =~= rest);
    assert((first + later).drop_first() =~= rest + later);
}

impl Setup {
    /// What comes of `roots`, one after the other, up to the first walk that gives up.
    pub open spec fn outcomes(self, roots: Seq<int>) -> Seq<Outcome>
        decreases roots.len(),
    {
        if roots.len() == 0 {
            Seq::empty()
        } else {
            followed_by(
                self.outcomes_from(roots[0], Seq::empty()),
                self.outcomes(roots.drop_first()),
            )
        }
    }
}

impl Setup {
    /// A walk that gives up is the last one for its root.
    pub proof fn lemma_errors_last_from(self, root: int, choices: Seq<Choice>)
        requires
            self.ready(root),
            self.choices_ok(choices),
            self.in_order(root, choices),
        ensures
            self.outcomes_from(root, choices).len() > 0,
            forall|k: int|
                0 <= k < self.outcomes_from(root, choices).len() - 1 ==> (
                #[trigger] self.outcomes_from(root, choices)[k]) is Ok,
        decreases self.distance(choices),
    {
        self.lemma_progress(root, choices);
        if let Ok(found) = self.tree_under(root, choices) {
            if let Some(next) = choices::advanced(self.after(choices, found.1)) {
                self.lemma_errors_last_from(root, next);
                let rest = self.outcomes_from(root, next);
                let all = self.outcomes_from(root, choices);
                assert forall|k: int| 0 <= k < all.len() - 1 implies (#[trigger] all[k]) is Ok by {
                    if k > 0 {
                        assert(all[k] == rest[k - 1]);
                    }
                }
            }
        }
    }

    /// An enumeration ends with the first walk that gives up, and each root has at least one
    /// outcome.
    pub proof fn lemma_errors_last(self, roots: Seq<int>)
        requires
            forall|k: int| 0 <= k < roots.len() ==> self.ready(#[trigger] roots[k]),
        ensures
            roots.len() > 0 ==> self.outcomes(roots).len() > 0,
            forall|k: int|
                0 <= k < self.outcomes(roots).len() - 1 ==> (#[trigger] self.outcomes(roots)[k]) is Ok,
        decreases roots.len(),
    {
        if roots.len() > 0 {
            self.lemma_errors_last(roots.drop_first());
            assert(self.ready(roots[0]));
            self.lemma_none_in_order(roots[0]);
            self.lemma_errors_last_from(roots[0], Seq::empty());
            let first = self.outcomes_from(roots[0], Seq::empty());
            let second = self.outcomes(roots.drop_first());
            let all = self.outcomes(roots);
            assert forall|k: int| 0 <= k < all.len() - 1 implies (#[trigger] all[k]) is Ok by {
                if k >= first.len() {
                    assert(all[k] == second[k - first.len()]);
                } else {
                    assert(all[k] == first[k]);
                }
            }
        }
    }
}

} // verus!
