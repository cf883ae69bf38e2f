//! What holds of every enumeration.

use vstd::prelude::*;

use crate::choices;
use crate::choices::Choice;
use crate::climb;
use crate::derivation;
use crate::derivation::{Fault, Tree};
use crate::enumeration;
use crate::enumeration::{Outcome, Setup};
use crate::spans::{Chart, Source};

verus! {

/// `pick` chooses an eligible back-pointer at every item that has any, whenever it is met.
pub open spec fn admissible(
    chart: Chart,
    priorities: Map<Seq<char>, i32>,
    pick: spec_fn(int, int) -> int,
) -> bool {
    forall|t: int, i: int|
        0 <= t && 0 <= i < chart.items.len() && chart.items[i].sources.len() > 0
            ==> choices::eligible(chart, priorities, i).contains(#[trigger] pick(t, i))
}

/// An admissible choice is one of the back-pointers.
pub proof fn lemma_admissible_in_range(
    chart: Chart,
    priorities: Map<Seq<char>, i32>,
    pick: spec_fn(int, int) -> int,
)
    requires
        admissible(chart, priorities, pick),
    ensures
        derivation::picks_in_range(chart, pick),
{
    assert forall|t: int, i: int|
        0 <= t && 0 <= i < chart.items.len() && chart.items[i].sources.len() > 0 implies 0
        <= #[trigger] pick(t, i) < chart.items[i].sources.len() by {
        let scores = choices::source_scores(chart, priorities, i);
        choices::lemma_best_positions(scores);
        let kept = choices::eligible(chart, priorities, i);
        let j = kept.index_of(pick(t, i));
        assert(kept[j] == pick(t, i));
    }
}

/// `k` at item `i` as the `t`-th, `first` up to the `m`-th, and `then` from there on.
pub open spec fn joined(
    i: int,
    k: int,
    t: int,
    first: spec_fn(int, int) -> int,
    m: int,
    then: spec_fn(int, int) -> int,
) -> spec_fn(int, int) -> int {
    |s: int, x: int|
        if s == t && x == i {
            k
        } else if s < m {
            first(s, x)
        } else {
            then(s, x)
        }
}

/// What is joined of admissible choices is admissible.
pub proof fn lemma_joined(
    chart: Chart,
    priorities: Map<Seq<char>, i32>,
    i: int,
    k: int,
    t: int,
    first: spec_fn(int, int) -> int,
    m: int,
    then: spec_fn(int, int) -> int,
)
    requires
        admissible(chart, priorities, first),
        admissible(chart, priorities, then),
        choices::eligible(chart, priorities, i).contains(k),
    ensures
        admissible(chart, priorities, joined(i, k, t, first, m, then)),
        derivation::picks_in_range(chart, first),
        derivation::picks_in_range(chart, then),
        derivation::picks_in_range(chart, joined(i, k, t, first, m, then)),
{
    let pick = joined(i, k, t, first, m, then);
    assert forall|s: int, x: int|
        0 <= s && 0 <= x < chart.items.len() && chart.items[x].sources.len()
            > 0 implies choices::eligible(chart, priorities, x).contains(#[trigger] pick(s, x)) by {
        assert(choices::eligible(chart, priorities, x).contains(first(s, x)));
        assert(choices::eligible(chart, priorities, x).contains(then(s, x)));
    }
    lemma_admissible_in_range(chart, priorities, first);
    lemma_admissible_in_range(chart, priorities, then);
    lemma_admissible_in_range(chart, priorities, pick);
}

impl Setup {
    /// The tree that `pick` chooses for `root`, unless the walk gives up.
    pub open spec fn tree_by(self, root: int, pick: spec_fn(int, int) -> int) -> Outcome {
        match derivation::grow(self.chart, pick, self.known, root, self.limit) {
            Ok(found) => Ok(found.0),
            Err(fault) => Err(fault),
        }
    }

    /// The choices pick admissibly.
    pub proof fn lemma_picker_admissible(self, choices: Seq<Choice>)
        requires
            self.choices_ok(choices),
        ensures
            admissible(
                self.chart,
                self.priorities,
                choices::picker(self.chart, self.priorities, choices),
            ),
    {
        choices::lemma_picker_in_range(self.chart, self.priorities, choices);
    }

    /// Each outcome for `root` comes of an admissible choice of back-pointers.
    pub proof fn lemma_sound_from(self, root: int, choices: Seq<Choice>, n: int)
        requires
            self.ready(root),
            self.choices_ok(choices),
            self.in_order(root, choices),
            0 <= n < self.outcomes_from(root, choices).len(),
        ensures
            exists|pick: spec_fn(int, int) -> int|
                #[trigger] admissible(self.chart, self.priorities, pick)
                    && self.outcomes_from(root, choices)[n] == self.tree_by(root, pick),
        decreases self.distance(choices),
    {
        let pick = choices::picker(self.chart, self.priorities, choices);
        self.lemma_picker_admissible(choices);
        self.lemma_progress(root, choices);
        let all = self.outcomes_from(root, choices);
        if n == 0 {
            assert(all[0] == self.tree_by(root, pick));
        } else if let Ok(found) = self.tree_under(root, choices) {
            if let Some(next) = choices::advanced(self.after(choices, found.1)) {
                let rest = self.outcomes_from(root, next);
                assert(all[n] == rest[n - 1]);
                self.lemma_sound_from(root, next, n - 1);
            }
        }
    }

    /// Every outcome of an enumeration comes of one of the roots by an admissible choice of
    /// back-pointers: whenever a span is met, one that no competing back-pointer beats in priority.
    pub proof fn law_outcomes_are_admissible(self, roots: Seq<int>, n: int)
        requires
            forall|k: int| 0 <= k < roots.len() ==> self.ready(#[trigger] roots[k]),
            0 <= n < self.outcomes(roots).len(),
        ensures
            exists|root: int, pick: spec_fn(int, int) -> int|
                #![trigger self.tree_by(root, pick)]
                roots.contains(root) && admissible(self.chart, self.priorities, pick)
                    && self.outcomes(roots)[n] == self.tree_by(root, pick),
        decreases roots.len(),
    {
        if roots.len() > 0 {
            let root = roots[0];
            assert(self.ready(root));
            let first = self.outcomes_from(root, Seq::empty());
            if n < first.len() {
                self.lemma_none_in_order(root);
                self.lemma_sound_from(root, Seq::empty(), n);
                let pick = choose|pick: spec_fn(int, int) -> int|
                    #[trigger] admissible(self.chart, self.priorities, pick) && first[n]
                        == self.tree_by(root, pick);
                assert(roots.contains(root));
                assert(self.outcomes(roots)[n] == self.tree_by(root, pick));
            } else {
                let others = roots.drop_first();
                let m = n - first.len();
                self.law_outcomes_are_admissible(others, m);
                let (other, pick) = choose|root: int, pick: spec_fn(int, int) -> int|
                    #![trigger self.tree_by(root, pick)]
                    others.contains(root) && admissible(self.chart, self.priorities, pick)
                        && self.outcomes(others)[m] == self.tree_by(root, pick);
                let j = others.index_of(other);
                assert(others[j] == roots[j + 1]);
                assert(roots.contains(other));
                assert(self.outcomes(roots)[n] == self.tree_by(other, pick));
            }
        }
    }

    /// The outcome that `pick` gives for `root` is a derivation tree of the chart, within the
    /// limit, or the walk gave up.
    pub proof fn law_trees_are_derivations(self, root: int, pick: spec_fn(int, int) -> int)
        requires
            self.ready(root),
            admissible(self.chart, self.priorities, pick),
        ensures
            self.tree_by(root, pick) matches Ok(tree) ==> {
                &&& tree matches Tree::Node { rule, children } && rule
                    == self.chart.items[root].rule && derivation::derives(
                    self.chart,
                    root,
                    children,
                )
                &&& tree.steps() <= self.limit
            },
    {
        lemma_admissible_in_range(self.chart, self.priorities, pick);
        derivation::lemma_unfold(
            self.chart,
            pick,
            self.known,
            root,
            self.limit,
            Seq::empty(),
            Seq::empty(),
        );
    }
}

/// Which of the eligible back-pointers `pick` chooses where `c` stands in the `t`-th place.
pub open spec fn place_of(c: Choice, t: int, pick: spec_fn(int, int) -> int) -> int {
    c.eligible.index_of(pick(t, c.span))
}

/// `pick` chooses as the first `n` of `choices` do.
pub open spec fn agrees(choices: Seq<Choice>, pick: spec_fn(int, int) -> int, n: int) -> bool {
    forall|j: int| 0 <= j < n ==> place_of(#[trigger] choices[j], j, pick) == choices[j].pos
}

/// `pick` leaves `choices` for a later back-pointer in the `j`-th place.
pub open spec fn leaves_at(
    choices: Seq<Choice>,
    pick: spec_fn(int, int) -> int,
    j: int,
) -> bool {
    &&& 0 <= j < choices.len()
    &&& agrees(choices, pick, j)
    &&& place_of(choices[j], j, pick) > choices[j].pos
}

/// `pick` is yet to come: it chooses as `choices` do, or leaves them for a later back-pointer.
pub open spec fn to_come(choices: Seq<Choice>, pick: spec_fn(int, int) -> int) -> bool {
    agrees(choices, pick, choices.len() as int) || exists|j: int| #[trigger]
        leaves_at(choices, pick, j)
}

/// What is yet to come after some choices is yet to come after the next ones.
pub proof fn lemma_to_come_next(choices: Seq<Choice>, pick: spec_fn(int, int) -> int, j: int)
    requires
        leaves_at(choices, pick, j),
        place_of(choices[j], j, pick) < choices[j].eligible.len(),
    ensures
        choices::advanced(choices) matches Some(next) && to_come(next, pick),
    decreases choices.len(),
{
    let last = choices.last();
    let rest = choices.drop_last();
    if last.pos + 1 < last.eligible.len() {
        let next = rest.push(Choice { pos: last.pos + 1, ..last });
        assert forall|m: int| 0 <= m < j implies place_of(#[trigger] next[m], m, pick)
            == next[m].pos by {
            assert(next[m] == choices[m]);
        }
        assert(agrees(next, pick, j));
        if j < rest.len() {
            assert(next[j] == choices[j]);
            assert(leaves_at(next, pick, j));
        } else {
            assert(choices[j] == last);
            assert(place_of(next[j], j, pick) == place_of(last, j, pick));
            if place_of(last, j, pick) == last.pos + 1 {
                assert(agrees(next, pick, next.len() as int));
            } else {
                assert(leaves_at(next, pick, j));
            }
        }
    } else {
        assert(j < rest.len());
        assert(rest[j] == choices[j]);
        assert forall|m: int| 0 <= m < j implies place_of(#[trigger] rest[m], m, pick)
            == rest[m].pos by {
            assert(rest[m] == choices[m]);
        }
        lemma_to_come_next(rest, pick, j);
    }
}

/// The first place, from the `n`-th on, where `pick` does not choose as `choices` do.
spec fn first_apart(choices: Seq<Choice>, pick: spec_fn(int, int) -> int, n: int) -> int
    decreases choices.len() - n,
{
    if n >= choices.len() || place_of(choices[n], n, pick) != choices[n].pos {
        n
    } else {
        first_apart(choices, pick, n + 1)
    }
}

proof fn lemma_first_apart(choices: Seq<Choice>, pick: spec_fn(int, int) -> int, n: int)
    requires
        0 <= n <= choices.len(),
        agrees(choices, pick, n),
        !agrees(choices, pick, choices.len() as int),
    ensures
        ({
            let j = first_apart(choices, pick, n);
            &&& 0 <= j < choices.len()
            &&& agrees(choices, pick, j)
            &&& place_of(choices[j], j, pick) != choices[j].pos
        }),
    decreases choices.len() - n,
{
    if n < choices.len() && place_of(choices[n], n, pick) == choices[n].pos {
        assert(agrees(choices, pick, n + 1));
        lemma_first_apart(choices, pick, n + 1);
    }
}

impl Setup {
    /// Where `pick` is yet to come, the choices after the walk are its own, or it leaves them.
    pub proof fn lemma_here_or_later(
        self,
        root: int,
        choices: Seq<Choice>,
        pick: spec_fn(int, int) -> int,
    ) -> (j: int)
        requires
            self.ready(root),
            self.choices_ok(choices),
            self.in_order(root, choices),
            admissible(self.chart, self.priorities, pick),
            to_come(choices, pick),
            self.tree_under(root, choices) is Ok,
        ensures
            ({
                let found = self.tree_under(root, choices)->Ok_0;
                let after = self.after(choices, found.1);
                if agrees(after, pick, after.len() as int) {
                    derivation::grow(self.chart, pick, self.known, root, self.limit) == Ok::<
                        (Tree, Seq<int>),
                        Fault,
                    >(found)
                } else {
                    leaves_at(after, pick, j) && place_of(after[j], j, pick)
                        < after[j].eligible.len()
                }
            }),
    {
        let chart = self.chart;
        let mine = choices::picker(chart, self.priorities, choices);
        let found = self.tree_under(root, choices)->Ok_0;
        let after = self.after(choices, found.1);
        self.lemma_tree_under(root, choices);
        if agrees(after, pick, after.len() as int) {
            assert forall|j: int| 0 <= j < found.1.len() implies mine(j, #[trigger] found.1[j])
                == pick(j, found.1[j]) by {
                let c = after[j];
                assert(choices::spans_of(after)[j] == c.span);
                assert(place_of(c, j, pick) == c.pos);
                assert(choices::choice_ok(chart, self.priorities, c));
                assert(c.eligible.contains(pick(j, c.span)));
            }
            choices::lemma_picker_in_range(chart, self.priorities, choices);
            derivation::lemma_unfold_agree(
                chart,
                mine,
                pick,
                self.known,
                root,
                self.limit,
                Seq::empty(),
                Seq::empty(),
            );
            0
        } else {
            let j = first_apart(after, pick, 0);
            lemma_first_apart(after, pick, 0);
            let c = after[j];
            assert(choices::choice_ok(chart, self.priorities, c));
            assert(c.eligible.contains(pick(j, c.span)));
            assert(c.eligible[place_of(c, j, pick)] == pick(j, c.span));
            assert(place_of(c, j, pick) > c.pos) by {
                if j < choices.len() {
                    self.lemma_kept(root, choices, j);
                    if agrees(choices, pick, choices.len() as int) {
                        assert(place_of(choices[j], j, pick) == choices[j].pos);
                    } else {
                        let m = choose|m: int| #[trigger] leaves_at(choices, pick, m);
                        if m < j {
                            self.lemma_kept(root, choices, m);
                            assert(place_of(after[m], m, pick) == after[m].pos);
                        } else if j < m {
                            assert(place_of(choices[j], j, pick) == choices[j].pos);
                        }
                    }
                } else {
                    assert(c.pos == 0);
                }
            }
            j
        }
    }

    /// What is yet to come for `root` does come, unless a walk gives up.
    proof fn lemma_complete_from(
        self,
        root: int,
        choices: Seq<Choice>,
        pick: spec_fn(int, int) -> int,
    )
        requires
            self.ready(root),
            self.choices_ok(choices),
            self.in_order(root, choices),
            admissible(self.chart, self.priorities, pick),
            to_come(choices, pick),
            !enumeration::cut_short(self.outcomes_from(root, choices)),
        ensures
            self.outcomes_from(root, choices).contains(self.tree_by(root, pick)),
        decreases self.distance(choices),
    {
        let all = self.outcomes_from(root, choices);
        self.lemma_progress(root, choices);
        if self.tree_under(root, choices) is Err {
            assert(all.last() is Err);
        }
        let found = self.tree_under(root, choices)->Ok_0;
        let after = self.after(choices, found.1);
        let j = self.lemma_here_or_later(root, choices, pick);
        if agrees(after, pick, after.len() as int) {
            assert(all[0] == self.tree_by(root, pick));
        } else {
            lemma_to_come_next(after, pick, j);
            let next = choices::advanced(after)->Some_0;
            let rest = self.outcomes_from(root, next);
            self.lemma_errors_last_from(root, next);
            assert(all == seq![Ok::<Tree, Fault>(found.0)] + rest);
            assert(all.last() == rest.last());
            self.lemma_complete_from(root, next, pick);
            let n = rest.index_of(self.tree_by(root, pick));
            assert(all[n + 1] == rest[n]);
        }
    }

    /// Unless a walk gives up, an enumeration leaves nothing out: for every root and every
    /// admissible choice of back-pointers, the tree that they make is among the outcomes.
    pub proof fn law_nothing_is_left_out(
        self,
        roots: Seq<int>,
        root: int,
        pick: spec_fn(int, int) -> int,
    )
        requires
            forall|k: int| 0 <= k < roots.len() ==> self.ready(#[trigger] roots[k]),
            roots.contains(root),
            admissible(self.chart, self.priorities, pick),
            !enumeration::cut_short(self.outcomes(roots)),
        ensures
            self.outcomes(roots).contains(self.tree_by(root, pick)),
            self.tree_by(root, pick) is Ok,
        decreases roots.len(),
    {
        let others = roots.drop_first();
        assert(self.ready(roots[0]));
        let first = self.outcomes_from(roots[0], Seq::empty());
        let second = self.outcomes(others);
        let all = self.outcomes(roots);
        assert(!enumeration::cut_short(first));
        assert(all == first + second);
        if second.len() > 0 {
            assert(all.last() == second.last());
        }
        if root == roots[0] {
            let none = Seq::<Choice>::empty();
            self.lemma_none_in_order(root);
            assert(agrees(none, pick, 0));
            self.lemma_complete_from(root, none, pick);
            let n = first.index_of(self.tree_by(root, pick));
            assert(all[n] == first[n]);
        } else {
            let j = roots.index_of(root);
            assert(others[j - 1] == root);
            self.law_nothing_is_left_out(others, root, pick);
            let n = second.index_of(self.tree_by(root, pick));
            assert(all[first.len() + n] == second[n]);
        }
        self.lemma_errors_last(roots);
        let n = all.index_of(self.tree_by(root, pick));
        assert(all[n] is Ok) by {
            if n == all.len() - 1 {
                assert(all.last() is Ok);
            }
        }
    }
}

/// The first tree is that of the first root, by way of the first eligible back-pointer whenever a
/// span is met.
pub proof fn law_the_first_tree_takes_what_comes_first(setup: Setup, roots: Seq<int>)
    requires
        roots.len() > 0,
        setup.ready(roots[0]),
    ensures
        setup.outcomes(roots).len() > 0,
        setup.outcomes(roots)[0] == setup.tree_by(
            roots[0],
            |t: int, i: int| choices::eligible(setup.chart, setup.priorities, i)[0],
        ),
{
    let root = roots[0];
    let none = Seq::<Choice>::empty();
    let chart = setup.chart;
    let mine = choices::picker(chart, setup.priorities, none);
    let first = |t: int, i: int| choices::eligible(chart, setup.priorities, i)[0];
    setup.lemma_none_in_order(root);
    setup.lemma_errors_last_from(root, none);
    choices::lemma_picker_in_range(chart, setup.priorities, none);
    derivation::lemma_unfold_same(
        chart,
        mine,
        first,
        setup.known,
        root,
        setup.limit,
        Seq::empty(),
        Seq::empty(),
    );
    let list = setup.outcomes_from(root, none);
    assert(list[0] == setup.tree_by(root, mine));
    assert(setup.outcomes(roots)[0] == list[0]);
}

/// A back-pointer is eligible exactly where no other back-pointer of its span has a higher
/// priority.
pub proof fn law_eligible_means_unbeaten(
    chart: Chart,
    priorities: Map<Seq<char>, i32>,
    i: int,
    k: int,
)
    ensures
        choices::eligible(chart, priorities, i).contains(k) <==> {
            &&& 0 <= k < chart.items[i].sources.len()
            &&& forall|j: int|
                0 <= j < chart.items[i].sources.len() ==> choices::source_priority(
                    chart,
                    priorities,
                    #[trigger] chart.items[i].sources[j],
                ) <= choices::source_priority(chart, priorities, chart.items[i].sources[k])
        },
{
    let scores = choices::source_scores(chart, priorities, i);
    let kept = choices::eligible(chart, priorities, i);
    choices::lemma_best_positions(scores);
    if kept.contains(k) {
        let j = kept.index_of(k);
        assert(kept[j] == k);
        assert forall|m: int| 0 <= m < scores.len() implies choices::source_priority(
            chart,
            priorities,
            #[trigger] chart.items[i].sources[m],
        ) <= choices::source_priority(chart, priorities, chart.items[i].sources[k]) by {
            assert(scores[m] <= scores[k]);
        }
    } else if 0 <= k < scores.len() {
        assert(!choices::is_best(scores, k));
        let m = choose|m: int| 0 <= m < scores.len() && !(#[trigger] scores[m] <= scores[k]);
        assert(choices::source_priority(chart, priorities, chart.items[i].sources[m]) == scores[m]);
    }
}

/// Without priorities nothing is filtered: every back-pointer and every root is eligible.
pub proof fn law_no_priorities_no_filter(chart: Chart, i: int)
    ensures
        choices::eligible(chart, Map::empty(), i) == choices::positions(
            chart.items[i].sources.len(),
        ),
        choices::eligible_roots(chart, Map::empty()) == chart.roots,
{
    let none = Map::<Seq<char>, i32>::empty();
    choices::lemma_all_best(choices::source_scores(chart, none, i));
    choices::lemma_all_best(choices::root_scores(chart, none));
    assert(choices::eligible_roots(chart, none) =~= chart.roots);
}

impl Setup {
    /// Relaxing the cap on steps keeps every tree that was within it.
    pub proof fn law_relaxed_cap_keeps_trees(
        self,
        relaxed: Setup,
        root: int,
        pick: spec_fn(int, int) -> int,
    )
        requires
            self.ready(root),
            admissible(self.chart, self.priorities, pick),
            relaxed == (Setup { limit: relaxed.limit, ..self }),
            self.limit <= relaxed.limit,
            self.tree_by(root, pick) is Ok,
        ensures
            relaxed.tree_by(root, pick) == self.tree_by(root, pick),
    {
        lemma_admissible_in_range(self.chart, self.priorities, pick);
        let more = (relaxed.limit - self.limit) as nat;
        derivation::lemma_more_fuel(
            self.chart,
            pick,
            self.known,
            root,
            self.limit,
            more,
            Seq::empty(),
            Seq::empty(),
        );
    }

    /// A tree comes out exactly where it takes no more steps than the cap allows: with a cap
    /// of its own number of steps it still does, and with one less the walk gives up.
    pub proof fn law_cap_is_exact(self, tight: Setup, root: int, pick: spec_fn(int, int) -> int)
        requires
            self.ready(root),
            admissible(self.chart, self.priorities, pick),
            tight == (Setup { limit: tight.limit, ..self }),
            self.tree_by(root, pick) is Ok,
        ensures
            tight.tree_by(root, pick) is Ok <==> tight.limit >= self.tree_by(
                root,
                pick,
            )->Ok_0.steps(),
            tight.tree_by(root, pick) is Ok ==> tight.tree_by(root, pick) == self.tree_by(root, pick),
    {
        lemma_admissible_in_range(self.chart, self.priorities, pick);
        let none = Seq::<int>::empty();
        derivation::lemma_unfold(self.chart, pick, self.known, root, self.limit, none, Seq::empty());
        derivation::lemma_unfold(self.chart, pick, self.known, root, tight.limit, none, Seq::empty());
        let u = derivation::unfold(self.chart, pick, self.known, root, self.limit, none, Seq::empty())->Ok_0;
        let tree = self.tree_by(root, pick)->Ok_0;
        assert(tree.steps() == 1 + derivation::forest_steps(u.trees));
        if tight.limit <= self.limit {
            derivation::lemma_more_fuel(
                self.chart,
                pick,
                self.known,
                root,
                tight.limit,
                (self.limit - tight.limit) as nat,
                none,
                Seq::empty(),
            );
            if tight.limit >= tree.steps() {
                self.lemma_enough_fuel(pick, root, self.limit, tight.limit, none, Seq::empty());
            }
        } else {
            derivation::lemma_more_fuel(
                self.chart,
                pick,
                self.known,
                root,
                self.limit,
                (tight.limit - self.limit) as nat,
                none,
                Seq::empty(),
            );
        }
        if let Ok(found) = tight.tree_by(root, pick) {
            assert(found == tree);
            assert(found.steps() <= tight.limit);
        }
    }

    /// A walk whose subtrees take no more steps than it may finds them.
    proof fn lemma_enough_fuel(
        self,
        pick: spec_fn(int, int) -> int,
        i: int,
        fuel: nat,
        less: nat,
        met: Seq<int>,
        way: Seq<int>,
    )
        requires
            self.chart.wf(),
            derivation::picks_in_range(self.chart, pick),
            0 <= i < self.chart.items.len(),
            less <= fuel,
            derivation::unfold(self.chart, pick, self.known, i, fuel, met, way) matches Ok(u) && 1
                + derivation::forest_steps(u.trees) <= less,
        ensures
            derivation::unfold(self.chart, pick, self.known, i, less, met, way) is Ok,
        decreases fuel,
    {
        let chart = self.chart;
        assert(chart.item_ok(i));
        let item = chart.items[i];
        derivation::lemma_unfold(chart, pick, self.known, i, fuel, met, way);
        if item.sources.len() > 0 {
            let left = (fuel - 1) as nat;
            let fewer = (less - 1) as nat;
            let here = derivation::onward(chart, way, i);
            let k = pick(met.len() as int, i);
            assert(chart.source_ok(i, item.sources[k]));
            let mid = met.push(i);
            let found = derivation::unfold(chart, pick, self.known, i, fuel, met, way)->Ok_0;
            match item.sources[k] {
                Source::Scan { from, .. } => {
                    let u = derivation::unfold(chart, pick, self.known, from, left, mid, here)->Ok_0;
                    derivation::lemma_unfold(chart, pick, self.known, from, left, mid, here);
                    assert(found.trees.drop_last() =~= u.trees);
                    self.lemma_enough_fuel(pick, from, left, fewer, mid, here);
                },
                Source::Completion { from, by } => {
                    let u = derivation::unfold(chart, pick, self.known, by, left, mid, here)->Ok_0;
                    derivation::lemma_unfold(chart, pick, self.known, by, left, mid, here);
                    let w = derivation::unfold(chart, pick, self.known, from, u.fuel, u.met, here)->Ok_0;
                    derivation::lemma_unfold(chart, pick, self.known, from, u.fuel, u.met, here);
                    assert(found.trees.drop_last() =~= w.trees);
                    assert(found.trees.last().steps() == 1 + derivation::forest_steps(u.trees));
                    self.lemma_enough_fuel(pick, by, left, fewer, mid, here);
                    derivation::lemma_more_fuel(
                        chart,
                        pick,
                        self.known,
                        by,
                        fewer,
                        (left - fewer) as nat,
                        mid,
                        here,
                    );
                    let v = derivation::unfold(chart, pick, self.known, by, fewer, mid, here)->Ok_0;
                    derivation::lemma_unfold(chart, pick, self.known, by, fewer, mid, here);
                    self.lemma_enough_fuel(pick, from, u.fuel, v.fuel, u.met, here);
                },
            }
        }
    }
}

/// The choice of the first back-pointer everywhere.
pub open spec fn first_everywhere() -> spec_fn(int, int) -> int {
    |t: int, i: int| 0
}

/// Following first back-pointers by recursion and by iteration leads to the same subtrees.
proof fn lemma_climb_unfold(setup: Setup, i: int, level: int, fuel: nat, met: Seq<int>, way: Seq<int>)
    requires
        setup.chart.wf(),
        0 <= i < setup.chart.items.len(),
    ensures
        ({
            let down = derivation::unfold(
                setup.chart,
                first_everywhere(),
                setup.known,
                i,
                fuel,
                met,
                way,
            );
            climb::climb(setup.chart, setup.known, i, level) matches Ok(trees) ==> (down matches Ok(
                u,
            ) ==> trees == climb::wrapped(setup.chart, i, u.trees))
        }),
    decreases fuel,
{
    let chart = setup.chart;
    let pick = first_everywhere();
    assert(chart.item_ok(i));
    let item = chart.items[i];
    if fuel > 0 && !derivation::circles(chart, way, i) && level < climb::MAX_WALKER_RECURSION {
        if item.sources.len() > 0 {
            let here = derivation::onward(chart, way, i);
            let left = (fuel - 1) as nat;
            let mid = met.push(i);
            assert(pick(met.len() as int, i) == 0);
            assert(chart.source_ok(i, item.sources[0]));
            match item.sources[0] {
                Source::Scan { from, .. } => {
                    lemma_climb_unfold(setup, from, level + 1, left, mid, here);
                },
                Source::Completion { from, by } => {
                    lemma_climb_unfold(setup, by, level + 1, left, mid, here);
                    derivation::lemma_unfold(chart, pick, setup.known, by, left, mid, here);
                    if let Ok(u) = derivation::unfold(chart, pick, setup.known, by, left, mid, here) {
                        lemma_climb_unfold(setup, from, level + 1, u.fuel, u.met, here);
                        if let Ok(w) = derivation::unfold(
                            chart,
                            pick,
                            setup.known,
                            from,
                            u.fuel,
                            u.met,
                            here,
                        ) {
                            let node = Tree::Node { rule: chart.items[by].rule, children: u.trees };
                            assert(w.trees + seq![node] =~= w.trees.push(node));
                        }
                    }
                },
            }
        }
    }
}

/// Without priorities, evaluation by recursion and by iteration find the same first tree,
/// wherever neither gives up.
pub proof fn law_first_tree_by_recursion(setup: Setup)
    requires
        setup.chart.wf(),
        setup.chart.roots.len() > 0,
        setup.priorities == Map::<Seq<char>, i32>::empty(),
        climb::climb(setup.chart, setup.known, setup.chart.roots[0], 0) is Ok,
        setup.outcomes(setup.chart.roots)[0] is Ok,
    ensures
        climb::climb(setup.chart, setup.known, setup.chart.roots[0], 0)->Ok_0 == seq![
            setup.outcomes(setup.chart.roots)[0]->Ok_0,
        ],
{
    let chart = setup.chart;
    let root = chart.roots[0];
    let none = Seq::<Choice>::empty();
    let mine = choices::picker(chart, setup.priorities, none);
    let first = setup.outcomes_from(root, none);
    setup.lemma_none_in_order(root);
    setup.lemma_errors_last_from(root, none);
    setup.lemma_tree_under(root, none);
    assert(setup.outcomes(chart.roots)[0] == first[0]);
    let found = setup.tree_under(root, none)->Ok_0;
    assert(first[0] == Ok::<Tree, Fault>(found.0));
    choices::lemma_picker_in_range(chart, setup.priorities, none);
    assert forall|j: int| 0 <= j < found.1.len() implies mine(j, #[trigger] found.1[j])
        == first_everywhere()(j, found.1[j]) by {
        law_no_priorities_no_filter(chart, found.1[j]);
    }
    derivation::lemma_unfold_agree(
        chart,
        mine,
        first_everywhere(),
        setup.known,
        root,
        setup.limit,
        Seq::empty(),
        Seq::empty(),
    );
    lemma_climb_unfold(setup, root, 0, setup.limit, Seq::empty(), Seq::empty());
}

/// Every tree that evaluation by recursion finds is a derivation tree of one of the roots.
pub proof fn law_recursive_trees_are_derivations(chart: Chart, known: Set<Seq<char>>, n: int, k: int)
    requires
        chart.wf(),
        0 <= n <= chart.roots.len(),
        climb::climb_roots(chart, known, n) is Ok,
        0 <= k < climb::climb_roots(chart, known, n)->Ok_0.len(),
    ensures
        exists|r: int|
            0 <= r < n && (climb::climb_roots(chart, known, n)->Ok_0[k] matches Tree::Node {
                rule,
                children,
            } && rule == chart.items[#[trigger] chart.roots[r]].rule && derivation::derives(
                chart,
                chart.roots[r],
                children,
            )),
    decreases n,
{
    if n > 0 {
        let before = climb::climb_roots(chart, known, n - 1)->Ok_0;
        if k < before.len() {
            law_recursive_trees_are_derivations(chart, known, n - 1, k);
            let r = choose|r: int|
                0 <= r < n - 1 && (before[k] matches Tree::Node { rule, children } && rule
                    == chart.items[#[trigger] chart.roots[r]].rule && derivation::derives(
                    chart,
                    chart.roots[r],
                    children,
                ));
            assert(climb::climb_roots(chart, known, n)->Ok_0[k] == before[k]);
            assert(0 <= chart.roots[r] < chart.items.len());
        } else {
            let root = chart.roots[n - 1];
            climb::lemma_climb_all(chart, known, root, 0, Seq::empty());
            let lists = climb::climb_all(chart, known, root, 0, Seq::empty())->Ok_0;
            assert(climb::handed_up(chart, root, lists[k - before.len()]));
            assert(climb::climb_roots(chart, known, n)->Ok_0[k] == lists[k - before.len()][0]);
        }
    }
}

} // verus!
