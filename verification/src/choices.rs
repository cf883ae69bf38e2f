//! Which back-pointers compete, which of them win, and the choices made as spans are met.

use vstd::prelude::*;

use crate::grammar::RuleModel;
use crate::spans::{Chart, Source};

verus! {

/// The positions `0..n`.
pub open spec fn positions(n: nat) -> Seq<int> {
    Seq::new(n, |k: int| k)
}

/// No score is higher than the one at `k`.
pub open spec fn is_best(scores: Seq<i32>, k: int) -> bool {
    forall|j: int| 0 <= j < scores.len() ==> #[trigger] scores[j] <= scores[k]
}

/// The positions of the highest score, in order.
pub open spec fn best_positions(scores: Seq<i32>) -> Seq<int> {
    positions(scores.len()).filter(|k: int| is_best(scores, k))
}

/// The priority of a rule; a rule that was given none has priority 0.
pub open spec fn rule_priority(priorities: Map<Seq<char>, i32>, rule: RuleModel) -> i32 {
    if priorities.contains_key(rule.text()) {
        priorities[rule.text()]
    } else {
        0
    }
}

/// The priority of a back-pointer: that of the rule that was completed, or 0 for a token.
pub open spec fn source_priority(
    chart: Chart,
    priorities: Map<Seq<char>, i32>,
    src: Source,
) -> i32 {
    match src {
        Source::Completion { by, .. } => rule_priority(priorities, chart.items[by].rule),
        Source::Scan { .. } => 0,
    }
}

/// The priorities of the back-pointers of item `i`.
pub open spec fn source_scores(
    chart: Chart,
    priorities: Map<Seq<char>, i32>,
    i: int,
) -> Seq<i32> {
    Seq::new(
        chart.items[i].sources.len(),
        |k: int| source_priority(chart, priorities, chart.items[i].sources[k]),
    )
}

/// The back-pointers of item `i` that no other one beats, in order.
pub open spec fn eligible(chart: Chart, priorities: Map<Seq<char>, i32>, i: int) -> Seq<int> {
    best_positions(source_scores(chart, priorities, i))
}

/// The priorities of the rules of the roots.
pub open spec fn root_scores(chart: Chart, priorities: Map<Seq<char>, i32>) -> Seq<i32> {
    Seq::new(
        chart.roots.len(),
        |k: int| rule_priority(priorities, chart.items[chart.roots[k]].rule),
    )
}

/// The roots that no other one beats, in order.
pub open spec fn eligible_roots(chart: Chart, priorities: Map<Seq<char>, i32>) -> Seq<int> {
    best_positions(root_scores(chart, priorities)).map_values(|k: int| chart.roots[k])
}

/// One position is kept for each best score among the first `n`.
proof fn lemma_filter_prefix(scores: Seq<i32>, n: int)
    requires
        0 <= n < scores.len(),
    ensures
        ({
            let keep = |k: int| is_best(scores, k);
            let all = positions(scores.len());
            all.take(n + 1).filter(keep) == if is_best(scores, n) {
                all.take(n).filter(keep).push(n)
            } else {
                all.take(n).filter(keep)
            }
        }),
{
    let keep = |k: int| is_best(scores, k);
    let all = positions(scores.len());
    let t = all.take(n + 1);
    reveal(Seq::filter);
    assert(t.drop_last() =~= all.take(n));
    assert(t.last() == n);
}

/// A highest score exists wherever there is any.
proof fn lemma_best_exists(scores: Seq<i32>) -> (k: int)
    requires
        scores.len() > 0,
    ensures
        0 <= k < scores.len(),
        is_best(scores, k),
    decreases scores.len(),
{
    if scores.len() == 1 {
        0
    } else {
        let rest = scores.drop_last();
        let k = lemma_best_exists(rest);
        if scores.last() > scores[k] {
            assert forall|j: int| 0 <= j < scores.len() implies #[trigger] scores[j]
                <= scores.last() by {
                if j < rest.len() {
                    assert(rest[j] <= rest[k]);
                }
            }
            scores.len() - 1
        } else {
            assert forall|j: int| 0 <= j < scores.len() implies #[trigger] scores[j]
                <= scores[k] by {
                if j < rest.len() {
                    assert(rest[j] <= rest[k]);
                }
            }
            k
        }
    }
}

/// Among the first `n` positions, exactly the best are kept, each once and in order.
proof fn lemma_best_prefix(scores: Seq<i32>, n: int)
    requires
        0 <= n <= scores.len(),
    ensures
        ({
            let kept = positions(scores.len()).take(n).filter(|k: int| is_best(scores, k));
            &&& forall|j: int| 0 <= j < kept.len() ==> 0 <= #[trigger] kept[j] < n
            &&& forall|j: int| 0 <= j < kept.len() ==> is_best(scores, #[trigger] kept[j])
            &&& forall|a: int, b: int| 0 <= a < b < kept.len() ==> kept[a] < kept[b]
            &&& forall|k: int| 0 <= k < n && is_best(scores, k) ==> kept.contains(k)
        }),
    decreases n,
{
    let keep = |k: int| is_best(scores, k);
    let all = positions(scores.len());
    if n == 0 {
        reveal(Seq::filter);
        assert(all.take(0).filter(keep) =~= Seq::<int>::empty());
    } else {
        lemma_best_prefix(scores, n - 1);
        lemma_filter_prefix(scores, n - 1);
        let before = all.take(n - 1).filter(keep);
        let kept = all.take(n).filter(keep);
        assert forall|k: int| 0 <= k < n && is_best(scores, k) implies kept.contains(k) by {
            if k == n - 1 {
                assert(kept[kept.len() - 1] == k);
            } else {
                assert(before.contains(k));
                let j = before.index_of(k);
                assert(kept[j] == k);
            }
        }
    }
}

/// The best positions are in range, best, in increasing order, and all of them; there is
/// one wherever there is a score.
pub proof fn lemma_best_positions(scores: Seq<i32>)
    ensures
        ({
            let kept = best_positions(scores);
            &&& forall|j: int| 0 <= j < kept.len() ==> 0 <= #[trigger] kept[j] < scores.len()
            &&& forall|j: int| 0 <= j < kept.len() ==> is_best(scores, #[trigger] kept[j])
            &&& forall|a: int, b: int| 0 <= a < b < kept.len() ==> kept[a] < kept[b]
            &&& forall|k: int|
                0 <= k < scores.len() && is_best(scores, k) ==> kept.contains(k)
            &&& scores.len() > 0 ==> kept.len() > 0
        }),
{
    let n = scores.len() as int;
    assert(positions(scores.len()).take(n) =~= positions(scores.len()));
    lemma_best_prefix(scores, n);
    if n > 0 {
        let k = lemma_best_exists(scores);
        assert(best_positions(scores).contains(k));
    }
}

/// Eligible roots are roots, and there is one wherever there is a root.
pub proof fn lemma_eligible_roots(chart: Chart, priorities: Map<Seq<char>, i32>)
    requires
        chart.wf(),
    ensures
        chart.roots.len() > 0 ==> eligible_roots(chart, priorities).len() > 0,
        forall|k: int|
            0 <= k < eligible_roots(chart, priorities).len() ==> {
                &&& chart.roots.contains(#[trigger] eligible_roots(chart, priorities)[k])
                &&& 0 <= eligible_roots(chart, priorities)[k] < chart.items.len()
                &&& chart.items[eligible_roots(chart, priorities)[k]].complete()
            },
{
    let best = best_positions(root_scores(chart, priorities));
    lemma_best_positions(root_scores(chart, priorities));
    assert forall|k: int| 0 <= k < eligible_roots(chart, priorities).len() implies {
        &&& chart.roots.contains(#[trigger] eligible_roots(chart, priorities)[k])
        &&& 0 <= eligible_roots(chart, priorities)[k] < chart.items.len()
        &&& chart.items[eligible_roots(chart, priorities)[k]].complete()
    } by {
        assert(0 <= best[k] < chart.roots.len());
        assert(eligible_roots(chart, priorities)[k] == chart.roots[best[k]]);
    }
}

/// Where all scores are equal, every position is kept.
pub proof fn lemma_all_best(scores: Seq<i32>)
    requires
        forall|a: int, b: int|
            0 <= a < scores.len() && 0 <= b < scores.len() ==> scores[a] == scores[b],
    ensures
        best_positions(scores) == positions(scores.len()),
{
    lemma_all_best_prefix(scores, scores.len() as int);
    assert(positions(scores.len()).take(scores.len() as int) =~= positions(scores.len()));
}

proof fn lemma_all_best_prefix(scores: Seq<i32>, n: int)
    requires
        0 <= n <= scores.len(),
        forall|a: int, b: int|
            0 <= a < scores.len() && 0 <= b < scores.len() ==> scores[a] == scores[b],
    ensures
        positions(scores.len()).take(n).filter(|k: int| is_best(scores, k)) == positions(
            scores.len(),
        ).take(n),
    decreases n,
{
    let keep = |k: int| is_best(scores, k);
    let all = positions(scores.len());
    if n == 0 {
        reveal(Seq::filter);
        assert(all.take(0).filter(keep) =~= all.take(0));
    } else {
        lemma_all_best_prefix(scores, n - 1);
        lemma_filter_prefix(scores, n - 1);
        assert(is_best(scores, n - 1));
        assert(all.take(n) =~= all.take(n - 1).push(n - 1));
    }
}

/// The choice that stands at a span that was met: the `pos`-th of its eligible back-pointers.
pub struct Choice {
    pub span: int,
    pub pos: int,
    pub eligible: Seq<int>,
}

impl Choice {
    /// The back-pointer that is chosen.
    pub open spec fn source(self) -> int {
        self.eligible[self.pos]
    }
}

/// The spans at which choices stand, in the order in which they are met.
pub open spec fn spans_of(choices: Seq<Choice>) -> Seq<int> {
    choices.map_values(|c: Choice| c.span)
}

/// The choice is one of the eligible back-pointers of its span.
pub open spec fn choice_ok(chart: Chart, priorities: Map<Seq<char>, i32>, c: Choice) -> bool {
    &&& 0 <= c.span < chart.items.len()
    &&& chart.items[c.span].sources.len() > 0
    &&& c.eligible == eligible(chart, priorities, c.span)
    &&& 0 <= c.pos < c.eligible.len()
}

/// Each choice is one of the eligible back-pointers of its span.
pub open spec fn choices_ok(
    chart: Chart,
    priorities: Map<Seq<char>, i32>,
    choices: Seq<Choice>,
) -> bool {
    forall|k: int|
        0 <= k < choices.len() ==> choice_ok(chart, priorities, #[trigger] choices[k])
}

/// The first choice at span `i`.
pub open spec fn first_choice(chart: Chart, priorities: Map<Seq<char>, i32>, i: int) -> Choice {
    Choice { span: i, pos: 0, eligible: eligible(chart, priorities, i) }
}

/// The choice that `choices` make where span `i` is the `t`-th that is met: the one that stands
/// there, or the first one where none does.
pub open spec fn chosen(
    chart: Chart,
    priorities: Map<Seq<char>, i32>,
    choices: Seq<Choice>,
    t: int,
    i: int,
) -> Choice {
    if 0 <= t < choices.len() && choices[t].span == i {
        choices[t]
    } else {
        first_choice(chart, priorities, i)
    }
}

/// The back-pointer that `choices` select, as a function of how many spans have been met and
/// of the span.
pub open spec fn picker(
    chart: Chart,
    priorities: Map<Seq<char>, i32>,
    choices: Seq<Choice>,
) -> spec_fn(int, int) -> int {
    |t: int, i: int| chosen(chart, priorities, choices, t, i).source()
}

/// The choices that were made at the spans of `met`.
pub open spec fn extended(
    chart: Chart,
    priorities: Map<Seq<char>, i32>,
    choices: Seq<Choice>,
    met: Seq<int>,
) -> Seq<Choice> {
    Seq::new(met.len(), |t: int| chosen(chart, priorities, choices, t, met[t]))
}

/// The next choices: the last one that can move on does, and those behind it are dropped.
pub open spec fn advanced(choices: Seq<Choice>) -> Option<Seq<Choice>>
    decreases choices.len(),
{
    if choices.len() == 0 {
        None
    } else {
        let last = choices.last();
        if last.pos + 1 < last.eligible.len() {
            Some(choices.drop_last().push(Choice { pos: last.pos + 1, ..last }))
        } else {
            advanced(choices.drop_last())
        }
    }
}

/// A first choice is sound.
pub proof fn lemma_first_choice(chart: Chart, priorities: Map<Seq<char>, i32>, i: int)
    requires
        0 <= i < chart.items.len(),
        chart.items[i].sources.len() > 0,
    ensures
        choice_ok(chart, priorities, first_choice(chart, priorities, i)),
{
    lemma_best_positions(source_scores(chart, priorities, i));
}

/// What a sound choice selects is an eligible back-pointer, and one that exists.
pub proof fn lemma_source(chart: Chart, priorities: Map<Seq<char>, i32>, c: Choice)
    requires
        choice_ok(chart, priorities, c),
    ensures
        0 <= c.source() < chart.items[c.span].sources.len(),
        eligible(chart, priorities, c.span).contains(c.source()),
{
    lemma_best_positions(source_scores(chart, priorities, c.span));
}

/// Different positions select different back-pointers, the later one the higher.
pub proof fn lemma_sources_grow(
    chart: Chart,
    priorities: Map<Seq<char>, i32>,
    c: Choice,
    d: Choice,
)
    requires
        choice_ok(chart, priorities, c),
        choice_ok(chart, priorities, d),
        c.span == d.span,
    ensures
        c.pos < d.pos <==> c.source() < d.source(),
        c.pos == d.pos <==> c.source() == d.source(),
{
    lemma_best_positions(source_scores(chart, priorities, c.span));
}

/// What is selected is a back-pointer that exists, and an eligible one.
pub proof fn lemma_picker_in_range(
    chart: Chart,
    priorities: Map<Seq<char>, i32>,
    choices: Seq<Choice>,
)
    requires
        choices_ok(chart, priorities, choices),
    ensures
        crate::derivation::picks_in_range(chart, picker(chart, priorities, choices)),
        forall|t: int, i: int|
            0 <= t && 0 <= i < chart.items.len() && chart.items[i].sources.len() > 0 ==> eligible(
                chart,
                priorities,
                i,
            ).contains(#[trigger] picker(chart, priorities, choices)(t, i)),
{
    let pick = picker(chart, priorities, choices);
    assert forall|t: int, i: int|
        0 <= t && 0 <= i < chart.items.len() && chart.items[i].sources.len() > 0 implies 0
        <= #[trigger] pick(t, i) < chart.items[i].sources.len() && eligible(
        chart,
        priorities,
        i,
    ).contains(pick(t, i)) by {
        lemma_first_choice(chart, priorities, i);
        lemma_source(chart, priorities, chosen(chart, priorities, choices, t, i));
    }
}

/// The choices that were made are sound, stand at the spans met, and are those that were
/// selected.
pub proof fn lemma_extended(
    chart: Chart,
    priorities: Map<Seq<char>, i32>,
    choices: Seq<Choice>,
    met: Seq<int>,
)
    requires
        choices_ok(chart, priorities, choices),
        crate::derivation::continues(chart, Seq::empty(), met),
    ensures
        choices_ok(chart, priorities, extended(chart, priorities, choices, met)),
        spans_of(extended(chart, priorities, choices, met)) == met,
        crate::derivation::agree(
            picker(chart, priorities, choices),
            picker(chart, priorities, extended(chart, priorities, choices, met)),
            met,
            0,
            met.len() as int,
        ),
{
    let all = extended(chart, priorities, choices, met);
    assert forall|t: int| 0 <= t < all.len() implies choice_ok(
        chart,
        priorities,
        #[trigger] all[t],
    ) && all[t].span == met[t] by {
        assert(0 <= met[t] < chart.items.len());
        lemma_first_choice(chart, priorities, met[t]);
    }
    assert(spans_of(all) =~= met);
}

/// The first choices of sound ones are sound.
pub proof fn lemma_fewer_ok(
    chart: Chart,
    priorities: Map<Seq<char>, i32>,
    choices: Seq<Choice>,
)
    requires
        choices_ok(chart, priorities, choices),
        choices.len() > 0,
    ensures
        choices_ok(chart, priorities, choices.drop_last()),
{
    let rest = choices.drop_last();
    assert forall|k: int| 0 <= k < rest.len() implies choice_ok(
        chart,
        priorities,
        #[trigger] rest[k],
    ) by {
        assert(rest[k] == choices[k]);
    }
}

/// Moving on keeps the choices sound, and makes no more of them.
pub proof fn lemma_advanced_ok(
    chart: Chart,
    priorities: Map<Seq<char>, i32>,
    choices: Seq<Choice>,
)
    requires
        choices_ok(chart, priorities, choices),
    ensures
        advanced(choices) matches Some(next) ==> choices_ok(chart, priorities, next) && next.len()
            <= choices.len(),
    decreases choices.len(),
{
    if choices.len() > 0 {
        let last = choices.last();
        let rest = choices.drop_last();
        lemma_fewer_ok(chart, priorities, choices);
        assert(choice_ok(chart, priorities, choices[choices.len() - 1]));
        if last.pos + 1 >= last.eligible.len() {
            lemma_advanced_ok(chart, priorities, rest);
        }
    }
}

/// How choices move on: one of them to its next back-pointer, and those behind it are dropped.
pub proof fn lemma_advanced_at(choices: Seq<Choice>) -> (q: int)
    requires
        advanced(choices) is Some,
    ensures
        0 <= q < choices.len(),
        advanced(choices)->Some_0.len() == q + 1,
        forall|m: int| 0 <= m < q ==> #[trigger] advanced(choices)->Some_0[m] == choices[m],
        advanced(choices)->Some_0[q] == (Choice { pos: choices[q].pos + 1, ..choices[q] }),
        choices[q].pos + 1 < choices[q].eligible.len(),
    decreases choices.len(),
{
    let last = choices.last();
    let rest = choices.drop_last();
    if last.pos + 1 < last.eligible.len() {
        choices.len() - 1
    } else {
        let q = lemma_advanced_at(rest);
        assert forall|m: int| 0 <= m < q implies #[trigger] advanced(choices)->Some_0[m]
            == choices[m] by {
            assert(rest[m] == choices[m]);
        }
        assert(rest[q] == choices[q]);
        q
    }
}

/// The values of a list of machine integers.
pub open spec fn ints(list: Seq<usize>) -> Seq<int> {
    list.map_values(|k: usize| k as int)
}

/// The positions `0..n`.
pub fn all_positions(n: usize) -> (list: Vec<usize>)
    ensures
        ints(list@) == positions(n as nat),
{
    let mut list: Vec<usize> = Vec::new();
    let mut k: usize = 0;
    while k < n
        invariant
            k <= n,
            list@.len() == k,
            forall|j: int| 0 <= j < k ==> #[trigger] list@[j] == j,
        decreases n - k,
    {
        list.push(k);
        k = k + 1;
    }
    proof {
        assert(ints(list@) =~= positions(n as nat));
    }
    list
}

/// The positions of the highest score, in order.
pub fn keep_best(scores: &Vec<i32>) -> (kept: Vec<usize>)
    ensures
        ints(kept@) == best_positions(scores@),
{
    let mut kept: Vec<usize> = Vec::new();
    if scores.len() == 0 {
        proof {
            lemma_best_positions(scores@);
            let b = best_positions(scores@);
            assert(b.len() == 0) by {
                if b.len() > 0 {
                    assert(0 <= b[0] < scores@.len());
                }
            }
            assert(ints(kept@) =~= b);
        }
        return kept;
    }
    let mut best: i32 = scores[0];
    let mut i: usize = 1;
    while i < scores.len()
        invariant
            1 <= i <= scores.len(),
            forall|j: int| 0 <= j < i ==> #[trigger] scores@[j] <= best,
            exists|j: int| 0 <= j < i && #[trigger] scores@[j] == best,
        decreases scores.len() - i,
    {
        if scores[i] > best {
            best = scores[i];
        }
        i = i + 1;
    }
    let mut k: usize = 0;
    proof {
        reveal(Seq::filter);
        assert(positions(scores@.len()).take(0).filter(|k: int| is_best(scores@, k)) =~= Seq::<
            int,
        >::empty());
        assert(ints(kept@) =~= Seq::<int>::empty());
    }
    while k < scores.len()
        invariant
            k <= scores.len(),
            forall|j: int| 0 <= j < scores.len() ==> #[trigger] scores@[j] <= best,
            exists|j: int| 0 <= j < scores.len() && #[trigger] scores@[j] == best,
            ints(kept@) == positions(scores@.len()).take(k as int).filter(
                |k: int| is_best(scores@, k),
            ),
        decreases scores.len() - k,
    {
        proof {
            lemma_filter_prefix(scores@, k as int);
            assert(is_best(scores@, k as int) <==> scores@[k as int] == best);
        }
        if scores[k] == best {
            proof {
                assert(ints(kept@.push(k)) =~= ints(kept@).push(k as int));
            }
            kept.push(k);
        }
        k = k + 1;
    }
    proof {
        assert(positions(scores@.len()).take(k as int) =~= positions(scores@.len()));
    }
    kept
}

} // verus!
