//! What priorities change: they remove trees, and nothing else.

use vstd::prelude::*;

use crate::choices;
use crate::choices::Choice;
use crate::derivation;
use crate::derivation::{Fault, Tree};
use crate::enumeration;
use crate::enumeration::{Outcome, Setup};
use crate::grammar::GrammarModel;
use crate::language;
use crate::laws;
use crate::spans::{Chart, Source};

verus! {

/// `a` is what is left of `b` when some of it is removed.
pub open spec fn subsequence<T>(a: Seq<T>, b: Seq<T>) -> bool
    decreases b.len(),
{
    if a.len() == 0 {
        true
    } else if b.len() == 0 {
        false
    } else {
        ||| a[0] == b[0] && subsequence(a.drop_first(), b.drop_first())
        ||| subsequence(a, b.drop_first())
    }
}

/// One more in front of both, or of the second alone, keeps what is left.
proof fn lemma_front<T>(x: T, a: Seq<T>, b: Seq<T>)
    requires
        subsequence(a, b),
    ensures
        subsequence(seq![x] + a, seq![x] + b),
        subsequence(a, seq![x] + b),
{
    let more = seq![x] + b;
    assert(more.drop_first() =~= b);
    assert((seq![x] + a).drop_first() =~= a);
}

/// What is left of two parts is left of the whole.
proof fn lemma_both<T>(a: Seq<T>, b: Seq<T>, c: Seq<T>, d: Seq<T>)
    requires
        subsequence(a, b),
        subsequence(c, d),
    ensures
        subsequence(a + c, b + d),
    decreases b.len(),
{
    if b.len() == 0 {
        assert(a + c =~= c);
        assert(b + d =~= d);
    } else {
        let whole = b + d;
        assert(whole.drop_first() =~= b.drop_first() + d);
        if a.len() == 0 {
            lemma_both(a, b.drop_first(), c, d);
            if c.len() > 0 {
                assert(subsequence(a + c, whole.drop_first()));
            }
        } else if a[0] == b[0] && subsequence(a.drop_first(), b.drop_first()) {
            lemma_both(a.drop_first(), b.drop_first(), c, d);
            assert((a + c).drop_first() =~= a.drop_first() + c);
            assert((a + c)[0] == whole[0]);
        } else {
            lemma_both(a, b.drop_first(), c, d);
            assert(subsequence(a + c, whole.drop_first()));
        }
    }
}

/// What stands at increasing places is left when the rest is removed.
proof fn lemma_places<T>(all: Seq<T>, places: Seq<int>)
    requires
        forall|k: int| 0 <= k < places.len() ==> 0 <= #[trigger] places[k] < all.len(),
        forall|a: int, b: int| 0 <= a < b < places.len() ==> places[a] < places[b],
    ensures
        subsequence(places.map_values(|k: int| all[k]), all),
    decreases all.len(),
{
    let kept = places.map_values(|k: int| all[k]);
    if places.len() > 0 {
        let rest = all.drop_first();
        assert(0 <= places[0] < all.len());
        if places[0] == 0 {
            let later = Seq::new((places.len() - 1) as nat, |k: int| places[k + 1] - 1);
            assert forall|k: int| 0 <= k < later.len() implies 0 <= #[trigger] later[k]
                < rest.len() by {
                assert(places[0] < places[k + 1]);
                assert(places[k + 1] < all.len());
            }
            lemma_places(rest, later);
            assert(later.map_values(|k: int| rest[k]) =~= kept.drop_first()) by {
                assert forall|k: int| 0 <= k < later.len() implies rest[later[k]]
                    == kept.drop_first()[k] by {
                    assert(0 <= later[k] < rest.len());
                }
            }
        } else {
            let later = Seq::new(places.len(), |k: int| places[k] - 1);
            assert forall|k: int| 0 <= k < later.len() implies 0 <= #[trigger] later[k]
                < rest.len() by {
                if k > 0 {
                    assert(places[0] < places[k]);
                }
                assert(places[k] < all.len());
            }
            lemma_places(rest, later);
            assert(later.map_values(|k: int| rest[k]) =~= kept) by {
                assert forall|k: int| 0 <= k < later.len() implies rest[later[k]] == kept[k] by {
                    assert(0 <= later[k] < rest.len());
                }
            }
        }
    }
}

/// The setups differ in their priorities only.
pub open spec fn but_for_priorities(a: Setup, b: Setup) -> bool {
    a.chart == b.chart && a.known == b.known && a.limit == b.limit
}

/// Any choice in range is admissible without priorities.
proof fn lemma_range_is_admissible(chart: Chart, pick: spec_fn(int, int) -> int)
    requires
        derivation::picks_in_range(chart, pick),
    ensures
        laws::admissible(chart, Map::empty(), pick),
{
    let none = Map::<Seq<char>, i32>::empty();
    assert forall|t: int, i: int|
        0 <= t && 0 <= i < chart.items.len() && chart.items[i].sources.len()
            > 0 implies choices::eligible(chart, none, i).contains(#[trigger] pick(t, i)) by {
        laws::law_no_priorities_no_filter(chart, i);
        assert(choices::eligible(chart, none, i)[pick(t, i)] == pick(t, i));
    }
}

/// Without priorities the position is the back-pointer.
proof fn lemma_plain_choice(chart: Chart, c: Choice, k: int)
    requires
        choices::choice_ok(chart, Map::empty(), c),
        0 <= k < chart.items[c.span].sources.len(),
    ensures
        c.pos == c.source(),
        c.eligible.index_of(k) == k,
        c.eligible.len() == chart.items[c.span].sources.len(),
{
    laws::law_no_priorities_no_filter(chart, c.span);
    assert(c.eligible[k] == k);
    let j = c.eligible.index_of(k);
    assert(c.eligible[j] == k);
}

/// The trees of one root with priorities are left of those without.
proof fn lemma_removed_from(
    plain: Setup,
    setup: Setup,
    root: int,
    all: Seq<Choice>,
    some: Seq<Choice>,
)
    requires
        but_for_priorities(plain, setup),
        plain.priorities == Map::<Seq<char>, i32>::empty(),
        plain.ready(root),
        plain.choices_ok(all),
        plain.in_order(root, all),
        setup.choices_ok(some),
        setup.in_order(root, some),
        laws::to_come(all, choices::picker(setup.chart, setup.priorities, some)),
        !enumeration::cut_short(plain.outcomes_from(root, all)),
    ensures
        subsequence(setup.outcomes_from(root, some), plain.outcomes_from(root, all)),
        !enumeration::cut_short(setup.outcomes_from(root, some)),
    decreases plain.distance(all),
{
    let chart = plain.chart;
    let pick = choices::picker(chart, setup.priorities, some);
    let left = plain.outcomes_from(root, all);
    let kept = setup.outcomes_from(root, some);
    choices::lemma_picker_in_range(chart, setup.priorities, some);
    lemma_range_is_admissible(chart, pick);
    plain.lemma_progress(root, all);
    setup.lemma_progress(root, some);
    if plain.tree_under(root, all) is Err {
        assert(left.last() is Err);
    }
    let found = plain.tree_under(root, all)->Ok_0;
    let trail = plain.after(all, found.1);
    plain.lemma_tree_under(root, all);
    let here = Ok::<Tree, Fault>(found.0);
    let j = plain.lemma_here_or_later(root, all, pick);
    let next = choices::advanced(trail);
    if next is Some {
        plain.lemma_errors_last_from(root, next->Some_0);
        let rest = plain.outcomes_from(root, next->Some_0);
        assert(left == seq![here] + rest);
        assert(left.last() == rest.last());
    }
    if laws::agrees(trail, pick, trail.len() as int) {
        assert(setup.tree_under(root, some) == plain.tree_under(root, all));
        setup.lemma_tree_under(root, some);
        let made = setup.after(some, found.1);
        if let Some(then) = choices::advanced(made) {
            let later = choices::picker(chart, setup.priorities, then);
            let q = choices::lemma_advanced_at(made);
            assert forall|m: int| 0 <= m < trail.len() implies #[trigger] trail[m].span
                == made[m].span && trail[m].pos == made[m].source() && choices::choice_ok(
                chart,
                plain.priorities,
                trail[m],
            ) && choices::choice_ok(chart, setup.priorities, made[m]) by {
                assert(choices::spans_of(trail)[m] == trail[m].span);
                assert(choices::spans_of(made)[m] == made[m].span);
                assert(choices::choice_ok(chart, setup.priorities, made[m]));
                choices::lemma_source(chart, setup.priorities, made[m]);
                lemma_plain_choice(chart, trail[m], made[m].source());
                assert(laws::place_of(trail[m], m, pick) == trail[m].pos);
            }
            assert(laws::agrees(trail, later, q)) by {
                assert forall|m: int| 0 <= m < q implies laws::place_of(
                    #[trigger] trail[m],
                    m,
                    later,
                ) == trail[m].pos by {
                    assert(trail[m].span == made[m].span);
                    assert(then[m] == made[m]);
                    choices::lemma_source(chart, setup.priorities, made[m]);
                    lemma_plain_choice(chart, trail[m], made[m].source());
                }
            }
            assert(trail[q].span == made[q].span);
            assert(choices::choice_ok(chart, setup.priorities, then[q]));
            choices::lemma_sources_grow(chart, setup.priorities, made[q], then[q]);
            choices::lemma_source(chart, setup.priorities, then[q]);
            lemma_plain_choice(chart, trail[q], then[q].source());
            assert(laws::leaves_at(trail, later, q));
            laws::lemma_to_come_next(trail, later, q);
            let rest = plain.outcomes_from(root, next->Some_0);
            let more = setup.outcomes_from(root, then);
            lemma_removed_from(plain, setup, root, next->Some_0, then);
            lemma_front(here, more, rest);
            setup.lemma_errors_last_from(root, then);
            assert(kept == seq![here] + more);
            assert(kept.last() == more.last());
        } else {
            assert(kept == seq![here]);
            assert(kept.drop_first() =~= Seq::<Outcome>::empty());
            assert(left[0] == here);
            assert(subsequence(kept.drop_first(), left.drop_first()));
        }
    } else {
        laws::lemma_to_come_next(trail, pick, j);
        let rest = plain.outcomes_from(root, next->Some_0);
        lemma_removed_from(plain, setup, root, next->Some_0, some);
        lemma_front(here, kept, rest);
    }
}

/// The trees of some of the roots with priorities are left of those of all roots without.
proof fn lemma_removed(plain: Setup, setup: Setup, all: Seq<int>, some: Seq<int>)
    requires
        but_for_priorities(plain, setup),
        plain.priorities == Map::<Seq<char>, i32>::empty(),
        forall|k: int| 0 <= k < all.len() ==> plain.ready(#[trigger] all[k]),
        subsequence(some, all),
        !enumeration::cut_short(plain.outcomes(all)),
    ensures
        subsequence(setup.outcomes(some), plain.outcomes(all)),
        !enumeration::cut_short(setup.outcomes(some)),
        some.len() > 0 ==> setup.outcomes(some).len() > 0,
    decreases all.len(),
{
    if some.len() > 0 {
        let root = all[0];
        let others = all.drop_first();
        let none = Seq::<Choice>::empty();
        assert(plain.ready(root));
        assert(setup.ready(root));
        plain.lemma_none_in_order(root);
        setup.lemma_none_in_order(root);
        plain.lemma_errors_last_from(root, none);
        let first = plain.outcomes_from(root, none);
        let second = plain.outcomes(others);
        assert(plain.outcomes(all) == first + second);
        if second.len() > 0 {
            assert((first + second).last() == second.last());
        }
        assert forall|k: int| 0 <= k < others.len() implies plain.ready(#[trigger] others[k]) by {
            assert(others[k] == all[k + 1]);
        }
        if some[0] == all[0] && subsequence(some.drop_first(), others) {
            let pick = choices::picker(setup.chart, setup.priorities, none);
            assert(laws::agrees(none, pick, 0));
            lemma_removed_from(plain, setup, root, none, none);
            lemma_removed(plain, setup, others, some.drop_first());
            setup.lemma_errors_last_from(root, none);
            let mine = setup.outcomes_from(root, none);
            let rest = setup.outcomes(some.drop_first());
            assert(setup.outcomes(some) == mine + rest);
            lemma_both(mine, first, rest, second);
            if rest.len() > 0 {
                assert((mine + rest).last() == rest.last());
            } else {
                assert(mine + rest =~= mine);
            }
        } else {
            lemma_removed(plain, setup, others, some);
            lemma_both(Seq::<Outcome>::empty(), first, setup.outcomes(some), second);
            assert(Seq::<Outcome>::empty() + setup.outcomes(some) =~= setup.outcomes(some));
        }
    } else {
        assert(setup.outcomes(some) =~= Seq::<Outcome>::empty());
    }
}

/// Priorities only remove trees: where an enumeration without priorities does not give up, one
/// with priorities does not either, and its trees are some of those without, at least one where
/// there is a root, in the same order.
pub proof fn law_priorities_only_remove_trees(plain: Setup, setup: Setup)
    requires
        but_for_priorities(plain, setup),
        plain.priorities == Map::<Seq<char>, i32>::empty(),
        plain.chart.wf(),
        !enumeration::cut_short(plain.outcomes(plain.chart.roots)),
    ensures
        ({
            let kept = setup.outcomes(choices::eligible_roots(setup.chart, setup.priorities));
            &&& subsequence(kept, plain.outcomes(plain.chart.roots))
            &&& !enumeration::cut_short(kept)
            &&& plain.chart.roots.len() > 0 ==> kept.len() > 0
        }),
{
    let chart = plain.chart;
    let scores = choices::root_scores(chart, setup.priorities);
    choices::lemma_best_positions(scores);
    choices::lemma_eligible_roots(chart, setup.priorities);
    lemma_places(chart.roots, choices::best_positions(scores));
    lemma_removed(
        plain,
        setup,
        chart.roots,
        choices::eligible_roots(chart, setup.priorities),
    );
}

/// Which back-pointers win, over the priorities that rules were given: one that completes a rule
/// of a higher priority beats one that completes a rule of a lower one, whatever the two are; a
/// rule without a priority competes as one with priority 0 does, and so does a token; and one that
/// none beats is eligible. Eligible ones stand in order, each once.
pub proof fn law_the_highest_priority_wins(
    chart: Chart,
    priorities: Map<Seq<char>, i32>,
    i: int,
    a: int,
    b: int,
)
    requires
        0 <= a < chart.items[i].sources.len(),
        0 <= b < chart.items[i].sources.len(),
    ensures
        ({
            let sources = chart.items[i].sources;
            let kept = choices::eligible(chart, priorities, i);
            let given = |src: Source|
                match src {
                    Source::Completion { by, .. } => if priorities.contains_key(
                        chart.items[by].rule.text(),
                    ) {
                        Some(priorities[chart.items[by].rule.text()])
                    } else {
                        None
                    },
                    Source::Scan { .. } => None,
                };
            &&& forall|p: i32, q: i32|
                given(sources[a]) == Some(p) && given(sources[b]) == Some(q) && p > q
                    ==> !kept.contains(b)
            &&& forall|p: i32|
                given(sources[a]) == Some(p) && given(sources[b]) is None && p > 0
                    ==> !kept.contains(b)
            &&& forall|q: i32|
                given(sources[a]) is None && given(sources[b]) == Some(q) && 0 > q
                    ==> !kept.contains(b)
            &&& !kept.contains(b) ==> exists|k: int|
                0 <= k < sources.len() && match (
                    given(#[trigger] sources[k]),
                    given(sources[b]),
                ) {
                    (Some(p), Some(q)) => p > q,
                    (Some(p), None) => p > 0,
                    (None, Some(q)) => 0 > q,
                    (None, None) => false,
                }
            &&& forall|j: int| 0 <= j < kept.len() ==> 0 <= #[trigger] kept[j] < sources.len()
            &&& forall|j: int, k: int| 0 <= j < k < kept.len() ==> kept[j] < kept[k]
        }),
{
    let sources = chart.items[i].sources;
    let scores = choices::source_scores(chart, priorities, i);
    let kept = choices::eligible(chart, priorities, i);
    choices::lemma_best_positions(scores);
    if kept.contains(b) {
        let j = kept.index_of(b);
        assert(choices::is_best(scores, kept[j]));
        assert(scores[a] <= scores[b]);
    } else {
        assert(!choices::is_best(scores, b));
        let k = choose|k: int| 0 <= k < scores.len() && !(#[trigger] scores[k] <= scores[b]);
        assert(choices::source_priority(chart, priorities, sources[k]) == scores[k]);
    }
}

/// Which roots win, over the priorities that their rules were given, in the same way; the roots
/// that win stand in the order of the chart.
pub proof fn law_the_highest_root_wins(
    chart: Chart,
    priorities: Map<Seq<char>, i32>,
    a: int,
    b: int,
)
    requires
        0 <= a < chart.roots.len(),
        0 <= b < chart.roots.len(),
        chart.roots.no_duplicates(),
    ensures
        ({
            let roots = chart.roots;
            let kept = choices::eligible_roots(chart, priorities);
            let given = |root: int|
                if priorities.contains_key(chart.items[root].rule.text()) {
                    Some(priorities[chart.items[root].rule.text()])
                } else {
                    None
                };
            &&& forall|p: i32, q: i32|
                given(roots[a]) == Some(p) && given(roots[b]) == Some(q) && p > q
                    ==> !kept.contains(roots[b])
            &&& forall|p: i32|
                given(roots[a]) == Some(p) && given(roots[b]) is None && p > 0 ==> !kept.contains(
                    roots[b],
                )
            &&& forall|q: i32|
                given(roots[a]) is None && given(roots[b]) == Some(q) && 0 > q ==> !kept.contains(
                    roots[b],
                )
            &&& !kept.contains(roots[b]) ==> exists|k: int|
                0 <= k < roots.len() && match (given(#[trigger] roots[k]), given(roots[b])) {
                    (Some(p), Some(q)) => p > q,
                    (Some(p), None) => p > 0,
                    (None, Some(q)) => 0 > q,
                    (None, None) => false,
                }
            &&& subsequence(kept, roots)
        }),
{
    let roots = chart.roots;
    let scores = choices::root_scores(chart, priorities);
    let best = choices::best_positions(scores);
    let kept = choices::eligible_roots(chart, priorities);
    choices::lemma_best_positions(scores);
    lemma_places(roots, best);
    if kept.contains(roots[b]) {
        let j = kept.index_of(roots[b]);
        assert(kept[j] == roots[best[j]]);
        assert(best[j] == b);
        assert(choices::is_best(scores, best[j]));
        assert(scores[a] <= scores[b]);
    } else {
        if choices::is_best(scores, b) {
            let j = best.index_of(b);
            assert(kept[j] == roots[b]);
        }
        let k = choose|k: int| 0 <= k < scores.len() && !(#[trigger] scores[k] <= scores[b]);
        assert(choices::rule_priority(priorities, chart.items[roots[k]].rule) == scores[k]);
    }
}

/// Giving priority 0 to a rule that has none changes nothing.
pub proof fn law_no_priority_is_priority_zero(
    chart: Chart,
    priorities: Map<Seq<char>, i32>,
    text: Seq<char>,
    i: int,
)
    requires
        !priorities.contains_key(text),
    ensures
        choices::eligible(chart, priorities.insert(text, 0), i) == choices::eligible(
            chart,
            priorities,
            i,
        ),
        choices::eligible_roots(chart, priorities.insert(text, 0)) == choices::eligible_roots(
            chart,
            priorities,
        ),
{
    let more = priorities.insert(text, 0);
    assert(choices::source_scores(chart, more, i) =~= choices::source_scores(chart, priorities, i));
    assert(choices::root_scores(chart, more) =~= choices::root_scores(chart, priorities));
}

/// The same back-pointers are eligible.
pub open spec fn same_filter(a: Setup, b: Setup) -> bool {
    forall|i: int|
        0 <= i < a.chart.items.len() ==> choices::eligible(a.chart, a.priorities, i)
            == #[trigger] choices::eligible(b.chart, b.priorities, i)
}

/// Where the same back-pointers are eligible, the outcomes for a root are the same.
proof fn lemma_same_from(a: Setup, b: Setup, root: int, choices: Seq<Choice>)
    requires
        but_for_priorities(a, b),
        same_filter(a, b),
        a.ready(root),
        a.choices_ok(choices),
        a.in_order(root, choices),
    ensures
        b.choices_ok(choices),
        b.in_order(root, choices),
        a.outcomes_from(root, choices) == b.outcomes_from(root, choices),
    decreases a.distance(choices),
{
    let chart = a.chart;
    let mine = choices::picker(chart, a.priorities, choices);
    let theirs = choices::picker(chart, b.priorities, choices);
    assert forall|k: int| 0 <= k < choices.len() implies choices::choice_ok(
        chart,
        b.priorities,
        #[trigger] choices[k],
    ) by {
        assert(choices::choice_ok(chart, a.priorities, choices[k]));
        assert(choices::eligible(chart, b.priorities, choices[k].span) == choices[k].eligible);
    }
    choices::lemma_picker_in_range(chart, a.priorities, choices);
    assert forall|t: int, x: int|
        0 <= t && 0 <= x < chart.items.len() && chart.items[x].sources.len()
            > 0 implies #[trigger] mine(t, x) == theirs(t, x) by {
        assert(choices::eligible(chart, b.priorities, x) == choices::eligible(
            chart,
            a.priorities,
            x,
        ));
    }
    derivation::lemma_unfold_same(
        chart,
        mine,
        theirs,
        a.known,
        root,
        a.limit,
        Seq::empty(),
        Seq::empty(),
    );
    assert(a.tree_under(root, choices) == b.tree_under(root, choices));
    a.lemma_progress(root, choices);
    a.lemma_tree_under(root, choices);
    if let Ok(found) = a.tree_under(root, choices) {
        let x = a.after(choices, found.1);
        let y = b.after(choices, found.1);
        assert(x =~= y) by {
            assert forall|t: int| 0 <= t < x.len() implies x[t] == y[t] by {
                assert(0 <= found.1[t] < chart.items.len());
                assert(choices::eligible(chart, b.priorities, found.1[t]) == choices::eligible(
                    chart,
                    a.priorities,
                    found.1[t],
                ));
            }
        }
        if let Some(next) = choices::advanced(x) {
            lemma_same_from(a, b, root, next);
        }
    }
}

/// Where the same back-pointers are eligible, the outcomes are the same.
proof fn lemma_same(a: Setup, b: Setup, roots: Seq<int>)
    requires
        but_for_priorities(a, b),
        same_filter(a, b),
        forall|k: int| 0 <= k < roots.len() ==> a.ready(#[trigger] roots[k]),
    ensures
        a.outcomes(roots) == b.outcomes(roots),
    decreases roots.len(),
{
    if roots.len() > 0 {
        let others = roots.drop_first();
        assert(a.ready(roots[0]));
        a.lemma_none_in_order(roots[0]);
        lemma_same_from(a, b, roots[0], Seq::empty());
        assert forall|k: int| 0 <= k < others.len() implies a.ready(#[trigger] others[k]) by {
            assert(others[k] == roots[k + 1]);
        }
        lemma_same(a, b, others);
    }
}

/// Priorities with nothing to prefer filter nothing: where all rules of the grammar have the
/// same one, given to them or by default, the outcomes are those without priorities.
pub proof fn law_equal_priorities_filter_nothing<P: Fn(&str) -> bool>(
    plain: Setup,
    setup: Setup,
    g: GrammarModel<P>,
    tokens: Seq<Seq<char>>,
    priority: i32,
)
    requires
        but_for_priorities(plain, setup),
        plain.priorities == Map::<Seq<char>, i32>::empty(),
        language::charts(plain.chart, g, tokens),
        forall|r: int|
            0 <= r < g.rules.len() ==> choices::rule_priority(
                setup.priorities,
                #[trigger] g.rules[r],
            ) == priority,
    ensures
        choices::eligible_roots(setup.chart, setup.priorities) == plain.chart.roots,
        setup.outcomes(choices::eligible_roots(setup.chart, setup.priorities)) == plain.outcomes(
            plain.chart.roots,
        ),
{
    let chart = plain.chart;
    assert forall|x: int| 0 <= x < chart.items.len() implies choices::rule_priority(
        setup.priorities,
        (#[trigger] chart.items[x]).rule,
    ) == priority by {
        assert(language::item_supported(chart.items, g, tokens, x));
        let r = g.rules.index_of(chart.items[x].rule);
        assert(g.rules[r] == chart.items[x].rule);
    }
    assert forall|i: int| 0 <= i < chart.items.len() implies choices::eligible(
        chart,
        plain.priorities,
        i,
    ) == #[trigger] choices::eligible(chart, setup.priorities, i) by {
        laws::law_no_priorities_no_filter(chart, i);
        let item = chart.items[i];
        let scores = choices::source_scores(chart, setup.priorities, i);
        assert(chart.item_ok(i));
        assert(language::item_supported(chart.items, g, tokens, i));
        let wanted = item.rule.spec[item.dot - 1];
        assert forall|k: int| 0 <= k < scores.len() implies #[trigger] scores[k]
            == if g.is_nonterm(wanted) {
            priority
        } else {
            0
        } by {
            let src = item.sources[k];
            assert(chart.source_ok(i, src));
            assert(language::source_supported(chart.items, g, tokens, item, src));
            if let Source::Completion { by, .. } = src {
                assert(choices::rule_priority(setup.priorities, chart.items[by].rule) == priority);
            }
        }
        choices::lemma_all_best(scores);
    }
    let roots = choices::root_scores(chart, setup.priorities);
    assert forall|k: int| 0 <= k < roots.len() implies #[trigger] roots[k] == priority by {
        assert(0 <= chart.roots[k] < chart.items.len());
        assert(choices::rule_priority(setup.priorities, chart.items[chart.roots[k]].rule)
            == priority);
    }
    choices::lemma_all_best(roots);
    assert(choices::eligible_roots(chart, setup.priorities) =~= chart.roots);
    lemma_same(plain, setup, chart.roots);
}

} // verus!
