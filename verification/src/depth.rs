//! How deep evaluation by recursion goes, measured on the chart.

use vstd::prelude::*;

use crate::climb;
use crate::complete;
use crate::derivation::Fault;
use crate::grammar::{GrammarModel, RuleModel};
use crate::language;
use crate::spans::{Chart, Source};

verus! {

/// The back-pointer leads to item `to`.
pub open spec fn points_to(src: Source, to: int) -> bool {
    match src {
        Source::Scan { from, .. } => to == from,
        Source::Completion { from, by } => to == from || to == by,
    }
}

/// Each item of the path but the last leads to the next one by its first back-pointer.
pub open spec fn first_path(chart: Chart, path: Seq<int>) -> bool {
    &&& path.len() > 0
    &&& forall|j: int|
        0 <= j < path.len() - 1 ==> chart.items[#[trigger] path[j]].sources.len() > 0 && points_to(
            chart.items[path[j]].sources[0],
            path[j + 1],
        )
}

/// One of the back-pointers of item `i` leads to item `to`.
pub open spec fn steps_down(chart: Chart, i: int, to: int) -> bool {
    exists|k: int|
        0 <= k < chart.items[i].sources.len() && points_to(
            #[trigger] chart.items[i].sources[k],
            to,
        )
}

/// Each item of the path but the last leads to the next one by one of its back-pointers.
pub open spec fn any_path(chart: Chart, path: Seq<int>) -> bool {
    &&& path.len() > 0
    &&& forall|j: int|
        0 <= j < path.len() - 1 ==> steps_down(chart, #[trigger] path[j], path[j + 1])
}

/// Every rule that the chart completes has an action.
pub open spec fn all_known(chart: Chart, known: Set<Seq<char>>) -> bool {
    forall|i: int|
        0 <= i < chart.items.len() && (#[trigger] chart.items[i]).dot
            >= chart.items[i].rule.spec.len() ==> known.contains(chart.items[i].rule.text())
}

/// The rule is one that the chart completes, and has no action.
pub open spec fn unknown(chart: Chart, known: Set<Seq<char>>, rule: RuleModel) -> bool {
    &&& !known.contains(rule.text())
    &&& exists|i: int|
        0 <= i < chart.items.len() && (#[trigger] chart.items[i]).rule == rule
            && chart.items[i].dot >= rule.spec.len()
}

/// No way down from item `i` by first back-pointers takes a hundred steps or more.
pub open spec fn shallow(chart: Chart, i: int) -> bool {
    forall|path: Seq<int>| #[trigger]
        first_path(chart, path) && path[0] == i ==> path.len() - 1 < 100
}

/// The path takes the back-pointers of `used`, no one twice.
pub open spec fn fresh_path(chart: Chart, path: Seq<int>, used: Seq<Source>) -> bool {
    &&& path.len() == used.len() + 1
    &&& used.no_duplicates()
    &&& forall|j: int|
        0 <= j < used.len() ==> chart.items[path[j]].sources.contains(#[trigger] used[j])
            && points_to(used[j], path[j + 1])
}

/// No way down from item `i` that takes no back-pointer twice takes a hundred steps or more.
pub open spec fn shallow_fresh(chart: Chart, i: int) -> bool {
    forall|path: Seq<int>, used: Seq<Source>| #[trigger]
        fresh_path(chart, path, used) && path[0] == i ==> path.len() - 1 < 100
}

/// No way down from item `i` takes a hundred steps or more.
pub open spec fn shallow_everywhere(chart: Chart, i: int) -> bool {
    forall|path: Seq<int>| #[trigger] any_path(chart, path) && path[0] == i ==> path.len() - 1 < 100
}

/// No way down from a root that takes no back-pointer twice takes a hundred steps or more.
pub open spec fn shallow_roots(chart: Chart) -> bool {
    forall|r: int| 0 <= r < chart.roots.len() ==> shallow_fresh(chart, #[trigger] chart.roots[r])
}

/// One more step down.
proof fn lemma_first_path(chart: Chart, path: Seq<int>, to: int)
    requires
        first_path(chart, path),
        chart.items[path.last()].sources.len() > 0,
        points_to(chart.items[path.last()].sources[0], to),
    ensures
        first_path(chart, path.push(to)),
{
    let more = path.push(to);
    assert forall|j: int| 0 <= j < more.len() - 1 implies chart.items[
        #[trigger] more[j]
    ].sources.len() > 0 && points_to(chart.items[more[j]].sources[0], more[j + 1]) by {
        assert(more[j] == path[j]);
        if j < path.len() - 1 {
            assert(more[j + 1] == path[j + 1]);
        }
    }
}

proof fn lemma_fresh_path(
    chart: Chart,
    path: Seq<int>,
    used: Seq<Source>,
    src: Source,
    to: int,
)
    requires
        fresh_path(chart, path, used),
        chart.items[path.last()].sources.contains(src),
        points_to(src, to),
        !used.contains(src),
    ensures
        fresh_path(chart, path.push(to), used.push(src)),
{
    let more = path.push(to);
    let taken = used.push(src);
    assert forall|j: int| 0 <= j < taken.len() implies chart.items[more[j]].sources.contains(
        #[trigger] taken[j],
    ) && points_to(taken[j], more[j + 1]) by {
        assert(more[j] == path[j]);
        if j < used.len() {
            assert(taken[j] == used[j]);
            assert(more[j + 1] == path[j + 1]);
        }
    }
    assert forall|a: int, b: int| 0 <= a < taken.len() && 0 <= b < taken.len() && a != b implies
        taken[a] != taken[b] by {
        if a < used.len() && b < used.len() {
            assert(used[a] != used[b]);
        } else if a < used.len() {
            assert(used.contains(used[a]));
        } else {
            assert(used.contains(used[b]));
        }
    }
}

/// The walk below the end of a path succeeds.
proof fn lemma_climb_succeeds(chart: Chart, known: Set<Seq<char>>, path: Seq<int>)
    requires
        chart.wf(),
        all_known(chart, known),
        first_path(chart, path),
        shallow(chart, path[0]),
        0 <= path.last() < chart.items.len(),
    ensures
        climb::climb(chart, known, path.last(), path.len() - 1) is Ok,
    decreases 100 - path.len(),
{
    let i = path.last();
    let item = chart.items[i];
    assert(path.len() - 1 < 100);
    assert(chart.item_ok(i));
    if item.sources.len() > 0 {
        assert(chart.source_ok(i, item.sources[0]));
        match item.sources[0] {
            Source::Scan { from, .. } => {
                lemma_first_path(chart, path, from);
                assert(path.push(from)[0] == path[0]);
                lemma_climb_succeeds(chart, known, path.push(from));
            },
            Source::Completion { from, by } => {
                lemma_first_path(chart, path, from);
                lemma_first_path(chart, path, by);
                assert(path.push(from)[0] == path[0]);
                assert(path.push(by)[0] == path[0]);
                lemma_climb_succeeds(chart, known, path.push(from));
                lemma_climb_succeeds(chart, known, path.push(by));
            },
        }
    }
}

/// The walk by recursion over first back-pointers succeeds where every rule has an action and no
/// way down takes a hundred steps; and where one does, it fails.
pub proof fn law_recursion_succeeds_where_it_can(chart: Chart, known: Set<Seq<char>>, root: int)
    requires
        chart.wf(),
        0 <= root < chart.items.len(),
    ensures
        all_known(chart, known) && shallow(chart, root) ==> climb::climb(
            chart,
            known,
            root,
            0,
        ) is Ok,
        !shallow(chart, root) ==> climb::climb(chart, known, root, 0) is Err,
{
    if all_known(chart, known) && shallow(chart, root) {
        let path = seq![root];
        assert(first_path(chart, path));
        lemma_climb_succeeds(chart, known, path);
    }
    if !shallow(chart, root) {
        let path = choose|path: Seq<int>| #[trigger]
            first_path(chart, path) && path[0] == root && path.len() - 1 >= 100;
        lemma_climb_fails(chart, known, path, 0);
    }
}

/// What a walk below the end of a path reports is true.
proof fn lemma_climb_truth(chart: Chart, known: Set<Seq<char>>, path: Seq<int>)
    requires
        chart.wf(),
        first_path(chart, path),
        path.len() <= 101,
        0 <= path.last() < chart.items.len(),
    ensures
        climb::climb(chart, known, path.last(), path.len() - 1) matches Err(fault) ==> match fault {
            Fault::TooDeep { all } => !all && !shallow(chart, path[0]),
            Fault::MissingAction { rule } => unknown(chart, known, rule),
            Fault::OutOfSteps => false,
        },
    decreases 101 - path.len(),
{
    let i = path.last();
    let item = chart.items[i];
    assert(chart.item_ok(i));
    if path.len() - 1 < 100 {
        if item.sources.len() > 0 {
            assert(chart.source_ok(i, item.sources[0]));
            match item.sources[0] {
                Source::Scan { from, .. } => {
                    lemma_first_path(chart, path, from);
                    assert(path.push(from)[0] == path[0]);
                    lemma_climb_truth(chart, known, path.push(from));
                },
                Source::Completion { from, by } => {
                    lemma_first_path(chart, path, from);
                    lemma_first_path(chart, path, by);
                    assert(path.push(from)[0] == path[0]);
                    assert(path.push(by)[0] == path[0]);
                    lemma_climb_truth(chart, known, path.push(from));
                    lemma_climb_truth(chart, known, path.push(by));
                },
            }
        }
    } else {
        assert(first_path(chart, path) && path.len() - 1 >= 100);
    }
}

/// What the walk by recursion over first back-pointers reports is true: it is too deep only where
/// a way down takes a hundred steps, and a rule without an action is one that the chart completes.
pub proof fn law_recursion_reports_the_truth(chart: Chart, known: Set<Seq<char>>, root: int)
    requires
        chart.wf(),
        0 <= root < chart.items.len(),
    ensures
        climb::climb(chart, known, root, 0) matches Err(fault) ==> match fault {
            Fault::TooDeep { all } => !all && !shallow(chart, root),
            Fault::MissingAction { rule } => unknown(chart, known, rule),
            Fault::OutOfSteps => false,
        },
{
    let path = seq![root];
    assert(first_path(chart, path));
    lemma_climb_truth(chart, known, path);
}

/// A walk that has come down the first `n` steps of a path that is too long fails.
proof fn lemma_climb_fails(chart: Chart, known: Set<Seq<char>>, path: Seq<int>, n: int)
    requires
        chart.wf(),
        first_path(chart, path),
        path.len() - 1 >= 100,
        0 <= n <= 100,
    ensures
        climb::climb(chart, known, path[n], n) is Err,
    decreases 100 - n,
{
    if n < 100 {
        lemma_climb_fails(chart, known, path, n + 1);
        assert(points_to(chart.items[path[n]].sources[0], path[n + 1]));
    }
}

/// All of `used` has been taken.
spec fn all_taken(used: Seq<Source>, explored: Seq<Source>) -> bool {
    forall|j: int| 0 <= j < used.len() ==> explored.contains(#[trigger] used[j])
}

proof fn lemma_all_taken(used: Seq<Source>, explored: Seq<Source>, src: Source)
    requires
        all_taken(used, explored),
        !explored.contains(src),
    ensures
        !used.contains(src),
        all_taken(used, explored.push(src)),
        all_taken(used.push(src), explored.push(src)),
{
    let taken = explored.push(src);
    let more = used.push(src);
    if used.contains(src) {
        let j = used.index_of(src);
        assert(explored.contains(used[j]));
    }
    assert forall|j: int| 0 <= j < used.len() implies taken.contains(#[trigger] used[j]) by {
        let m = explored.index_of(used[j]);
        assert(taken[m] == used[j]);
    }
    assert forall|j: int| 0 <= j < more.len() implies taken.contains(#[trigger] more[j]) by {
        if j < used.len() {
            assert(more[j] == used[j]);
        } else {
            assert(taken[explored.len() as int] == src);
        }
    }
}

/// The walk over all back-pointers succeeds below the end of a path.
proof fn lemma_climb_all_succeeds(
    chart: Chart,
    known: Set<Seq<char>>,
    path: Seq<int>,
    used: Seq<Source>,
    explored: Seq<Source>,
)
    requires
        chart.wf(),
        all_known(chart, known),
        fresh_path(chart, path, used),
        all_taken(used, explored),
        shallow_fresh(chart, path[0]),
        0 <= path.last() < chart.items.len(),
    ensures
        climb::climb_all(chart, known, path.last(), path.len() - 1, explored) is Ok,
    decreases 100 - path.len(), chart.items[path.last()].sources.len() + 2,
{
    let i = path.last();
    assert(path.len() - 1 < 100);
    assert(chart.item_ok(i));
    if chart.items[i].sources.len() > 0 {
        lemma_climb_from_succeeds(chart, known, path, used, explored, 0);
    }
}

proof fn lemma_climb_from_succeeds(
    chart: Chart,
    known: Set<Seq<char>>,
    path: Seq<int>,
    used: Seq<Source>,
    explored: Seq<Source>,
    k: int,
)
    requires
        chart.wf(),
        all_known(chart, known),
        fresh_path(chart, path, used),
        all_taken(used, explored),
        shallow_fresh(chart, path[0]),
        0 <= path.last() < chart.items.len(),
        0 <= k,
    ensures
        climb::climb_from(chart, known, path.last(), path.len() - 1, explored, k) is Ok,
    decreases 100 - path.len(), chart.items[path.last()].sources.len() - k + 1,
{
    let i = path.last();
    let sources = chart.items[i].sources;
    assert(path.len() - 1 < 100);
    assert(chart.item_ok(i));
    if k >= sources.len() {
    } else if explored.contains(sources[k]) {
        lemma_climb_from_succeeds(chart, known, path, used, explored, k + 1);
    } else {
        let src = sources[k];
        let taken = explored.push(src);
        assert(chart.source_ok(i, src));
        assert(sources.contains(src));
        let more = used.push(src);
        lemma_all_taken(used, explored, src);
        match src {
            Source::Scan { from, .. } => {
                lemma_fresh_path(chart, path, used, src, from);
                assert(path.push(from)[0] == path[0]);
                lemma_climb_all_succeeds(chart, known, path.push(from), more, taken);
            },
            Source::Completion { from, by } => {
                lemma_fresh_path(chart, path, used, src, from);
                lemma_fresh_path(chart, path, used, src, by);
                assert(path.push(from)[0] == path[0]);
                assert(path.push(by)[0] == path[0]);
                lemma_climb_all_succeeds(chart, known, path.push(from), more, taken);
                lemma_climb_all_succeeds(chart, known, path.push(by), more, taken);
            },
        }
        assert(climb::climb_here(chart, known, i, path.len() - 1, taken, k) is Ok);
        lemma_climb_from_succeeds(chart, known, path, used, taken, k + 1);
    }
}

/// The walk by recursion over all back-pointers succeeds where every rule has an action and no
/// way down from a root that takes no back-pointer twice takes a hundred steps.
pub proof fn law_full_recursion_succeeds_where_it_can(chart: Chart, known: Set<Seq<char>>, n: int)
    requires
        chart.wf(),
        0 <= n <= chart.roots.len(),
        all_known(chart, known),
        forall|r: int| 0 <= r < n ==> shallow_fresh(chart, #[trigger] chart.roots[r]),
    ensures
        climb::climb_roots(chart, known, n) is Ok,
    decreases n,
{
    if n > 0 {
        law_full_recursion_succeeds_where_it_can(chart, known, n - 1);
        let path = seq![chart.roots[n - 1]];
        let none = Seq::<Source>::empty();
        assert(fresh_path(chart, path, none));
        lemma_climb_all_succeeds(chart, known, path, none, none);
    }
}

/// The fault is true of the walk over all back-pointers from item `i`.
pub open spec fn true_fault(
    chart: Chart,
    known: Set<Seq<char>>,
    i: int,
    fault: Fault,
) -> bool {
    match fault {
        Fault::TooDeep { all } => all && !shallow_fresh(chart, i),
        Fault::MissingAction { rule } => unknown(chart, known, rule),
        Fault::OutOfSteps => false,
    }
}

proof fn lemma_climb_all_truth(
    chart: Chart,
    known: Set<Seq<char>>,
    path: Seq<int>,
    used: Seq<Source>,
    explored: Seq<Source>,
)
    requires
        chart.wf(),
        fresh_path(chart, path, used),
        all_taken(used, explored),
        path.len() <= 101,
        0 <= path.last() < chart.items.len(),
    ensures
        climb::climb_all(chart, known, path.last(), path.len() - 1, explored) matches Err(fault)
            ==> true_fault(chart, known, path[0], fault),
    decreases 101 - path.len(), chart.items[path.last()].sources.len() + 2,
{
    let i = path.last();
    assert(chart.item_ok(i));
    if path.len() - 1 < 100 {
        if chart.items[i].sources.len() > 0 {
            lemma_climb_from_truth(chart, known, path, used, explored, 0);
        }
    } else {
        assert(fresh_path(chart, path, used) && path.len() - 1 >= 100);
    }
}

proof fn lemma_climb_from_truth(
    chart: Chart,
    known: Set<Seq<char>>,
    path: Seq<int>,
    used: Seq<Source>,
    explored: Seq<Source>,
    k: int,
)
    requires
        chart.wf(),
        fresh_path(chart, path, used),
        all_taken(used, explored),
        path.len() <= 100,
        0 <= path.last() < chart.items.len(),
        0 <= k,
    ensures
        climb::climb_from(chart, known, path.last(), path.len() - 1, explored, k) matches Err(fault)
            ==> true_fault(chart, known, path[0], fault),
    decreases 101 - path.len(), chart.items[path.last()].sources.len() - k + 1,
{
    let i = path.last();
    let sources = chart.items[i].sources;
    assert(chart.item_ok(i));
    if k >= sources.len() {
    } else if explored.contains(sources[k]) {
        lemma_climb_from_truth(chart, known, path, used, explored, k + 1);
    } else {
        let src = sources[k];
        let taken = explored.push(src);
        let more = used.push(src);
        assert(chart.source_ok(i, src));
        assert(sources.contains(src));
        lemma_all_taken(used, explored, src);
        match src {
            Source::Scan { from, .. } => {
                lemma_fresh_path(chart, path, used, src, from);
                assert(path.push(from)[0] == path[0]);
                lemma_climb_all_truth(chart, known, path.push(from), more, taken);
            },
            Source::Completion { from, by } => {
                lemma_fresh_path(chart, path, used, src, from);
                lemma_fresh_path(chart, path, used, src, by);
                assert(path.push(from)[0] == path[0]);
                assert(path.push(by)[0] == path[0]);
                lemma_climb_all_truth(chart, known, path.push(from), more, taken);
                lemma_climb_all_truth(chart, known, path.push(by), more, taken);
            },
        }
        lemma_climb_from_truth(chart, known, path, used, taken, k + 1);
        let item = chart.items[i];
        assert(item.complete() && !known.contains(item.rule.text()) ==> unknown(
            chart,
            known,
            item.rule,
        ));
        let here = climb::climb_here(chart, known, i, path.len() - 1, taken, k);
        assert(here matches Err(fault) ==> true_fault(chart, known, path[0], fault));
    }
}

/// What the walk by recursion over all back-pointers reports is true: it is too deep only where a
/// way down from a root that takes no back-pointer twice takes a hundred steps, and a rule without
/// an action is one that the chart completes.
pub proof fn law_full_recursion_reports_the_truth(chart: Chart, known: Set<Seq<char>>, n: int)
    requires
        chart.wf(),
        0 <= n <= chart.roots.len(),
    ensures
        climb::climb_roots(chart, known, n) matches Err(fault) ==> exists|r: int|
            0 <= r < n && true_fault(chart, known, #[trigger] chart.roots[r], fault),
    decreases n,
{
    if n > 0 {
        law_full_recursion_reports_the_truth(chart, known, n - 1);
        let root = chart.roots[n - 1];
        let path = seq![root];
        let none = Seq::<Source>::empty();
        assert(fresh_path(chart, path, none));
        lemma_climb_all_truth(chart, known, path, none, none);
        assert(path[0] == chart.roots[n - 1]);
    }
}

/// A walk that takes all back-pointers of an item takes each of them, where none has been taken
/// before; so one that fails below makes it fail.
proof fn lemma_climb_all_fails(
    chart: Chart,
    known: Set<Seq<char>>,
    rank: spec_fn(int) -> nat,
    path: Seq<int>,
    n: int,
    explored: Seq<Source>,
)
    requires
        chart.wf(),
        language::tidy(chart.items),
        language::founded(chart.items),
        complete::ranked(chart, rank),
        any_path(chart, path),
        0 <= path[n] < chart.items.len(),
        path.len() - 1 >= 100,
        0 <= n <= 100,
        complete::untaken(chart, rank, explored, rank(path[n])),
    ensures
        climb::climb_all(chart, known, path[n], n, explored) is Err,
    decreases 100 - n, chart.items[path[n]].sources.len() + 2,
{
    if n < 100 {
        assert(steps_down(chart, path[n], path[n + 1]));
        let k = choose|k: int|
            0 <= k < chart.items[path[n]].sources.len() && points_to(
                #[trigger] chart.items[path[n]].sources[k],
                path[n + 1],
            );
        lemma_climb_from_fails(chart, known, rank, path, n, explored, 0, k);
    }
}

proof fn lemma_climb_from_fails(
    chart: Chart,
    known: Set<Seq<char>>,
    rank: spec_fn(int) -> nat,
    path: Seq<int>,
    n: int,
    explored: Seq<Source>,
    m: int,
    k: int,
)
    requires
        chart.wf(),
        language::tidy(chart.items),
        language::founded(chart.items),
        complete::ranked(chart, rank),
        any_path(chart, path),
        0 <= path[n] < chart.items.len(),
        path.len() - 1 >= 100,
        0 <= n < 100,
        0 <= m <= k < chart.items[path[n]].sources.len(),
        points_to(chart.items[path[n]].sources[k], path[n + 1]),
        complete::untaken_below(chart, rank, explored, path[n], m),
    ensures
        climb::climb_from(chart, known, path[n], n, explored, m) is Err,
    decreases 100 - n, chart.items[path[n]].sources.len() - m + 1,
{
    let i = path[n];
    let sources = chart.items[i].sources;
    assert(chart.item_ok(i));
    let taken = explored.push(sources[m]);
    assert(!explored.contains(sources[m])) by {
        if explored.contains(sources[m]) {
            let j = explored.index_of(sources[m]);
            assert(explored[j] != sources[m]);
        }
    }
    complete::lemma_taken(chart, rank, explored, i, m);
    if m < k {
        lemma_climb_from_fails(chart, known, rank, path, n, taken, m + 1, k);
    } else {
        assert(chart.source_ok(i, sources[k]));
        let to = path[n + 1];
        assert(complete::untaken(chart, rank, taken, rank(to)));
        lemma_climb_all_fails(chart, known, rank, path, n + 1, taken);
        if let Source::Completion { from, by } = sources[k] {
            if to != from {
                if let Ok(lefts) = climb::climb_all(chart, known, from, n + 1, taken) {
                    let before = language::lemma_derives_some(chart, from);
                    assert(complete::untaken(chart, rank, taken, rank(from)));
                    complete::lemma_climb_finds(chart, known, rank, from, n + 1, taken, before);
                    assert(lefts.contains(climb::wrapped(chart, from, before)));
                    assert(lefts.len() > 0);
                }
            }
        }
        assert(climb::climb_here(chart, known, i, n, taken, k) is Err);
    }
}

/// On charts of a parse without cycles, a way down from a root that takes a hundred steps makes
/// the walk by recursion over all back-pointers fail.
pub proof fn law_full_recursion_fails_where_it_is_deep<P: Fn(&str) -> bool>(
    chart: Chart,
    g: GrammarModel<P>,
    tokens: Seq<Seq<char>>,
    known: Set<Seq<char>>,
    rank: spec_fn(int) -> nat,
    n: int,
    r: int,
)
    requires
        language::charts(chart, g, tokens),
        g.rules.no_duplicates(),
        complete::ranked(chart, rank),
        0 <= r < n <= chart.roots.len(),
        !shallow_everywhere(chart, chart.roots[r]),
    ensures
        climb::climb_roots(chart, known, n) is Err,
    decreases n,
{
    if r == n - 1 {
        let path = choose|path: Seq<int>| #[trigger]
            any_path(chart, path) && path[0] == chart.roots[r] && path.len() - 1 >= 100;
        lemma_climb_all_fails(chart, known, rank, path, 0, Seq::empty());
    } else {
        law_full_recursion_fails_where_it_is_deep(chart, g, tokens, known, rank, n - 1, r);
    }
}

} // verus!
