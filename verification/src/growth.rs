//! How a chart grows while tokens are read.

use vstd::prelude::*;

use crate::enumeration;
use crate::grammar::{GrammarModel, RuleModel};
use crate::language;
use crate::spans;
use crate::spans::{Item, Source, Span};

verus! {

/// The items are the same but for their back-pointers.
pub open spec fn same_key(a: Item, b: Item) -> bool {
    a.rule == b.rule && a.dot == b.dot && a.start == b.start && a.end == b.end
}

/// `b` has the items of `a`, with their back-pointers, and perhaps more of both.
pub open spec fn grows(a: Seq<Item>, b: Seq<Item>) -> bool {
    &&& a.len() <= b.len()
    &&& forall|i: int|
        0 <= i < a.len() ==> {
            &&& same_key(#[trigger] a[i], b[i])
            &&& a[i].sources.len() <= b[i].sources.len()
            &&& forall|k: int|
                0 <= k < a[i].sources.len() ==> #[trigger] a[i].sources[k] == b[i].sources[k]
        }
}

/// What has not changed has grown, by nothing.
pub proof fn lemma_grows_self(a: Seq<Item>)
    ensures
        grows(a, a),
{
}

pub proof fn lemma_grows_twice(a: Seq<Item>, b: Seq<Item>, c: Seq<Item>)
    requires
        grows(a, b),
        grows(b, c),
    ensures
        grows(a, c),
{
    assert forall|i: int| 0 <= i < a.len() implies {
        &&& same_key(#[trigger] a[i], c[i])
        &&& a[i].sources.len() <= c[i].sources.len()
        &&& forall|k: int|
            0 <= k < a[i].sources.len() ==> #[trigger] a[i].sources[k] == c[i].sources[k]
    } by {
        assert(same_key(b[i], c[i]));
        assert forall|k: int| 0 <= k < a[i].sources.len() implies #[trigger] a[i].sources[k]
            == c[i].sources[k] by {
            assert(b[i].sources[k] == c[i].sources[k]);
        }
    }
}

/// A back-pointer that leads somewhere still does.
pub proof fn lemma_leads_grown<P: Fn(&str) -> bool>(
    a: Seq<Item>,
    b: Seq<Item>,
    g: GrammarModel<P>,
    tokens: Seq<Seq<char>>,
    item: Item,
    later: Item,
    src: Source,
)
    requires
        grows(a, b),
        same_key(item, later),
        spans::leads_to(a, item, src),
    ensures
        spans::leads_to(b, later, src),
        language::source_supported(a, g, tokens, item, src) ==> language::source_supported(
            b,
            g,
            tokens,
            later,
            src,
        ),
{
    match src {
        Source::Completion { from, by } => {
            assert(same_key(a[from], b[from]));
            assert(same_key(a[by], b[by]));
        },
        Source::Scan { from, .. } => {
            assert(same_key(a[from], b[from]));
        },
    }
}

/// An item that is there still is.
pub proof fn lemma_holds_grown(
    a: Seq<Item>,
    b: Seq<Item>,
    rule: RuleModel,
    dot: int,
    start: int,
    end: int,
)
    requires
        grows(a, b),
        language::holds(a, rule, dot, start, end),
    ensures
        language::holds(b, rule, dot, start, end),
{
    let j = choose|j: int|
        0 <= j < a.len() && language::is_at(#[trigger] a[j], rule, dot, start, end);
    assert(same_key(a[j], b[j]));
}

/// An item that has been moved still has.
pub proof fn lemma_moved_grown(a: Seq<Item>, b: Seq<Item>, p: int, end: int, src: Source)
    requires
        grows(a, b),
        0 <= p < a.len(),
        language::moved(a, p, end, src),
    ensures
        language::moved(b, p, end, src),
{
    let j = choose|j: int|
        0 <= j < a.len() && language::is_at(
            #[trigger] a[j],
            a[p].rule,
            a[p].dot + 1,
            a[p].start,
            end,
        ) && a[j].sources.contains(src);
    assert(same_key(a[p], b[p]));
    assert(same_key(a[j], b[j]));
    let k = a[j].sources.index_of(src);
    assert(a[j].sources[k] == b[j].sources[k]);
}

/// The first `n` items have been predicted from, and completed with one another.
pub open spec fn worked_off<P: Fn(&str) -> bool>(
    items: Seq<Item>,
    g: GrammarModel<P>,
    n: int,
) -> bool {
    &&& forall|i: int| 0 <= i < n ==> #[trigger] language::predicted(items, g, i)
    &&& forall|p: int, c: int|
        0 <= p < n && 0 <= c < n ==> #[trigger] language::completed(items, g, p, c)
}

/// The first `n` items have been moved over the tokens behind them.
pub open spec fn read_on<P: Fn(&str) -> bool>(
    items: Seq<Item>,
    g: GrammarModel<P>,
    tokens: Seq<Seq<char>>,
    n: int,
) -> bool {
    forall|i: int| 0 <= i < n ==> #[trigger] language::scanned(items, g, tokens, i)
}

/// The rules of the start symbol are there.
pub open spec fn begun<P: Fn(&str) -> bool>(items: Seq<Item>, g: GrammarModel<P>) -> bool {
    forall|r: int|
        0 <= r < g.rules.len() && (#[trigger] g.rules[r]).head == g.start ==> language::holds(
            items,
            g.rules[r],
            0,
            0,
            0,
        )
}

pub proof fn lemma_predicted_grown<P: Fn(&str) -> bool>(
    a: Seq<Item>,
    b: Seq<Item>,
    g: GrammarModel<P>,
    i: int,
)
    requires
        grows(a, b),
        0 <= i < a.len(),
        language::predicted(a, g, i),
    ensures
        language::predicted(b, g, i),
{
    assert(same_key(a[i], b[i]));
    if !b[i].complete() && g.is_nonterm(b[i].next_symbol()) {
        assert forall|r: int|
            0 <= r < g.rules.len() && (#[trigger] g.rules[r]).head
                == b[i].next_symbol() implies language::holds(
            b,
            g.rules[r],
            0,
            b[i].end,
            b[i].end,
        ) by {
            lemma_holds_grown(a, b, g.rules[r], 0, a[i].end, a[i].end);
        }
    }
}

pub proof fn lemma_completed_grown<P: Fn(&str) -> bool>(
    a: Seq<Item>,
    b: Seq<Item>,
    g: GrammarModel<P>,
    p: int,
    c: int,
)
    requires
        grows(a, b),
        0 <= p < a.len(),
        0 <= c < a.len(),
        language::completed(a, g, p, c),
    ensures
        language::completed(b, g, p, c),
{
    assert(same_key(a[p], b[p]));
    assert(same_key(a[c], b[c]));
    if language::moved(a, p, a[c].end, Source::Completion { from: p, by: c }) {
        lemma_moved_grown(a, b, p, a[c].end, Source::Completion { from: p, by: c });
    }
}

/// What has been done stays done.
pub proof fn lemma_done_grown<P: Fn(&str) -> bool>(
    a: Seq<Item>,
    b: Seq<Item>,
    g: GrammarModel<P>,
    tokens: Seq<Seq<char>>,
    n: int,
    m: int,
)
    requires
        grows(a, b),
        n <= a.len(),
        m <= a.len(),
    ensures
        worked_off(a, g, n) ==> worked_off(b, g, n),
        read_on(a, g, tokens, m) ==> read_on(b, g, tokens, m),
        begun(a, g) ==> begun(b, g),
{
    if worked_off(a, g, n) {
        assert forall|i: int| 0 <= i < n implies #[trigger] language::predicted(b, g, i) by {
            assert(language::predicted(a, g, i));
            lemma_predicted_grown(a, b, g, i);
        }
        assert forall|p: int, c: int| 0 <= p < n && 0 <= c < n implies #[trigger] language::completed(
            b,
            g,
            p,
            c,
        ) by {
            assert(language::completed(a, g, p, c));
            lemma_completed_grown(a, b, g, p, c);
        }
    }
    if read_on(a, g, tokens, m) {
        assert forall|i: int| 0 <= i < m implies #[trigger] language::scanned(b, g, tokens, i) by {
            assert(language::scanned(a, g, tokens, i));
            assert(same_key(a[i], b[i]));
            let src = Source::Scan { from: i, token: tokens[a[i].end] };
            if language::moved(a, i, a[i].end + 1, src) {
                lemma_moved_grown(a, b, i, a[i].end + 1, src);
            }
        }
    }
    if begun(a, g) {
        assert forall|r: int|
            0 <= r < g.rules.len() && (#[trigger] g.rules[r]).head
                == g.start implies language::holds(b, g.rules[r], 0, 0, 0) by {
            lemma_holds_grown(a, b, g.rules[r], 0, 0, 0);
        }
    }
}

/// The spans are the same but for their back-pointers.
pub open spec fn same_span(a: Span, b: Span) -> bool {
    a.rule == b.rule && a.dot == b.dot && a.start == b.start && a.end == b.end
}

/// No two spans are the same.
pub open spec fn unique(list: Seq<Span>) -> bool {
    forall|a: int, b: int|
        #![trigger list[a], list[b]]
        0 <= a < b < list.len() ==> !same_span(list[a], list[b])
}

/// The number of symbols of the longest rule.
pub open spec fn longest(rules: Seq<RuleModel>) -> nat
    decreases rules.len(),
{
    if rules.len() == 0 {
        0
    } else if rules.last().spec.len() > longest(rules.drop_last()) {
        rules.last().spec.len()
    } else {
        longest(rules.drop_last())
    }
}

proof fn lemma_longest(rules: Seq<RuleModel>, r: int)
    requires
        0 <= r < rules.len(),
    ensures
        rules[r].spec.len() <= longest(rules),
    decreases rules.len(),
{
    if r < rules.len() - 1 {
        lemma_longest(rules.drop_last(), r);
        assert(rules.drop_last()[r] == rules[r]);
    }
}

/// A number for the span among those that end where it does.
spec fn code(span: Span, rules: int, dots: int) -> int {
    (span.start * rules + span.rule) * dots + span.dot
}

proof fn lemma_pairs(x: int, y: int, a: int, b: int, n: int)
    requires
        0 <= a < n,
        0 <= b < n,
        x * n + a == y * n + b,
    ensures
        x == y,
        a == b,
{
    assert(x == y) by (nonlinear_arith)
        requires
            0 <= a < n,
            0 <= b < n,
            x * n + a == y * n + b,
    ;
}

proof fn lemma_pair_bound(x: int, a: int, m: int, n: int)
    requires
        0 <= x < m,
        0 <= a < n,
    ensures
        0 <= x * n + a < m * n,
{
    assert(0 <= x * n + a < m * n) by (nonlinear_arith)
        requires
            0 <= x < m,
            0 <= a < n,
    ;
}

/// How many spans can end at one place.
pub open spec fn column_bound(rules: Seq<RuleModel>, end: int) -> int {
    (end + 1) * rules.len() * (longest(rules) + 1)
}

/// No more spans end at one place than can.
pub proof fn lemma_column_bound(list: Seq<Span>, lo: int, end: int, rules: Seq<RuleModel>)
    requires
        unique(list),
        0 <= lo <= list.len(),
        0 <= end,
        forall|i: int|
            lo <= i < list.len() ==> {
                let span = #[trigger] list[i];
                &&& span.end == end
                &&& span.start <= end
                &&& span.rule < rules.len()
                &&& span.dot <= rules[span.rule as int].spec.len()
            },
    ensures
        list.len() - lo <= column_bound(rules, end),
{
    let n = rules.len() as int;
    let dots = longest(rules) as int + 1;
    let codes = Seq::new((list.len() - lo) as nat, |k: int| code(list[lo + k], n, dots));
    assert forall|k: int| 0 <= k < codes.len() implies 0 <= #[trigger] codes[k] < column_bound(
        rules,
        end,
    ) by {
        let span = list[lo + k];
        lemma_longest(rules, span.rule as int);
        lemma_pair_bound(span.start as int, span.rule as int, end + 1, n);
        lemma_pair_bound(
            span.start * n + span.rule,
            span.dot as int,
            (end + 1) * n,
            dots,
        );
    }
    assert forall|a: int, b: int| 0 <= a < codes.len() && 0 <= b < codes.len() && a
        != b implies codes[a] != codes[b] by {
        let x = list[lo + a];
        let y = list[lo + b];
        lemma_longest(rules, x.rule as int);
        lemma_longest(rules, y.rule as int);
        if codes[a] == codes[b] {
            lemma_pairs(
                x.start * n + x.rule,
                y.start * n + y.rule,
                x.dot as int,
                y.dot as int,
                dots,
            );
            lemma_pairs(x.start as int, y.start as int, x.rule as int, y.rule as int, n);
            assert(same_span(x, y));
            if a < b {
                assert(!same_span(list[lo + a], list[lo + b]));
            } else {
                assert(!same_span(list[lo + b], list[lo + a]));
            }
        }
    }
    assert(0 <= column_bound(rules, end)) by (nonlinear_arith)
        requires
            n >= 0,
            dots >= 0,
            end >= 0,
            column_bound(rules, end) == (end + 1) * n * dots,
    ;
    enumeration::lemma_pigeonhole(codes, column_bound(rules, end));
}

} // verus!
