//! The parser: fills a chart, column by column.

use vstd::prelude::*;
use vstd::string::*;

use crate::derivation::Tree;
use crate::grammar;
use crate::grammar::{Grammar, GrammarModel};
use crate::growth;
use crate::language;
use crate::rewriting;
use crate::spans;
use crate::spans::{Item, ParseTrees, Source, Span, SpanSource};
use crate::text;

verus! {

/// What holds of the chart at all times.
pub open spec fn sane<P: Fn(&str) -> bool>(
    pt: ParseTrees,
    g: GrammarModel<P>,
    tokens: Seq<Seq<char>>,
) -> bool {
    &&& pt.wf()
    &&& pt.roots@.len() == 0
    &&& grammar::rule_views(pt.rules@) == g.rules
    &&& language::supported(pt@.items, g, tokens)
    &&& language::founded(pt@.items)
    &&& growth::unique(pt.spans@)
    &&& forall|i: int| 0 <= i < pt@.items.len() ==> (#[trigger] pt@.items[i]).sources.no_duplicates()
}

/// The span without its back-pointers.
spec fn bare(pt: ParseTrees, rule: usize, dot: usize, start: usize, end: usize) -> Item {
    Item {
        rule: pt.rules@[rule as int]@,
        dot: dot as int,
        start: start as int,
        end: end as int,
        sources: Seq::empty(),
    }
}

/// The chart with one more back-pointer at one item is as sound as before.
proof fn lemma_more_sources<P: Fn(&str) -> bool>(
    pt: ParseTrees,
    later: ParseTrees,
    g: GrammarModel<P>,
    tokens: Seq<Seq<char>>,
    j: int,
    src: Source,
)
    requires
        sane(pt, g, tokens),
        0 <= j < pt.spans@.len(),
        later.rules == pt.rules,
        later.roots == pt.roots,
        later.spans@.len() == pt.spans@.len(),
        forall|i: int|
            0 <= i < pt.spans@.len() && i != j ==> #[trigger] later.spans@[i] == pt.spans@[i],
        growth::same_span(pt.spans@[j], later.spans@[j]),
        later@.items[j].sources == pt@.items[j].sources.push(src),
        pt@.items[j].sources.len() > 0,
        spans::leads_to(pt@.items, pt@.items[j], src),
        language::source_supported(pt@.items, g, tokens, pt@.items[j], src),
        !pt@.items[j].sources.contains(src),
    ensures
        sane(later, g, tokens),
        growth::grows(pt@.items, later@.items),
{
    let a = pt@.items;
    let b = later@.items;
    assert forall|i: int| 0 <= i < a.len() implies {
        &&& growth::same_key(#[trigger] a[i], b[i])
        &&& a[i].sources.len() <= b[i].sources.len()
        &&& forall|k: int|
            0 <= k < a[i].sources.len() ==> #[trigger] a[i].sources[k] == b[i].sources[k]
    } by {
        if i != j {
            assert(later.spans@[i] == pt.spans@[i]);
        }
    }
    assert(growth::grows(a, b));
    assert forall|i: int| 0 <= i < b.len() implies #[trigger] later@.item_ok(i)
        && language::item_supported(b, g, tokens, i) by {
        assert(pt@.item_ok(i));
        assert(language::item_supported(a, g, tokens, i));
        assert(growth::same_key(a[i], b[i]));
        assert forall|k: int| 0 <= k < b[i].sources.len() implies spans::leads_to(
            b,
            b[i],
            #[trigger] b[i].sources[k],
        ) && language::source_supported(b, g, tokens, b[i], b[i].sources[k]) by {
            if i != j {
                assert(later.spans@[i] == pt.spans@[i]);
            }
            if k < a[i].sources.len() {
                assert(a[i].sources[k] == b[i].sources[k]);
                assert(pt@.source_ok(i, a[i].sources[k]));
            }
            growth::lemma_leads_grown(a, b, g, tokens, a[i], b[i], b[i].sources[k]);
        }
    }
    assert(language::supported(b, g, tokens)) by {
        assert forall|i: int| 0 <= i < b.len() implies #[trigger] language::item_supported(
            b,
            g,
            tokens,
            i,
        ) by {
            assert(later@.item_ok(i));
        }
    }
    assert forall|i: int|
        #![trigger b[i]]
        0 <= i < b.len() && b[i].sources.len() > 0 implies match b[i].sources[0] {
        Source::Scan { from, .. } => from < i,
        Source::Completion { from, by } => from < i && by < i,
    } by {
        assert(growth::same_key(a[i], b[i]));
        if i != j {
            assert(later.spans@[i] == pt.spans@[i]);
        }
        assert(a[i].sources[0] == b[i].sources[0]);
    }
    assert forall|i: int| 0 <= i < b.len() implies (#[trigger] b[i]).sources.no_duplicates() by {
        assert(a[i].sources.no_duplicates());
        if i != j {
            assert(later.spans@[i] == pt.spans@[i]);
        } else {
            assert forall|x: int, y: int|
                0 <= x < b[j].sources.len() && 0 <= y < b[j].sources.len() && x != y implies
                b[j].sources[x] != b[j].sources[y] by {
                if x == a[j].sources.len() {
                    assert(a[j].sources[y] != src);
                } else if y == a[j].sources.len() {
                    assert(a[j].sources[x] != src);
                }
            }
        }
    }
    assert forall|i: int| 0 <= i < later.spans@.len() implies (#[trigger] later.spans@[i]).rule
        < later.rules@.len() by {
        assert(pt.spans@[i].rule < pt.rules@.len());
    }
    assert forall|x: int, y: int|
        #![trigger later.spans@[x], later.spans@[y]]
        0 <= x < y < later.spans@.len() implies !growth::same_span(
        later.spans@[x],
        later.spans@[y],
    ) by {
        assert(!growth::same_span(pt.spans@[x], pt.spans@[y]));
    }
}

/// The chart with one more item is as sound as before.
proof fn lemma_more_items<P: Fn(&str) -> bool>(
    pt: ParseTrees,
    later: ParseTrees,
    g: GrammarModel<P>,
    tokens: Seq<Seq<char>>,
)
    requires
        sane(pt, g, tokens),
        later.rules == pt.rules,
        later.roots == pt.roots,
        later.spans@.len() == pt.spans@.len() + 1,
        forall|i: int|
            0 <= i < pt.spans@.len() ==> #[trigger] later.spans@[i] == pt.spans@[i],
        forall|i: int|
            0 <= i < pt.spans@.len() ==> !growth::same_span(
                #[trigger] pt.spans@[i],
                later.spans@.last(),
            ),
        later.spans@.last().rule < pt.rules@.len(),
        ({
            let item = later@.items.last();
            &&& 0 <= item.dot <= item.rule.spec.len()
            &&& item.dot == 0 <==> item.sources.len() == 0
            &&& item.dot == 0 ==> item.start == item.end
            &&& item.start <= item.end <= tokens.len()
            &&& item.sources.len() <= 1
            &&& item.sources.len() > 0 ==> {
                &&& spans::leads_to(pt@.items, item, item.sources[0])
                &&& language::source_supported(pt@.items, g, tokens, item, item.sources[0])
            }
        }),
    ensures
        sane(later, g, tokens),
        growth::grows(pt@.items, later@.items),
{
    let a = pt@.items;
    let b = later@.items;
    let n = a.len() as int;
    assert forall|i: int| 0 <= i < a.len() implies a[i] == #[trigger] b[i] by {
        assert(later.spans@[i] == pt.spans@[i]);
    }
    assert(growth::grows(a, b));
    assert(g.rules.contains(b[n].rule)) by {
        assert(g.rules[later.spans@[n].rule as int] == b[n].rule);
    }
    assert forall|i: int| 0 <= i < b.len() implies #[trigger] later@.item_ok(i)
        && language::item_supported(b, g, tokens, i) by {
        if i < n {
            assert(pt@.item_ok(i));
            assert(language::item_supported(a, g, tokens, i));
            assert(a[i] == b[i]);
        }
        assert forall|k: int| 0 <= k < b[i].sources.len() implies spans::leads_to(
            b,
            b[i],
            #[trigger] b[i].sources[k],
        ) && language::source_supported(b, g, tokens, b[i], b[i].sources[k]) by {
            if i < n {
                assert(pt@.source_ok(i, a[i].sources[k]));
            }
            growth::lemma_leads_grown(a, b, g, tokens, b[i], b[i], b[i].sources[k]);
        }
    }
    assert(language::supported(b, g, tokens)) by {
        assert forall|i: int| 0 <= i < b.len() implies #[trigger] language::item_supported(
            b,
            g,
            tokens,
            i,
        ) by {
            assert(later@.item_ok(i));
        }
    }
    assert forall|i: int|
        #![trigger b[i]]
        0 <= i < b.len() && b[i].sources.len() > 0 implies match b[i].sources[0] {
        Source::Scan { from, .. } => from < i,
        Source::Completion { from, by } => from < i && by < i,
    } by {
        if i < n {
            assert(a[i] == b[i]);
        }
    }
    assert forall|i: int| 0 <= i < b.len() implies (#[trigger] b[i]).sources.no_duplicates() by {
        if i < n {
            assert(a[i] == b[i]);
        }
    }
    assert forall|i: int| 0 <= i < later.spans@.len() implies (#[trigger] later.spans@[i]).rule
        < later.rules@.len() by {
        if i < n {
            assert(pt.spans@[i].rule < pt.rules@.len());
        }
    }
    assert forall|x: int, y: int|
        #![trigger later.spans@[x], later.spans@[y]]
        0 <= x < y < later.spans@.len() implies !growth::same_span(
        later.spans@[x],
        later.spans@[y],
    ) by {
        assert(later.spans@[x] == pt.spans@[x]);
        if y < n {
            assert(!growth::same_span(pt.spans@[x], pt.spans@[y]));
        }
    }
}

/// Puts a span into the last column, which starts at `lo`, unless it is there, and adds the
/// back-pointer to it, unless it has that.
fn place<P: Fn(&str) -> bool>(
    pt: &mut ParseTrees,
    lo: usize,
    rule: usize,
    dot: usize,
    start: usize,
    end: usize,
    source: Option<SpanSource>,
    Ghost(g): Ghost<GrammarModel<P>>,
    Ghost(tokens): Ghost<Seq<Seq<char>>>,
) -> (j: usize)
    requires
        sane(*old(pt), g, tokens),
        lo <= old(pt).spans@.len(),
        forall|i: int| lo <= i < old(pt).spans@.len() ==> (#[trigger] old(pt).spans@[i]).end == end,
        forall|i: int| 0 <= i < lo ==> (#[trigger] old(pt).spans@[i]).end != end,
        rule < old(pt).rules@.len(),
        dot <= old(pt).rules@[rule as int]@.spec.len(),
        start <= end <= tokens.len(),
        dot == 0 <==> source is None,
        dot == 0 ==> start == end,
        source matches Some(src) ==> {
            &&& spans::leads_to(old(pt)@.items, bare(*old(pt), rule, dot, start, end), src@)
            &&& language::source_supported(
                old(pt)@.items,
                g,
                tokens,
                bare(*old(pt), rule, dot, start, end),
                src@,
            )
        },
    ensures
        sane(*final(pt), g, tokens),
        final(pt).rules == old(pt).rules,
        growth::grows(old(pt)@.items, final(pt)@.items),
        lo <= j < final(pt).spans@.len(),
        language::is_at(
            final(pt)@.items[j as int],
            old(pt).rules@[rule as int]@,
            dot as int,
            start as int,
            end as int,
        ),
        source matches Some(src) ==> final(pt)@.items[j as int].sources.contains(src@),
        forall|i: int|
            lo <= i < final(pt).spans@.len() ==> (#[trigger] final(pt).spans@[i]).end == end,
{
    let ghost before = *pt;
    let mut j: usize = lo;
    while j < pt.spans.len()
        invariant
            *pt == before,
            *old(pt) == before,
            sane(before, g, tokens),
            lo <= j <= pt.spans@.len(),
            forall|i: int| lo <= i < before.spans@.len() ==> (#[trigger] before.spans@[i]).end == end,
            forall|i: int|
                lo <= i < j ==> !((#[trigger] before.spans@[i]).rule == rule && before.spans@[i].dot
                    == dot && before.spans@[i].start == start),
            rule < before.rules@.len(),
            dot == 0 <==> source is None,
            source matches Some(src) ==> {
                &&& spans::leads_to(before@.items, bare(before, rule, dot, start, end), src@)
                &&& language::source_supported(
                    before@.items,
                    g,
                    tokens,
                    bare(before, rule, dot, start, end),
                    src@,
                )
            },
        decreases pt.spans.len() - j,
    {
        if pt.spans[j].rule == rule && pt.spans[j].dot == dot && pt.spans[j].start == start {
            proof {
                let item = before@.items[j as int];
                assert(before@.item_ok(j as int));
                assert(language::is_at(
                    item,
                    before.rules@[rule as int]@,
                    dot as int,
                    start as int,
                    end as int,
                ));
                assert forall|i: int| 0 <= i < before@.items.len() implies growth::same_key(
                    #[trigger] before@.items[i],
                    before@.items[i],
                ) by {}
                assert(growth::grows(before@.items, before@.items));
            }
            match source {
                None => {},
                Some(src) => {
                    if !spans::holds_source(&pt.spans[j].sources, &src) {
                        let ghost view = src@;
                        let ghost bare_item = bare(before, rule, dot, start, end);
                        proof {
                            growth::lemma_leads_grown(
                                before@.items,
                                before@.items,
                                g,
                                tokens,
                                bare_item,
                                before@.items[j as int],
                                view,
                            );
                        }
                        let span = &mut pt.spans[j];
                        span.sources.push(src);
                        proof {
                            assert(pt@.items[j as int].sources
                                =~= before@.items[j as int].sources.push(view));
                            lemma_more_sources(before, *pt, g, tokens, j as int, view);
                            let all = pt@.items[j as int].sources;
                            assert(all[all.len() - 1] == view);
                            assert forall|i: int| lo <= i < pt.spans@.len() implies (
                            #[trigger] pt.spans@[i]).end == end by {
                                assert(before.spans@[i].end == end);
                            }
                        }
                    }
                },
            }
            return j;
        }
        j = j + 1;
    }
    let mut sources: Vec<SpanSource> = Vec::new();
    let ghost given = source;
    match source {
        None => {},
        Some(src) => {
            sources.push(src);
        },
    }
    let span = Span { rule, dot, start, end, sources };
    pt.spans.push(span);
    proof {
        let item = pt@.items.last();
        assert(pt.spans@.last() == span);
        if let Some(src) = given {
            assert(item.sources =~= seq![src@]);
            assert(item.sources[0] == src@);
            growth::lemma_leads_grown(
                before@.items,
                before@.items,
                g,
                tokens,
                bare(before, rule, dot, start, end),
                item,
                src@,
            );
        }
        assert forall|i: int| 0 <= i < before.spans@.len() implies !growth::same_span(
            #[trigger] before.spans@[i],
            pt.spans@.last(),
        ) by {}
        lemma_more_items(before, *pt, g, tokens);
    }
    j
}

/// The spans are in columns: column `c` holds those that end at `c`, and `cols[c]` is where it
/// starts. The last column goes to the end.
spec fn in_columns(list: Seq<Span>, cols: Seq<usize>) -> bool {
    let e = cols.len() - 1;
    &&& cols.len() > 0
    &&& forall|a: int, b: int| 0 <= a <= b < cols.len() ==> cols[a] <= cols[b]
    &&& cols[e] <= list.len()
    &&& forall|i: int|
        #![trigger list[i]]
        0 <= i < list.len() ==> {
            &&& list[i].end <= e
            &&& list[i].end == e <==> i >= cols[e]
            &&& list[i].end < e ==> cols[list[i].end as int] <= i < cols[list[i].end + 1]
        }
}

/// Columns stay columns where only the last one grows.
proof fn lemma_columns_grown(a: ParseTrees, b: ParseTrees, cols: Seq<usize>)
    requires
        in_columns(a.spans@, cols),
        growth::grows(a@.items, b@.items),
        forall|i: int|
            cols[cols.len() - 1] <= i < b.spans@.len() ==> (#[trigger] b.spans@[i]).end
                == cols.len() - 1,
    ensures
        in_columns(b.spans@, cols),
{
    let e = cols.len() - 1;
    assert forall|i: int|
        #![trigger b.spans@[i]]
        0 <= i < b.spans@.len() implies {
        &&& b.spans@[i].end <= e
        &&& b.spans@[i].end == e <==> i >= cols[e]
        &&& b.spans@[i].end < e ==> cols[b.spans@[i].end as int] <= i < cols[b.spans@[i].end + 1]
    } by {
        if i < a.spans@.len() {
            assert(growth::same_key(a@.items[i], b@.items[i]));
            assert(a@.items[i].end == a.spans@[i].end);
            assert(b@.items[i].end == b.spans@[i].end);
        }
    }
}

/// Parses token streams by a grammar.
pub struct EarleyParser<P> {
    pub grammar: Grammar<P>,
}

impl<P: Fn(&str) -> bool> EarleyParser<P> {
    /// A parser for the grammar.
    pub fn new(grammar: Grammar<P>) -> (parser: Self)
        ensures
            parser.grammar == grammar,
    {
        EarleyParser { grammar }
    }

    /// What holds of the chart while the last of the columns is worked on.
    spec fn at_work(self, pt: ParseTrees, cols: Seq<usize>, tokens: Seq<Seq<char>>) -> bool {
        &&& sane(pt, self.grammar@, tokens)
        &&& in_columns(pt.spans@, cols)
        &&& cols.len() <= tokens.len() + 1
        &&& growth::begun(pt@.items, self.grammar@)
    }

    /// Moves every span that waits for the rule of the complete span `k`.
    fn complete(&self, pt: &mut ParseTrees, cols: &Vec<usize>, k: usize, tokens: &Vec<String>)
        requires
            self.at_work(*old(pt), cols@, text::views(tokens@)),
            cols@[cols@.len() - 1] <= k < old(pt).spans@.len(),
            old(pt)@.items[k as int].complete(),
        ensures
            self.at_work(*final(pt), cols@, text::views(tokens@)),
            final(pt).rules == old(pt).rules,
            growth::grows(old(pt)@.items, final(pt)@.items),
            forall|p: int|
                0 <= p < k ==> #[trigger] language::completed(
                    final(pt)@.items,
                    self.grammar@,
                    p,
                    k as int,
                ),
    {
        let e: usize = cols.len() - 1;
        let ghost g = self.grammar@;
        let ghost words = text::views(tokens@);
        let ghost first = *pt;
        proof {
            assert(first@.item_ok(k as int));
            assert(language::item_supported(first@.items, g, words, k as int));
            assert(first@.items[k as int].start == first.spans@[k as int].start);
            assert(first@.items[k as int].end == first.spans@[k as int].end);
            growth::lemma_grows_self(first@.items);
        }
        let s = pt.spans[k].start;
        let head = pt.rules[pt.spans[k].rule].head.clone();
        let to: usize = if s < e {
            cols[s + 1]
        } else {
            k
        };
        let mut p: usize = cols[s];
        while p < to
            invariant
                self.at_work(*pt, cols@, words),
                self.at_work(first, cols@, words),
                words == text::views(tokens@),
                g == self.grammar@,
                e == cols@.len() - 1,
                pt.rules == first.rules,
                growth::grows(first@.items, pt@.items),
                cols@[e as int] <= k < first.spans@.len(),
                first@.items[k as int].complete(),
                first@.items[k as int].start == s,
                first@.items[k as int].end == e,
                first@.items[k as int].rule.head == head@,
                s <= e,
                e <= words.len(),
                cols@[s as int] <= p,
                p <= to || p == cols@[s as int],
                to <= k,
                to == if s < e {
                    cols@[s + 1]
                } else {
                    k
                },
                forall|q: int|
                    cols@[s as int] <= q < p ==> #[trigger] language::completed(
                        pt@.items,
                        g,
                        q,
                        k as int,
                    ),
            decreases to - p,
        {
            let ghost before = *pt;
            proof {
                assert(growth::same_key(first@.items[k as int], before@.items[k as int]));
                assert(before@.item_ok(p as int));
                assert(language::item_supported(before@.items, g, words, p as int));
                assert(before@.items[p as int].end == before.spans@[p as int].end);
                assert(before.spans@[p as int].rule < before.rules@.len());
                growth::lemma_grows_self(before@.items);
            }
            let waits = match pt.next_symbol(p) {
                Some(symbol) => *symbol == head,
                None => false,
            };
            if waits && self.grammar.is_nonterm(&head) {
                let rule = pt.spans[p].rule;
                proof {
                    let spec = before.rules@[rule as int].spec;
                    assert(before@.items[p as int].rule.spec.len() == spec.len());
                }
                let dot = pt.spans[p].dot + 1;
                let start = pt.spans[p].start;
                let src = SpanSource::Completion(p, k);
                proof {
                    let item = bare(before, rule, dot, start, e);
                    assert(before.spans@[p as int].end == s);
                    assert(before@.items[p as int].rule == before.rules@[rule as int]@);
                    assert(spans::leads_to(before@.items, item, src@));
                }
                let j = place::<P>(pt, cols[e], rule, dot, start, e, Some(src), Ghost(g), Ghost(words));
                proof {
                    growth::lemma_grows_twice(first@.items, before@.items, pt@.items);
                    lemma_columns_grown(before, *pt, cols@);
                    growth::lemma_done_grown(before@.items, pt@.items, g, words, 0, 0);
                    assert(growth::same_key(before@.items[p as int], pt@.items[p as int]));
                    assert(growth::same_key(before@.items[k as int], pt@.items[k as int]));
                    assert(language::is_at(
                        pt@.items[j as int],
                        pt@.items[p as int].rule,
                        pt@.items[p as int].dot + 1,
                        pt@.items[p as int].start,
                        e as int,
                    ));
                    assert(language::moved(
                        pt@.items,
                        p as int,
                        e as int,
                        Source::Completion { from: p as int, by: k as int },
                    ));
                }
            }
            proof {
                assert forall|q: int| cols@[s as int] <= q < p + 1 implies #[trigger] language::completed(
                    pt@.items,
                    g,
                    q,
                    k as int,
                ) by {
                    if q < p {
                        assert(language::completed(before@.items, g, q, k as int));
                        growth::lemma_completed_grown(before@.items, pt@.items, g, q, k as int);
                    }
                }
            }
            p = p + 1;
        }
        proof {
            assert forall|q: int| 0 <= q < k implies #[trigger] language::completed(
                pt@.items,
                g,
                q,
                k as int,
            ) by {
                assert(growth::same_key(first@.items[k as int], pt@.items[k as int]));
                assert(pt@.items[q].end == pt.spans@[q].end);
            }
        }
    }

    /// Begins every rule of the symbol that span `k` waits for, and moves `k` over those that
    /// are done already.
    fn predict(
        &self,
        pt: &mut ParseTrees,
        cols: &Vec<usize>,
        k: usize,
        symbol: &String,
        tokens: &Vec<String>,
    )
        requires
            self.at_work(*old(pt), cols@, text::views(tokens@)),
            cols@[cols@.len() - 1] <= k < old(pt).spans@.len(),
            !old(pt)@.items[k as int].complete(),
            symbol@ == old(pt)@.items[k as int].next_symbol(),
            self.grammar@.is_nonterm(symbol@),
        ensures
            self.at_work(*final(pt), cols@, text::views(tokens@)),
            final(pt).rules == old(pt).rules,
            growth::grows(old(pt)@.items, final(pt)@.items),
            language::predicted(final(pt)@.items, self.grammar@, k as int),
            forall|c: int|
                0 <= c < k ==> #[trigger] language::completed(
                    final(pt)@.items,
                    self.grammar@,
                    k as int,
                    c,
                ),
    {
        let e: usize = cols.len() - 1;
        let ghost g = self.grammar@;
        let ghost words = text::views(tokens@);
        let ghost first = *pt;
        proof {
            assert(first@.item_ok(k as int));
            assert(language::item_supported(first@.items, g, words, k as int));
            assert(first@.items[k as int].end == first.spans@[k as int].end);
            growth::lemma_grows_self(first@.items);
        }
        let mut r: usize = 0;
        while r < pt.rules.len()
            invariant
                self.at_work(*pt, cols@, words),
                g == self.grammar@,
                e == cols@.len() - 1,
                e <= words.len(),
                pt.rules == first.rules,
                growth::grows(first@.items, pt@.items),
                r <= pt.rules@.len(),
                forall|q: int|
                    0 <= q < r && (#[trigger] g.rules[q]).head == symbol@ ==> language::holds(
                        pt@.items,
                        g.rules[q],
                        0,
                        e as int,
                        e as int,
                    ),
            decreases pt.rules.len() - r,
        {
            let ghost before = *pt;
            proof {
                assert(g.rules[r as int] == before.rules@[r as int]@);
                growth::lemma_grows_self(before@.items);
            }
            if pt.rules[r].head == *symbol {
                let j = place::<P>(pt, cols[e], r, 0, e, e, None, Ghost(g), Ghost(words));
                proof {
                    growth::lemma_grows_twice(first@.items, before@.items, pt@.items);
                    lemma_columns_grown(before, *pt, cols@);
                    growth::lemma_done_grown(before@.items, pt@.items, g, words, 0, 0);
                    assert(language::is_at(
                        pt@.items[j as int],
                        g.rules[r as int],
                        0,
                        e as int,
                        e as int,
                    ));
                }
            }
            proof {
                assert forall|q: int|
                    0 <= q < r + 1 && (#[trigger] g.rules[q]).head == symbol@ implies language::holds(
                    pt@.items,
                    g.rules[q],
                    0,
                    e as int,
                    e as int,
                ) by {
                    if q < r {
                        growth::lemma_holds_grown(
                            before@.items,
                            pt@.items,
                            g.rules[q],
                            0,
                            e as int,
                            e as int,
                        );
                    }
                }
            }
            r = r + 1;
        }
        let ghost mid = *pt;
        proof {
            assert(growth::same_key(first@.items[k as int], mid@.items[k as int]));
            assert(grammar::rule_views(mid.rules@).len() == mid.rules@.len());
            assert(language::predicted(mid@.items, g, k as int));
            growth::lemma_grows_self(mid@.items);
        }
        let mut c: usize = cols[e];
        while c < k
            invariant
                self.at_work(*pt, cols@, words),
                g == self.grammar@,
                e == cols@.len() - 1,
                e <= words.len(),
                pt.rules == first.rules,
                growth::grows(first@.items, mid@.items),
                growth::grows(mid@.items, pt@.items),
                language::predicted(pt@.items, g, k as int),
                cols@[e as int] <= c <= k,
                k < first.spans@.len(),
                !first@.items[k as int].complete(),
                symbol@ == first@.items[k as int].next_symbol(),
                first@.items[k as int].end == e,
                g.is_nonterm(symbol@),
                forall|q: int|
                    cols@[e as int] <= q < c ==> #[trigger] language::completed(
                        pt@.items,
                        g,
                        k as int,
                        q,
                    ),
            decreases k - c,
        {
            let ghost before = *pt;
            proof {
                growth::lemma_grows_twice(first@.items, mid@.items, before@.items);
                assert(growth::same_key(first@.items[k as int], before@.items[k as int]));
                assert(before@.item_ok(k as int));
                assert(language::item_supported(before@.items, g, words, k as int));
                assert(before@.item_ok(c as int));
                assert(before@.items[k as int].end == before.spans@[k as int].end);
                assert(before@.items[c as int].end == before.spans@[c as int].end);
                assert(before@.items[c as int].start == before.spans@[c as int].start);
                assert(before.spans@[k as int].rule < before.rules@.len());
                assert(before.spans@[c as int].rule < before.rules@.len());
                growth::lemma_grows_self(before@.items);
            }
            if pt.complete(c) && pt.spans[c].start == e && pt.rules[pt.spans[c].rule].head == *symbol {
                let rule = pt.spans[k].rule;
                proof {
                    let spec = before.rules@[rule as int].spec;
                    assert(before@.items[k as int].rule.spec.len() == spec.len());
                }
                let dot = pt.spans[k].dot + 1;
                let start = pt.spans[k].start;
                let src = SpanSource::Completion(k, c);
                proof {
                    let item = bare(before, rule, dot, start, e);
                    assert(before@.items[k as int].rule == before.rules@[rule as int]@);
                    assert(spans::leads_to(before@.items, item, src@));
                }
                let j = place::<P>(pt, cols[e], rule, dot, start, e, Some(src), Ghost(g), Ghost(words));
                proof {
                    growth::lemma_grows_twice(mid@.items, before@.items, pt@.items);
                    lemma_columns_grown(before, *pt, cols@);
                    growth::lemma_done_grown(before@.items, pt@.items, g, words, 0, 0);
                    growth::lemma_predicted_grown(before@.items, pt@.items, g, k as int);
                    assert(growth::same_key(before@.items[k as int], pt@.items[k as int]));
                    assert(growth::same_key(before@.items[c as int], pt@.items[c as int]));
                    assert(language::is_at(
                        pt@.items[j as int],
                        pt@.items[k as int].rule,
                        pt@.items[k as int].dot + 1,
                        pt@.items[k as int].start,
                        e as int,
                    ));
                    assert(language::moved(
                        pt@.items,
                        k as int,
                        e as int,
                        Source::Completion { from: k as int, by: c as int },
                    ));
                }
            }
            proof {
                assert forall|q: int| cols@[e as int] <= q < c + 1 implies #[trigger] language::completed(
                    pt@.items,
                    g,
                    k as int,
                    q,
                ) by {
                    if q < c {
                        assert(language::completed(before@.items, g, k as int, q));
                        growth::lemma_completed_grown(before@.items, pt@.items, g, k as int, q);
                    }
                }
            }
            c = c + 1;
        }
        proof {
            growth::lemma_grows_twice(first@.items, mid@.items, pt@.items);
            assert forall|q: int| 0 <= q < k implies #[trigger] language::completed(
                pt@.items,
                g,
                k as int,
                q,
            ) by {
                assert(growth::same_key(first@.items[k as int], pt@.items[k as int]));
                assert(pt@.items[q].end == pt.spans@[q].end);
                assert(language::item_supported(pt@.items, g, words, q));
            }
        }
    }

    /// Works off the last column until nothing can be added to it.
    fn fill_column(&self, pt: &mut ParseTrees, cols: &Vec<usize>, tokens: &Vec<String>)
        requires
            self.at_work(*old(pt), cols@, text::views(tokens@)),
            growth::worked_off(
                old(pt)@.items,
                self.grammar@,
                cols@[cols@.len() - 1] as int,
            ),
        ensures
            self.at_work(*final(pt), cols@, text::views(tokens@)),
            final(pt).rules == old(pt).rules,
            growth::grows(old(pt)@.items, final(pt)@.items),
            growth::worked_off(final(pt)@.items, self.grammar@, final(pt)@.items.len() as int),
    {
        let e: usize = cols.len() - 1;
        let ghost g = self.grammar@;
        let ghost words = text::views(tokens@);
        let ghost first = *pt;
        let ghost bound = growth::column_bound(g.rules, e as int);
        let mut k: usize = cols[e];
        proof {
            growth::lemma_grows_self(first@.items);
            lemma_column_size(*pt, cols@, g, words);
        }
        while k < pt.spans.len()
            invariant
                self.at_work(*pt, cols@, words),
                words == text::views(tokens@),
                g == self.grammar@,
                e == cols@.len() - 1,
                pt.rules == first.rules,
                growth::grows(first@.items, pt@.items),
                cols@[e as int] <= k <= pt.spans@.len(),
                growth::worked_off(pt@.items, g, k as int),
                bound == growth::column_bound(g.rules, e as int),
                pt.spans@.len() - cols@[e as int] <= bound,
            decreases cols@[e as int] + bound - k,
        {
            let ghost before = *pt;
            proof {
                growth::lemma_grows_self(before@.items);
            }
            if pt.complete(k) {
                self.complete(pt, cols, k, tokens);
            } else {
                let symbol = match pt.next_symbol(k) {
                    Some(symbol) => symbol.clone(),
                    None => String::new(),
                };
                if self.grammar.is_nonterm(&symbol) {
                    self.predict(pt, cols, k, &symbol, tokens);
                }
            }
            proof {
                growth::lemma_grows_twice(first@.items, before@.items, pt@.items);
                growth::lemma_done_grown(before@.items, pt@.items, g, words, k as int, 0);
                assert(growth::same_key(before@.items[k as int], pt@.items[k as int]));
                lemma_column_size(*pt, cols@, g, words);
                assert forall|i: int| 0 <= i < k + 1 implies #[trigger] language::predicted(
                    pt@.items,
                    g,
                    i,
                ) by {}
                assert forall|p: int, c: int|
                    0 <= p < k + 1 && 0 <= c < k + 1 implies #[trigger] language::completed(
                    pt@.items,
                    g,
                    p,
                    c,
                ) by {
                    if p == k && c == k {
                    } else if p == k {
                        if before@.items[k as int].complete() {
                        } else {
                            assert(language::completed(pt@.items, g, k as int, c));
                        }
                    } else if c == k {
                        assert(language::completed(pt@.items, g, p, k as int));
                    }
                }
            }
            k = k + 1;
        }
    }

    /// Moves the spans of a finished column over the token behind it.
    fn read_token(&self, pt: &mut ParseTrees, cols: &Vec<usize>, tokens: &Vec<String>)
        requires
            sane(*old(pt), self.grammar@, text::views(tokens@)),
            growth::begun(old(pt)@.items, self.grammar@),
            2 <= cols@.len() <= tokens@.len() + 1,
            in_columns(old(pt).spans@, cols@),
            cols@[cols@.len() - 1] == old(pt).spans@.len(),
            growth::read_on(
                old(pt)@.items,
                self.grammar@,
                text::views(tokens@),
                cols@[cols@.len() - 2] as int,
            ),
            self.askable(tokens@),
        ensures
            self.at_work(*final(pt), cols@, text::views(tokens@)),
            final(pt).rules == old(pt).rules,
            growth::grows(old(pt)@.items, final(pt)@.items),
            growth::read_on(
                final(pt)@.items,
                self.grammar@,
                text::views(tokens@),
                cols@[cols@.len() - 1] as int,
            ),
    {
        let e: usize = cols.len() - 1;
        let hi = cols[e];
        let token = &tokens[e - 1];
        let ghost g = self.grammar@;
        let ghost words = text::views(tokens@);
        let ghost first = *pt;
        let mut k: usize = cols[e - 1];
        proof {
            growth::lemma_grows_self(first@.items);
        }
        while k < hi
            invariant
                self.at_work(*pt, cols@, words),
                words == text::views(tokens@),
                g == self.grammar@,
                e == cols@.len() - 1,
                1 <= e <= tokens@.len(),
                self.askable(tokens@),
                *token == tokens@[e - 1],
                pt.rules == first.rules,
                growth::grows(first@.items, pt@.items),
                cols@[e - 1] <= k <= hi,
                hi == cols@[e as int],
                hi == first.spans@.len(),
                in_columns(first.spans@, cols@),
                growth::read_on(pt@.items, g, words, k as int),
            decreases hi - k,
        {
            let ghost before = *pt;
            proof {
                assert(before@.item_ok(k as int));
                assert(language::item_supported(before@.items, g, words, k as int));
                assert(before@.items[k as int].end == before.spans@[k as int].end);
                assert(before.spans@[k as int].end == e - 1);
                assert(before.spans@[k as int].rule < before.rules@.len());
                growth::lemma_grows_self(before@.items);
            }
            let symbol = match pt.next_symbol(k) {
                Some(symbol) => Some(symbol.clone()),
                None => None,
            };
            let reads = match &symbol {
                Some(symbol) => match self.grammar.matcher(symbol) {
                    Some(m) => {
                        proof {
                            assert(m@.askable(tokens@[e - 1]@));
                        }
                        m.matches(token.as_str())
                    },
                    None => false,
                },
                None => false,
            };
            if reads {
                let rule = pt.spans[k].rule;
                proof {
                    let spec = before.rules@[rule as int].spec;
                    assert(before@.items[k as int].rule.spec.len() == spec.len());
                }
                let dot = pt.spans[k].dot + 1;
                let start = pt.spans[k].start;
                let src = SpanSource::Scan(k, token.clone());
                proof {
                    let item = bare(before, rule, dot, start, e);
                    assert(before@.items[k as int].rule == before.rules@[rule as int]@);
                    assert(words[e - 1] == token@);
                    assert(spans::leads_to(before@.items, item, src@));
                    assert(language::source_supported(before@.items, g, words, item, src@));
                }
                let j = place::<P>(pt, hi, rule, dot, start, e, Some(src), Ghost(g), Ghost(words));
                proof {
                    growth::lemma_grows_twice(first@.items, before@.items, pt@.items);
                    lemma_columns_grown(before, *pt, cols@);
                    assert(growth::same_key(before@.items[k as int], pt@.items[k as int]));
                    assert(language::is_at(
                        pt@.items[j as int],
                        pt@.items[k as int].rule,
                        pt@.items[k as int].dot + 1,
                        pt@.items[k as int].start,
                        e as int,
                    ));
                    assert(language::moved(
                        pt@.items,
                        k as int,
                        e as int,
                        Source::Scan { from: k as int, token: words[e - 1] },
                    ));
                }
            }
            proof {
                growth::lemma_done_grown(before@.items, pt@.items, g, words, 0, k as int);
                assert(growth::same_key(before@.items[k as int], pt@.items[k as int]));
                assert(language::scanned(pt@.items, g, words, k as int));
            }
            k = k + 1;
        }
    }

    /// Every predicate of the grammar can be asked about every token.
    pub open spec fn askable(self, tokens: Seq<String>) -> bool {
        forall|k: int, name: Seq<char>|
            #![trigger tokens[k], self.grammar@.matcher(name)]
            0 <= k < tokens.len() ==> (self.grammar@.matcher(name) matches Some(m) ==> m.askable(
                tokens[k]@,
            ))
    }

    /// The chart of `tokens`, or an error where they are none of the language.
    pub fn parse(&self, tokens: &Vec<String>) -> (res: Result<ParseTrees, String>)
        requires
            self.askable(tokens@),
        ensures
            match res {
                Ok(pt) => {
                    &&& pt.wf()
                    &&& language::charts(pt@, self.grammar@, text::views(tokens@))
                    &&& pt@.roots.len() > 0
                    &&& exists|tree: Tree|
                        #[trigger] self.grammar@.parses(text::views(tokens@), tree, false)
                    &&& rewriting::in_language(self.grammar@, text::views(tokens@), false)
                },
                Err(msg) => {
                    &&& msg@ == "Parse Error: No Rule completes"@
                    &&& forall|tree: Tree|
                        !self.grammar@.parses(text::views(tokens@), tree, true)
                    &&& !rewriting::in_language(self.grammar@, text::views(tokens@), true)
                },
            },
    {
        let ghost g = self.grammar@;
        let ghost words = text::views(tokens@);
        let mut pt = ParseTrees {
            rules: grammar::copy_rules(&self.grammar.rules),
            spans: Vec::new(),
            roots: Vec::new(),
        };
        proof {
            assert(grammar::rule_views(pt.rules@).len() == pt.rules@.len());
            assert(g.rules.len() == self.grammar.rules@.len());
        }
        let mut cols: Vec<usize> = Vec::new();
        cols.push(0);
        let mut r: usize = 0;
        while r < self.grammar.rules.len()
            invariant
                g == self.grammar@,
                words == text::views(tokens@),
                sane(pt, g, words),
                cols@ == seq![0usize],
                in_columns(pt.spans@, cols@),
                r <= self.grammar.rules@.len(),
                pt.rules@.len() == self.grammar.rules@.len(),
                forall|q: int|
                    0 <= q < r && (#[trigger] g.rules[q]).head == g.start ==> language::holds(
                        pt@.items,
                        g.rules[q],
                        0,
                        0,
                        0,
                    ),
            decreases self.grammar.rules.len() - r,
        {
            let ghost before = pt;
            proof {
                assert(g.rules[r as int] == pt.rules@[r as int]@);
                growth::lemma_grows_self(before@.items);
            }
            if self.grammar.rules[r].head == self.grammar.start {
                let j = place::<P>(&mut pt, 0, r, 0, 0, 0, None, Ghost(g), Ghost(words));
                proof {
                    lemma_columns_grown(before, pt, cols@);
                    assert(language::is_at(pt@.items[j as int], g.rules[r as int], 0, 0, 0));
                }
            }
            proof {
                assert forall|q: int|
                    0 <= q < r + 1 && (#[trigger] g.rules[q]).head == g.start implies language::holds(
                    pt@.items,
                    g.rules[q],
                    0,
                    0,
                    0,
                ) by {
                    if q < r {
                        growth::lemma_holds_grown(before@.items, pt@.items, g.rules[q], 0, 0, 0);
                    }
                }
            }
            r = r + 1;
        }
        let n = tokens.len();
        let mut e: usize = 0;
        self.fill_column(&mut pt, &cols, tokens);
        while e < n
            invariant
                self.at_work(pt, cols@, words),
                g == self.grammar@,
                words == text::views(tokens@),
                n == tokens@.len(),
                e <= n,
                self.askable(tokens@),
                cols@.len() == e + 1,
                growth::worked_off(pt@.items, g, pt@.items.len() as int),
                growth::read_on(pt@.items, g, words, cols@[e as int] as int),
            decreases n - e,
        {
            let ghost old_cols = cols@;
            cols.push(pt.spans.len());
            proof {
                assert(in_columns(pt.spans@, cols@)) by {
                    let last = cols@.len() - 1;
                    assert forall|a: int, b: int| 0 <= a <= b < cols@.len() implies cols@[a]
                        <= cols@[b] by {
                        if b == last && a < last {
                            assert(old_cols[a] <= old_cols[e as int]);
                        }
                    }
                    assert forall|i: int|
                        #![trigger pt.spans@[i]]
                        0 <= i < pt.spans@.len() implies {
                        &&& pt.spans@[i].end <= last
                        &&& pt.spans@[i].end == last <==> i >= cols@[last]
                        &&& pt.spans@[i].end < last ==> cols@[pt.spans@[i].end as int] <= i
                            < cols@[pt.spans@[i].end + 1]
                    } by {
                        if pt.spans@[i].end < e {
                            assert(old_cols[pt.spans@[i].end as int] == cols@[pt.spans@[i].end as int]);
                        }
                    }
                }
            }
            let ghost before = pt;
            self.read_token(&mut pt, &cols, tokens);
            let ghost mid = pt;
            proof {
                growth::lemma_done_grown(
                    before@.items,
                    mid@.items,
                    g,
                    words,
                    before@.items.len() as int,
                    0,
                );
            }
            self.fill_column(&mut pt, &cols, tokens);
            proof {
                growth::lemma_done_grown(
                    mid@.items,
                    pt@.items,
                    g,
                    words,
                    0,
                    cols@[e + 1] as int,
                );
            }
            e = e + 1;
        }
        let ghost done = pt;
        proof {
            assert forall|i: int| 0 <= i < done@.items.len() implies #[trigger] language::scanned(
                done@.items,
                g,
                words,
                i,
            ) by {
                assert(done@.items[i].end == done.spans@[i].end);
            }
            assert(language::closed_up(done@.items, g, words));
        }
        let mut k: usize = cols[e];
        while k < pt.spans.len()
            invariant
                self.at_work(done, cols@, words),
                g == self.grammar@,
                pt.spans == done.spans,
                pt.rules == done.rules,
                pt@.items == done@.items,
                pt.wf(),
                e == cols@.len() - 1,
                e == words.len(),
                cols@[e as int] <= k <= pt.spans@.len(),
                pt@.roots.no_duplicates(),
                forall|i: int|
                    0 <= i < k ==> (pt@.roots.contains(i) <==> language::is_root(
                        #[trigger] done@.items[i],
                        g,
                        words,
                    )),
                forall|j: int| 0 <= j < pt@.roots.len() ==> #[trigger] pt@.roots[j] < k,
            decreases pt.spans.len() - k,
        {
            let ghost before = pt;
            proof {
                assert(done@.items[k as int].end == done.spans@[k as int].end);
                assert(done@.items[k as int].start == done.spans@[k as int].start);
                assert(done.spans@[k as int].rule < done.rules@.len());
                assert(done@.item_ok(k as int));
                assert(before@.item_ok(k as int));
            }
            if pt.complete(k) && pt.spans[k].start == 0 && pt.rules[pt.spans[k].rule].head
                == self.grammar.start {
                pt.roots.push(k);
                proof {
                    assert(pt@.roots =~= before@.roots.push(k as int));
                    assert(pt@.items =~= before@.items);
                    assert(pt.wf()) by {
                        assert forall|i: int| 0 <= i < pt@.items.len() implies #[trigger] pt@.item_ok(
                            i,
                        ) by {
                            assert(before@.item_ok(i));
                        }
                        assert forall|j: int| 0 <= j < pt@.roots.len() implies 0
                            <= #[trigger] pt@.roots[j] < pt@.items.len()
                            && pt@.items[pt@.roots[j]].complete() by {
                            if j < before@.roots.len() {
                                assert(pt@.roots[j] == before@.roots[j]);
                            }
                        }
                    }
                    assert(pt@.roots[before@.roots.len() as int] == k);
                }
            }
            proof {
                assert forall|i: int| 0 <= i < k + 1 implies (pt@.roots.contains(i)
                    <==> language::is_root(#[trigger] done@.items[i], g, words)) by {
                    if i < k {
                        if before@.roots.contains(i) {
                            let j = before@.roots.index_of(i);
                            assert(pt@.roots[j] == i);
                        }
                        if pt@.roots.contains(i) {
                            let j = pt@.roots.index_of(i);
                            assert(before@.roots[j] == i);
                        }
                    } else if pt@.roots.contains(i) {
                        let j = pt@.roots.index_of(i);
                        assert(pt@.roots[j] == k);
                    }
                }
            }
            k = k + 1;
        }
        proof {
            assert(language::tidy(pt@.items) || !g.rules.no_duplicates()) by {
                if g.rules.no_duplicates() {
                    lemma_tidy(done, g, words);
                }
            }
            assert(language::charts(pt@, g, words));
        }
        if pt.roots.len() == 0 {
            proof {
                assert forall|tree: Tree| !g.parses(words, tree, true) by {
                    if g.parses(words, tree, true) {
                        language::law_chart_is_complete(pt@, g, words, tree);
                        let root = choose|root: int| #[trigger] pt@.roots.contains(root);
                        assert(pt@.roots[pt@.roots.index_of(root)] == root);
                    }
                }
                rewriting::law_trees_are_rewritings(g, words, true);
            }
            return Err("Parse Error: No Rule completes".to_owned());
        }
        proof {
            let root = pt@.roots[0];
            assert(pt@.roots.contains(root));
            let children = language::lemma_derives_some(pt@, root);
            language::law_chart_is_sound(pt@, g, words, root, children);
            rewriting::law_trees_are_rewritings(g, words, false);
        }
        Ok(pt)
    }
}

/// The last column holds no more spans than can end there.
proof fn lemma_column_size<P: Fn(&str) -> bool>(
    pt: ParseTrees,
    cols: Seq<usize>,
    g: GrammarModel<P>,
    tokens: Seq<Seq<char>>,
)
    requires
        sane(pt, g, tokens),
        in_columns(pt.spans@, cols),
    ensures
        pt.spans@.len() - cols[cols.len() - 1] <= growth::column_bound(g.rules, cols.len() - 1),
{
    let e = cols.len() - 1;
    assert forall|i: int| cols[e] <= i < pt.spans@.len() implies {
        let span = #[trigger] pt.spans@[i];
        &&& span.end == e
        &&& span.start <= e
        &&& span.rule < g.rules.len()
        &&& span.dot <= g.rules[span.rule as int].spec.len()
    } by {
        assert(pt@.item_ok(i));
        assert(language::item_supported(pt@.items, g, tokens, i));
        let span = pt.spans@[i];
        assert(pt@.items[i].end == span.end);
        assert(pt@.items[i].start == span.start);
        assert(g.rules[span.rule as int] == pt.rules@[span.rule as int]@);
    }
    growth::lemma_column_bound(pt.spans@, cols[e] as int, e, g.rules);
}

/// Spans that are unique by the number of their rule are unique by the rule.
proof fn lemma_tidy<P: Fn(&str) -> bool>(
    pt: ParseTrees,
    g: GrammarModel<P>,
    tokens: Seq<Seq<char>>,
)
    requires
        sane(pt, g, tokens),
        g.rules.no_duplicates(),
    ensures
        language::tidy(pt@.items),
{
    let items = pt@.items;
    assert forall|a: int, b: int|
        #![trigger items[a], items[b]]
        0 <= a < b < items.len() implies !language::is_at(
        items[a],
        items[b].rule,
        items[b].dot,
        items[b].start,
        items[b].end,
    ) by {
        assert(!growth::same_span(pt.spans@[a], pt.spans@[b]));
        let x = pt.spans@[a].rule as int;
        let y = pt.spans@[b].rule as int;
        assert(g.rules[x] == items[a].rule);
        assert(g.rules[y] == items[b].rule);
    }
}

} // verus!
