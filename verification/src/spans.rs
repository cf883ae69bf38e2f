//! The chart that a parse leaves behind: spans and their back-pointers.

use vstd::prelude::*;

use crate::grammar::{Rule, RuleModel};

verus! {

/// How a span came to be, over plain values.
pub enum Source {
    /// The span `from` was extended because the span `by` completed its rule.
    Completion { from: int, by: int },
    /// The span `from` was extended by reading `token`.
    Scan { from: int, token: Seq<char> },
}

/// A dotted rule over a range of the input, with every way it came to be.
pub struct Item {
    pub rule: RuleModel,
    pub dot: int,
    pub start: int,
    pub end: int,
    pub sources: Seq<Source>,
}

impl Item {
    /// The dot has passed every symbol of the rule.
    pub open spec fn complete(self) -> bool {
        self.dot >= self.rule.spec.len()
    }

    /// The symbol behind the dot; meaningful when the item is not complete.
    pub open spec fn next_symbol(self) -> Seq<char> {
        self.rule.spec[self.dot]
    }
}

/// A chart over plain values: all items, and which of them cover the whole input.
pub struct Chart {
    pub items: Seq<Item>,
    pub roots: Seq<int>,
}

/// The back-pointer `src` of `item` steps the dot back over one symbol.
pub open spec fn leads_to(items: Seq<Item>, item: Item, src: Source) -> bool {
    match src {
        Source::Completion { from, by } => {
            &&& 0 <= from < items.len()
            &&& 0 <= by < items.len()
            &&& items[from].rule == item.rule
            &&& items[from].dot + 1 == item.dot
            &&& items[from].start == item.start
            &&& items[from].end == items[by].start
            &&& items[by].end == item.end
            &&& items[by].complete()
            &&& items[by].rule.head == item.rule.spec[item.dot - 1]
        },
        Source::Scan { from, .. } => {
            &&& 0 <= from < items.len()
            &&& items[from].rule == item.rule
            &&& items[from].dot + 1 == item.dot
            &&& items[from].start == item.start
            &&& items[from].end + 1 == item.end
        },
    }
}

impl Chart {
    /// The back-pointer `src` of item `i` steps the dot back over one symbol.
    pub open spec fn source_ok(self, i: int, src: Source) -> bool {
        leads_to(self.items, self.items[i], src)
    }

    /// Item `i` is in range, has back-pointers exactly when its dot has moved, and each
    /// of them is sound.
    pub open spec fn item_ok(self, i: int) -> bool {
        let item = self.items[i];
        &&& 0 <= item.dot <= item.rule.spec.len()
        &&& item.dot == 0 <==> item.sources.len() == 0
        &&& item.dot == 0 ==> item.start == item.end
        &&& forall|k: int|
            0 <= k < item.sources.len() ==> self.source_ok(i, #[trigger] item.sources[k])
    }

    /// The chart is one that a parse can leave behind.
    pub open spec fn wf(self) -> bool {
        &&& forall|i: int| 0 <= i < self.items.len() ==> #[trigger] self.item_ok(i)
        &&& forall|k: int|
            0 <= k < self.roots.len() ==> 0 <= #[trigger] self.roots[k] < self.items.len()
                && self.items[self.roots[k]].complete()
    }
}

/// How a span came to be. Spans are named by their place in [`ParseTrees`].
pub enum SpanSource {
    /// The first span was extended because the second completed its rule.
    Completion(usize, usize),
    /// The span was extended by reading the token.
    Scan(usize, String),
}

impl View for SpanSource {
    type V = Source;

    open spec fn view(&self) -> Source {
        match self {
            SpanSource::Completion(from, by) => Source::Completion {
                from: *from as int,
                by: *by as int,
            },
            SpanSource::Scan(from, token) => Source::Scan { from: *from as int, token: token@ },
        }
    }
}

impl SpanSource {
    /// Whether both say the same.
    pub fn same(&self, other: &SpanSource) -> (b: bool)
        ensures
            b == (self@ == other@),
    {
        match (self, other) {
            (SpanSource::Completion(a, b), SpanSource::Completion(c, d)) => *a == *c && *b == *d,
            (SpanSource::Scan(a, s), SpanSource::Scan(c, t)) => *a == *c && *s == *t,
            _ => false,
        }
    }

    /// A copy.
    pub fn duplicate(&self) -> (copy: SpanSource)
        ensures
            copy@ == self@,
    {
        match self {
            SpanSource::Completion(from, by) => SpanSource::Completion(*from, *by),
            SpanSource::Scan(from, token) => SpanSource::Scan(*from, token.clone()),
        }
    }
}

/// A dotted rule over the tokens `start..end`, with its back-pointers. The rule is named by
/// its place in [`ParseTrees`].
pub struct Span {
    pub rule: usize,
    pub dot: usize,
    pub start: usize,
    pub end: usize,
    pub sources: Vec<SpanSource>,
}

/// The outcome of a parse: the rules, the spans over them, and the spans that cover the
/// whole input with the start symbol.
pub struct ParseTrees {
    pub rules: Vec<Rule>,
    pub spans: Vec<Span>,
    pub roots: Vec<usize>,
}

/// The views of a list of back-pointers.
pub open spec fn source_views(sources: Seq<SpanSource>) -> Seq<Source> {
    Seq::new(sources.len(), |k: int| sources[k]@)
}

/// Whether a list of back-pointers holds `src`.
pub fn holds_source(list: &Vec<SpanSource>, src: &SpanSource) -> (found: bool)
    ensures
        found == source_views(list@).contains(src@),
{
    let mut k: usize = 0;
    while k < list.len()
        invariant
            k <= list@.len(),
            forall|j: int| 0 <= j < k ==> (#[trigger] list@[j])@ != src@,
        decreases list.len() - k,
    {
        if list[k].same(src) {
            proof {
                assert(source_views(list@)[k as int] == src@);
            }
            return true;
        }
        k = k + 1;
    }
    proof {
        let all = source_views(list@);
        if all.contains(src@) {
            let j = all.index_of(src@);
            assert(list@[j]@ == src@);
        }
    }
    false
}

impl ParseTrees {
    /// Span `i` over plain values.
    pub open spec fn item(self, i: int) -> Item {
        let span = self.spans@[i];
        Item {
            rule: self.rules@[span.rule as int]@,
            dot: span.dot as int,
            start: span.start as int,
            end: span.end as int,
            sources: source_views(span.sources@),
        }
    }
}

impl View for ParseTrees {
    type V = Chart;

    open spec fn view(&self) -> Chart {
        Chart {
            items: Seq::new(self.spans@.len(), |i: int| self.item(i)),
            roots: Seq::new(self.roots@.len(), |k: int| self.roots@[k] as int),
        }
    }
}

/// What a chart is over plain values: each span with its rule, its dot, where it starts and ends,
/// and its back-pointers, and the roots; one for one and in order.
pub proof fn law_what_a_chart_holds(pt: ParseTrees, i: int, k: int)
    requires
        0 <= i < pt.spans@.len(),
        0 <= k < pt.spans@[i].sources@.len(),
    ensures
        pt@.items.len() == pt.spans@.len(),
        pt@.items[i].rule == pt.rules@[pt.spans@[i].rule as int]@,
        pt@.items[i].dot == pt.spans@[i].dot,
        pt@.items[i].start == pt.spans@[i].start,
        pt@.items[i].end == pt.spans@[i].end,
        pt@.items[i].sources.len() == pt.spans@[i].sources@.len(),
        pt@.items[i].sources[k] == match pt.spans@[i].sources@[k] {
            SpanSource::Completion(from, by) => Source::Completion {
                from: from as int,
                by: by as int,
            },
            SpanSource::Scan(from, token) => Source::Scan { from: from as int, token: token@ },
        },
        pt@.roots.len() == pt.roots@.len(),
        forall|r: int| 0 <= r < pt.roots@.len() ==> #[trigger] pt@.roots[r] == pt.roots@[r],
        pt@.items[i].complete() <==> pt.spans@[i].dot >= pt.rules@[pt.spans@[i].rule as int]@.spec.len(),
{
}

impl ParseTrees {
    /// Every span names a rule that exists, and the chart is sound.
    pub open spec fn wf(self) -> bool {
        &&& forall|i: int|
            0 <= i < self.spans@.len() ==> (#[trigger] self.spans@[i]).rule < self.rules@.len()
        &&& self@.wf()
    }

    /// Whether span `i` has its dot behind every symbol of its rule.
    pub fn complete(&self, i: usize) -> (b: bool)
        requires
            self.wf(),
            i < self.spans@.len(),
        ensures
            b == self@.items[i as int].complete(),
    {
        self.spans[i].dot >= self.rules[self.spans[i].rule].spec.len()
    }

    /// The name of the symbol behind the dot of span `i`.
    pub fn next_symbol(&self, i: usize) -> (s: Option<&String>)
        requires
            self.wf(),
            i < self.spans@.len(),
        ensures
            s is None <==> self@.items[i as int].complete(),
            s matches Some(name) ==> name@ == self@.items[i as int].next_symbol(),
    {
        let span = &self.spans[i];
        let rule = &self.rules[span.rule];
        if span.dot < rule.spec.len() {
            Some(&rule.spec[span.dot])
        } else {
            None
        }
    }

    /// The canonical form of the rule of span `i`.
    pub fn rule_text(&self, i: usize) -> (s: String)
        requires
            self.wf(),
            i < self.spans@.len(),
        ensures
            s@ == self@.items[i as int].rule.text(),
    {
        self.rules[self.spans[i].rule].to_string()
    }
}

} // verus!
