//! The derivation trees of a grammar, and charts that hold exactly these.

use vstd::prelude::*;

use crate::derivation;
use crate::derivation::Tree;
use crate::grammar::{GrammarModel, RuleModel};
use crate::spans::{Chart, Item, Source};

verus! {

impl<P: Fn(&str) -> bool> GrammarModel<P> {
    /// `token` can be read as `symbol`. Where `sure`, it always is.
    pub open spec fn reads(self, symbol: Seq<char>, token: Seq<char>, sure: bool) -> bool {
        self.matcher(symbol) matches Some(m) && if sure {
            !m.rejects(token)
        } else {
            m.accepts(token)
        }
    }

    /// `tree` is a derivation tree of the grammar.
    pub open spec fn yields(self, tree: Tree, sure: bool) -> bool
        decreases tree,
    {
        match tree {
            Tree::Leaf { symbol, token } => self.reads(symbol, token, sure),
            Tree::Node { rule, children } => {
                &&& self.rules.contains(rule)
                &&& children.len() == rule.spec.len()
                &&& forall|k: int|
                    #![trigger children[k]]
                    0 <= k < children.len() ==> {
                        &&& children[k].symbol() == rule.spec[k]
                        &&& children[k] is Node ==> self.is_nonterm(rule.spec[k])
                        &&& self.yields(children[k], sure)
                    }
            },
        }
    }

    /// `trees` are derivation trees for the first symbols of `rule`.
    pub open spec fn yields_first(self, rule: RuleModel, trees: Seq<Tree>, sure: bool) -> bool {
        &&& self.rules.contains(rule)
        &&& trees.len() <= rule.spec.len()
        &&& forall|k: int|
            #![trigger trees[k]]
            0 <= k < trees.len() ==> {
                &&& trees[k].symbol() == rule.spec[k]
                &&& trees[k] is Node ==> self.is_nonterm(rule.spec[k])
                &&& self.yields(trees[k], sure)
            }
    }

    /// `tree` is a derivation tree of the start symbol over `tokens`.
    pub open spec fn parses(self, tokens: Seq<Seq<char>>, tree: Tree, sure: bool) -> bool {
        &&& tree is Node
        &&& tree.symbol() == self.start
        &&& tree.tokens() == tokens
        &&& self.yields(tree, sure)
    }
}

/// The item is `rule` with its dot at `dot`, over `start..end`.
pub open spec fn is_at(item: Item, rule: RuleModel, dot: int, start: int, end: int) -> bool {
    &&& item.rule == rule
    &&& item.dot == dot
    &&& item.start == start
    &&& item.end == end
}

/// There is such an item.
pub open spec fn holds(
    items: Seq<Item>,
    rule: RuleModel,
    dot: int,
    start: int,
    end: int,
) -> bool {
    exists|j: int| 0 <= j < items.len() && is_at(#[trigger] items[j], rule, dot, start, end)
}

/// Item `p` has been moved over one symbol, up to `end`, by way of `src`.
pub open spec fn moved(items: Seq<Item>, p: int, end: int, src: Source) -> bool {
    exists|j: int|
        0 <= j < items.len() && is_at(
            #[trigger] items[j],
            items[p].rule,
            items[p].dot + 1,
            items[p].start,
            end,
        ) && items[j].sources.contains(src)
}

/// The back-pointer `src` rests on the grammar and the tokens, for an item of `rule` with its
/// dot at `dot` that ends at `end`.
pub open spec fn source_supported<P: Fn(&str) -> bool>(
    items: Seq<Item>,
    g: GrammarModel<P>,
    tokens: Seq<Seq<char>>,
    item: Item,
    src: Source,
) -> bool {
    match src {
        Source::Scan { from, token } => token == tokens[item.end - 1] && g.reads(
            items[from].next_symbol(),
            token,
            false,
        ),
        Source::Completion { .. } => g.is_nonterm(item.rule.spec[item.dot - 1]),
    }
}

/// Item `i` rests on the grammar and the tokens.
pub open spec fn item_supported<P: Fn(&str) -> bool>(
    items: Seq<Item>,
    g: GrammarModel<P>,
    tokens: Seq<Seq<char>>,
    i: int,
) -> bool {
    let item = items[i];
    &&& g.rules.contains(item.rule)
    &&& 0 <= item.start <= item.end <= tokens.len()
    &&& forall|k: int|
        0 <= k < item.sources.len() ==> source_supported(
            items,
            g,
            tokens,
            item,
            #[trigger] item.sources[k],
        )
}

/// Every item rests on the grammar and the tokens.
pub open spec fn supported<P: Fn(&str) -> bool>(
    items: Seq<Item>,
    g: GrammarModel<P>,
    tokens: Seq<Seq<char>>,
) -> bool {
    forall|i: int| 0 <= i < items.len() ==> #[trigger] item_supported(items, g, tokens, i)
}

/// The first back-pointer of every item leads to items before it.
pub open spec fn founded(items: Seq<Item>) -> bool {
    forall|i: int|
        #![trigger items[i]]
        0 <= i < items.len() && items[i].sources.len() > 0 ==> match items[i].sources[0] {
            Source::Scan { from, .. } => from < i,
            Source::Completion { from, by } => from < i && by < i,
        }
}

/// The rules that can be applied at item `i` are there.
pub open spec fn predicted<P: Fn(&str) -> bool>(
    items: Seq<Item>,
    g: GrammarModel<P>,
    i: int,
) -> bool {
    !items[i].complete() && g.is_nonterm(items[i].next_symbol()) ==> forall|r: int|
        0 <= r < g.rules.len() && (#[trigger] g.rules[r]).head == items[i].next_symbol() ==> holds(
            items,
            g.rules[r],
            0,
            items[i].end,
            items[i].end,
        )
}

/// The item behind the next token is there, where it can be read.
pub open spec fn scanned<P: Fn(&str) -> bool>(
    items: Seq<Item>,
    g: GrammarModel<P>,
    tokens: Seq<Seq<char>>,
    i: int,
) -> bool {
    !items[i].complete() && items[i].end < tokens.len() && g.reads(
        items[i].next_symbol(),
        tokens[items[i].end],
        true,
    ) ==> moved(
        items,
        i,
        items[i].end + 1,
        Source::Scan { from: i, token: tokens[items[i].end] },
    )
}

/// Item `p` has been moved over the symbol that item `c` completes, where it fits.
pub open spec fn completed<P: Fn(&str) -> bool>(
    items: Seq<Item>,
    g: GrammarModel<P>,
    p: int,
    c: int,
) -> bool {
    !items[p].complete() && items[c].complete() && items[p].end == items[c].start
        && items[p].next_symbol() == items[c].rule.head && g.is_nonterm(items[p].next_symbol())
        ==> moved(items, p, items[c].end, Source::Completion { from: p, by: c })
}

/// The item covers all tokens with the start symbol.
pub open spec fn is_root<P>(item: Item, g: GrammarModel<P>, tokens: Seq<Seq<char>>) -> bool {
    item.complete() && item.rule.head == g.start && item.start == 0 && item.end == tokens.len()
}

/// Nothing can be added to the chart.
pub open spec fn closed_up<P: Fn(&str) -> bool>(
    items: Seq<Item>,
    g: GrammarModel<P>,
    tokens: Seq<Seq<char>>,
) -> bool {
    &&& forall|r: int|
        0 <= r < g.rules.len() && (#[trigger] g.rules[r]).head == g.start ==> holds(
            items,
            g.rules[r],
            0,
            0,
            0,
        )
    &&& forall|i: int| 0 <= i < items.len() ==> #[trigger] predicted(items, g, i)
    &&& forall|i: int| 0 <= i < items.len() ==> #[trigger] scanned(items, g, tokens, i)
    &&& forall|p: int, c: int|
        0 <= p < items.len() && 0 <= c < items.len() ==> #[trigger] completed(items, g, p, c)
}

/// No two items are the same rule with the same dot over the same tokens, and no item has the
/// same back-pointer twice.
pub open spec fn tidy(items: Seq<Item>) -> bool {
    &&& forall|a: int, b: int|
        #![trigger items[a], items[b]]
        0 <= a < b < items.len() ==> !is_at(
            items[a],
            items[b].rule,
            items[b].dot,
            items[b].start,
            items[b].end,
        )
    &&& forall|i: int| 0 <= i < items.len() ==> (#[trigger] items[i]).sources.no_duplicates()
}

/// The chart is that of `tokens` by the grammar: it holds nothing that does not rest on them
/// and lacks nothing that does, and its roots are the items that cover all tokens.
pub open spec fn charts<P: Fn(&str) -> bool>(
    chart: Chart,
    g: GrammarModel<P>,
    tokens: Seq<Seq<char>>,
) -> bool {
    &&& chart.wf()
    &&& supported(chart.items, g, tokens)
    &&& founded(chart.items)
    &&& closed_up(chart.items, g, tokens)
    &&& g.rules.no_duplicates() ==> tidy(chart.items)
    &&& chart.roots.no_duplicates()
    &&& forall|i: int|
        0 <= i < chart.items.len() ==> (chart.roots.contains(i) <==> is_root(
            #[trigger] chart.items[i],
            g,
            tokens,
        ))
}

/// What a chart derives are derivation trees of the grammar over the tokens of the item.
pub proof fn lemma_derived<P: Fn(&str) -> bool>(
    chart: Chart,
    g: GrammarModel<P>,
    tokens: Seq<Seq<char>>,
    i: int,
    trees: Seq<Tree>,
)
    requires
        chart.wf(),
        supported(chart.items, g, tokens),
        0 <= i < chart.items.len(),
        derivation::derives(chart, i, trees),
    ensures
        trees.len() == chart.items[i].dot,
        g.yields_first(chart.items[i].rule, trees, false),
        derivation::forest_tokens(trees) == tokens.subrange(
            chart.items[i].start,
            chart.items[i].end,
        ),
    decreases derivation::forest_steps(trees),
{
    let item = chart.items[i];
    assert(chart.item_ok(i));
    assert(item_supported(chart.items, g, tokens, i));
    if trees.len() == 0 {
        assert(tokens.subrange(item.start, item.end) =~= Seq::empty());
    } else {
        let k = derivation::lemma_derives_source(chart, i, trees);
        let src = item.sources[k];
        assert(chart.source_ok(i, src));
        assert(source_supported(chart.items, g, tokens, item, src));
        let before = trees.drop_last();
        match src {
            Source::Scan { from, token } => {
                assert(item_supported(chart.items, g, tokens, from));
                assert(chart.item_ok(from));
                lemma_derived(chart, g, tokens, from, before);
                let leaf = trees.last();
                assert(leaf.tokens() =~= seq![token]);
                assert(tokens.subrange(item.start, item.end) =~= tokens.subrange(
                    item.start,
                    chart.items[from].end,
                ) + seq![token]);
                assert forall|m: int| #![trigger trees[m]] 0 <= m < trees.len() implies {
                    &&& trees[m].symbol() == item.rule.spec[m]
                    &&& trees[m] is Node ==> g.is_nonterm(item.rule.spec[m])
                    &&& g.yields(trees[m], false)
                } by {
                    if m < before.len() {
                        assert(before[m] == trees[m]);
                    }
                }
            },
            Source::Completion { from, by } => {
                assert(item_supported(chart.items, g, tokens, from));
                assert(item_supported(chart.items, g, tokens, by));
                assert(chart.item_ok(from));
                assert(chart.item_ok(by));
                lemma_derived(chart, g, tokens, from, before);
                if let Tree::Node { rule, children } = trees.last() {
                    assert(trees.last().steps() == 1 + derivation::forest_steps(children));
                    lemma_derived(chart, g, tokens, by, children);
                    let mid = chart.items[from].end;
                    assert(trees.last().tokens() == derivation::forest_tokens(children));
                    assert(tokens.subrange(item.start, item.end) =~= tokens.subrange(
                        item.start,
                        mid,
                    ) + tokens.subrange(mid, item.end));
                    assert(g.yields(trees.last(), false));
                }
                assert forall|m: int| #![trigger trees[m]] 0 <= m < trees.len() implies {
                    &&& trees[m].symbol() == item.rule.spec[m]
                    &&& trees[m] is Node ==> g.is_nonterm(item.rule.spec[m])
                    &&& g.yields(trees[m], false)
                } by {
                    if m < before.len() {
                        assert(before[m] == trees[m]);
                    }
                }
            },
        }
    }
}

/// Every item derives something.
pub proof fn lemma_derives_some(chart: Chart, i: int) -> (trees: Seq<Tree>)
    requires
        chart.wf(),
        founded(chart.items),
        0 <= i < chart.items.len(),
    ensures
        derivation::derives(chart, i, trees),
    decreases i,
{
    assert(chart.item_ok(i));
    if chart.items[i].sources.len() == 0 {
        Seq::empty()
    } else {
        assert(chart.source_ok(i, chart.items[i].sources[0]));
        match chart.items[i].sources[0] {
            Source::Scan { from, token } => {
                let before = lemma_derives_some(chart, from);
                lemma_derives_more(chart, i, 0, before, Seq::empty())
            },
            Source::Completion { from, by } => {
                let before = lemma_derives_some(chart, from);
                let children = lemma_derives_some(chart, by);
                lemma_derives_more(chart, i, 0, before, children)
            },
        }
    }
}

/// What a back-pointer of an item derives, from what the items that it leads to derive.
pub proof fn lemma_derives_more(
    chart: Chart,
    i: int,
    k: int,
    before: Seq<Tree>,
    children: Seq<Tree>,
) -> (trees: Seq<Tree>)
    requires
        0 <= k < chart.items[i].sources.len(),
        match chart.items[i].sources[k] {
            Source::Scan { from, .. } => derivation::derives(chart, from, before),
            Source::Completion { from, by } => derivation::derives(chart, from, before)
                && derivation::derives(chart, by, children),
        },
    ensures
        derivation::derives(chart, i, trees),
        derivation::derives_by(chart, chart.items[i].sources[k], trees),
        trees.len() == before.len() + 1,
        trees.drop_last() == before,
        chart.items[i].sources[k] matches Source::Completion { by, .. } ==> trees.last() == (
        Tree::Node { rule: chart.items[by].rule, children }),
{
    let last = match chart.items[i].sources[k] {
        Source::Scan { from, token } => Tree::Leaf {
            symbol: chart.items[from].next_symbol(),
            token,
        },
        Source::Completion { from, by } => Tree::Node { rule: chart.items[by].rule, children },
    };
    let trees = before.push(last);
    assert(trees.drop_last() =~= before);
    assert(trees.last() == last);
    derivation::lemma_derives_by(chart, i, k, trees);
    trees
}

/// What the grammar yields for the first symbols of a rule, a closed chart derives.
pub proof fn lemma_found<P: Fn(&str) -> bool>(
    chart: Chart,
    g: GrammarModel<P>,
    tokens: Seq<Seq<char>>,
    rule: RuleModel,
    start: int,
    end: int,
    trees: Seq<Tree>,
) -> (j: int)
    requires
        chart.wf(),
        closed_up(chart.items, g, tokens),
        holds(chart.items, rule, 0, start, start),
        g.yields_first(rule, trees, true),
        0 <= start <= end <= tokens.len(),
        derivation::forest_tokens(trees) == tokens.subrange(start, end),
    ensures
        0 <= j < chart.items.len(),
        is_at(chart.items[j], rule, trees.len() as int, start, end),
        derivation::derives(chart, j, trees),
    decreases derivation::forest_steps(trees),
{
    let items = chart.items;
    if trees.len() == 0 {
        assert(tokens.subrange(start, end).len() == 0);
        let j = choose|j: int|
            0 <= j < items.len() && is_at(#[trigger] items[j], rule, 0, start, start);
        assert(chart.item_ok(j));
        j
    } else {
        let before = trees.drop_last();
        let last = trees.last();
        let head = derivation::forest_tokens(before);
        let mid = start + head.len();
        assert(derivation::forest_tokens(trees) == head + last.tokens());
        assert((head + last.tokens()).len() == end - start);
        assert(head =~= tokens.subrange(start, mid)) by {
            assert forall|k: int| 0 <= k < head.len() implies head[k] == tokens.subrange(
                start,
                mid,
            )[k] by {
                assert((head + last.tokens())[k] == head[k]);
            }
        }
        assert(last.tokens() =~= tokens.subrange(mid, end)) by {
            assert forall|k: int| 0 <= k < last.tokens().len() implies last.tokens()[k]
                == tokens.subrange(mid, end)[k] by {
                assert((head + last.tokens())[head.len() + k] == last.tokens()[k]);
            }
        }
        assert(g.yields_first(rule, before, true)) by {
            assert forall|m: int| #![trigger before[m]] 0 <= m < before.len() implies {
                &&& before[m].symbol() == rule.spec[m]
                &&& before[m] is Node ==> g.is_nonterm(rule.spec[m])
                &&& g.yields(before[m], true)
            } by {
                assert(trees[m] == before[m]);
            }
        }
        let p = lemma_found(chart, g, tokens, rule, start, mid, before);
        assert(trees[trees.len() - 1] == last);
        let symbol = rule.spec[trees.len() - 1];
        assert(items[p].next_symbol() == symbol);
        match last {
            Tree::Leaf { token, .. } => {
                assert(scanned(items, g, tokens, p));
                assert(last.tokens() =~= seq![token]);
                assert(tokens.subrange(mid, end)[0] == token);
                let src = Source::Scan { from: p, token };
                let j = choose|j: int|
                    0 <= j < items.len() && is_at(
                        #[trigger] items[j],
                        items[p].rule,
                        items[p].dot + 1,
                        items[p].start,
                        end,
                    ) && items[j].sources.contains(src);
                let k = items[j].sources.index_of(src);
                derivation::lemma_derives_by(chart, j, k, trees);
                j
            },
            Tree::Node { rule: inner, children } => {
                assert(predicted(items, g, p));
                let r = g.rules.index_of(inner);
                assert(g.rules[r] == inner);
                assert(holds(items, inner, 0, mid, mid));
                assert(last.steps() == 1 + derivation::forest_steps(children));
                assert(last.tokens() == derivation::forest_tokens(children));
                let c = lemma_found(chart, g, tokens, inner, mid, end, children);
                assert(completed(items, g, p, c));
                let src = Source::Completion { from: p, by: c };
                let j = choose|j: int|
                    0 <= j < items.len() && is_at(
                        #[trigger] items[j],
                        items[p].rule,
                        items[p].dot + 1,
                        items[p].start,
                        end,
                    ) && items[j].sources.contains(src);
                let k = items[j].sources.index_of(src);
                derivation::lemma_derives_by(chart, j, k, trees);
                j
            },
        }
    }
}

/// Whatever a chart derives from a root is a parse of the tokens.
pub proof fn law_chart_is_sound<P: Fn(&str) -> bool>(
    chart: Chart,
    g: GrammarModel<P>,
    tokens: Seq<Seq<char>>,
    root: int,
    children: Seq<Tree>,
)
    requires
        charts(chart, g, tokens),
        chart.roots.contains(root),
        derivation::derives(chart, root, children),
    ensures
        g.parses(tokens, (Tree::Node { rule: chart.items[root].rule, children }), false),
{
    let k = chart.roots.index_of(root);
    assert(chart.roots[k] == root);
    assert(is_root(chart.items[root], g, tokens));
    assert(chart.item_ok(root));
    lemma_derived(chart, g, tokens, root, children);
    let tree = Tree::Node { rule: chart.items[root].rule, children };
    assert(tree.tokens() == derivation::forest_tokens(children));
    assert(tokens.subrange(0, tokens.len() as int) =~= tokens);
}

/// Whatever is surely a parse of the tokens, a chart derives from a root.
pub proof fn law_chart_is_complete<P: Fn(&str) -> bool>(
    chart: Chart,
    g: GrammarModel<P>,
    tokens: Seq<Seq<char>>,
    tree: Tree,
)
    requires
        charts(chart, g, tokens),
        g.parses(tokens, tree, true),
    ensures
        tree matches Tree::Node { rule, children } && exists|root: int|
            #[trigger] chart.roots.contains(root) && chart.items[root].rule == rule
                && derivation::derives(chart, root, children),
{
    if let Tree::Node { rule, children } = tree {
        let r = g.rules.index_of(rule);
        assert(g.rules[r] == rule);
        assert(holds(chart.items, rule, 0, 0, 0));
        assert(tree.tokens() == derivation::forest_tokens(children));
        assert(tokens.subrange(0, tokens.len() as int) =~= tokens);
        let j = lemma_found(chart, g, tokens, rule, 0, tokens.len() as int, children);
        assert(is_root(chart.items[j], g, tokens));
        assert(chart.roots.contains(j));
    }
}

} // verus!
