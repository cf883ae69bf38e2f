//! What a syntax tree of the notation does to the builder of a grammar.

use vstd::prelude::*;
use vstd::string::*;

use crate::derivation;
use crate::derivation::Tree;
use crate::grammar::{BuilderModel, GrammarBuilder};
use crate::lexis;
use crate::meaning;
use crate::meaning::{G, Value};
use crate::syntax;
use crate::walk;

verus! {

/// A syntax tree of the notation: a token with its symbol, or a rule by its number, with the
/// trees for its symbols.
pub enum Syntax {
    Leaf(String, String),
    Node(usize, Vec<Syntax>),
}

impl Syntax {
    /// The tree over plain values.
    pub open spec fn tree(self) -> Tree
        decreases self,
    {
        match self {
            Syntax::Leaf(symbol, token) => Tree::Leaf { symbol: symbol@, token: token@ },
            Syntax::Node(rule, children) => Tree::Node {
                rule: syntax::productions()[rule as int],
                children: Seq::new(
                    children@.len(),
                    |k: int|
                        if 0 <= k < children@.len() {
                            children@[k].tree()
                        } else {
                            arbitrary()
                        },
                ),
            },
        }
    }
}

/// The trees of a list.
pub open spec fn trees_of(list: Seq<Syntax>) -> Seq<Tree> {
    Seq::new(list.len(), |k: int| list[k].tree())
}

impl Syntax {
    /// A copy.
    fn duplicate(&self) -> (copy: Self)
        ensures
            copy.tree() == self.tree(),
        decreases *self,
    {
        match self {
            Syntax::Leaf(symbol, token) => Syntax::Leaf(symbol.clone(), token.clone()),
            Syntax::Node(rule, children) => {
                let mut list: Vec<Syntax> = Vec::new();
                let mut k: usize = 0;
                while k < children.len()
                    invariant
                        *self == Syntax::Node(*rule, *children),
                        k <= children@.len(),
                        list@.len() == k,
                        forall|j: int|
                            0 <= j < k ==> (#[trigger] list@[j]).tree() == children@[j].tree(),
                    decreases children.len() - k,
                {
                    proof {
                        assert(self->Node_1 == *children);
                        assert(decreases_to!(*self => self->Node_1));
                        assert(decreases_to!(*children => children[k as int]));
                    }
                    list.push(children[k].duplicate());
                    k = k + 1;
                }
                let copy = Syntax::Node(*rule, list);
                proof {
                    lemma_tree(copy, *rule, list);
                    lemma_tree(*self, *rule, *children);
                    assert(trees_of(list@) =~= trees_of(children@));
                }
                copy
            },
        }
    }
}

impl Clone for Syntax {
    fn clone(&self) -> (copy: Self)
        ensures
            copy.tree() == self.tree(),
    {
        self.duplicate()
    }
}

/// The tree of a rule is made of the trees of its parts.
pub proof fn lemma_tree(s: Syntax, rule: usize, children: Vec<Syntax>)
    requires
        s == Syntax::Node(rule, children),
    ensures
        s.tree() == (Tree::Node {
            rule: syntax::productions()[rule as int],
            children: trees_of(children@),
        }),
{
    if let Tree::Node { children: list, .. } = s.tree() {
        assert(list =~= trees_of(children@));
    }
}

impl Syntax {
    /// The numbers stand for rules.
    pub open spec fn numbered(self) -> bool
        decreases self,
    {
        match self {
            Syntax::Leaf(_, _) => true,
            Syntax::Node(rule, children) => {
                &&& rule < syntax::productions().len()
                &&& forall|k: int|
                    #![trigger children@[k]]
                    0 <= k < children@.len() ==> children@[k].numbered()
            },
        }
    }
}

/// Each value is of the sort that its symbol has.
spec fn sorts_fit(symbols: Seq<Seq<char>>, args: Seq<Value>) -> bool {
    &&& symbols.len() == args.len()
    &&& forall|k: int|
        0 <= k < args.len() ==> meaning::sort_fits(symbols[k], #[trigger] args[k])
}

/// Takes the action of a rule of the notation.
fn take_action<P>(gb: &mut GrammarBuilder<P>, rule: usize, n: Vec<G>) -> (g: G)
    requires
        rule < syntax::productions().len(),
        sorts_fit(syntax::productions()[rule as int].spec, meaning::values(n@)),
    ensures
        (final(gb)@, g@) == meaning::reduce(
            old(gb)@,
            syntax::productions()[rule as int],
            meaning::values(n@),
        ),
        meaning::sort_fits(syntax::productions()[rule as int].head, g@),
{
    let ghost args = meaning::values(n@);
    let ghost this = syntax::productions()[rule as int];
    proof {
        syntax::lemma_names();
        syntax::lemma_distinct_productions();
        assert(args.len() == n@.len());
        assert forall|k: int| 0 <= k < n@.len() implies meaning::sort_fits(
            this.spec[k],
            (#[trigger] n@[k])@,
        ) by {
            assert(args[k] == n@[k]@);
        }
    }
    let mut n = n;
    if rule == 0 || rule == 1 {
        G::Nop
    } else if rule == 2 {
        meaning::ebnf_rule_action(gb, n)
    } else if rule == 3 || rule == 4 || rule == 5 || rule == 6 {
        meaning::ebnf_variantlist_action(n)
    } else if rule == 7 || rule == 8 {
        meaning::ebnf_variant_action(n)
    } else if rule == 9 {
        n.remove(0)
    } else if rule == 10 || rule == 11 {
        n.remove(1)
    } else if rule == 12 || rule == 15 {
        meaning::ebnf_optional_action(gb, n)
    } else if rule == 13 || rule == 16 {
        meaning::ebnf_repeat_action(gb, n)
    } else {
        meaning::ebnf_grouping_action(gb, n)
    }
}

/// A rule whose parts are being interpreted: those that are left, and what the others stand for,
/// the last one first.
struct Pending {
    rule: usize,
    rest: Vec<Syntax>,
    done: Vec<G>,
}

/// Such a rule over plain values.
struct Part {
    rule: int,
    rest: Seq<Tree>,
    done: Seq<Value>,
}

impl Pending {
    spec fn part(self) -> Part {
        Part { rule: self.rule as int, rest: trees_of(self.rest@), done: meaning::values(self.done@) }
    }

    /// The numbers in what is left stand for rules.
    spec fn numbered(self) -> bool {
        forall|k: int| 0 <= k < self.rest@.len() ==> (#[trigger] self.rest@[k]).numbered()
    }
}

/// The rules in progress: those on the stack, and the one on top.
spec fn parts_of(stack: Seq<Pending>, top: Pending) -> Seq<Part> {
    stack.map_values(|p: Pending| p.part()).push(top.part())
}

/// `part` with one more part of it interpreted.
spec fn with_value(part: Part, v: Value) -> Part {
    Part { done: part.done.push(v), ..part }
}

/// What is left of the interpretation: the last rule is finished, which gives one more value to
/// the rule below it.
spec fn finish<P>(b: BuilderModel<P>, parts: Seq<Part>) -> (BuilderModel<P>, Value)
    decreases parts.len(),
{
    let top = parts.last();
    let (after, args) = meaning::meanings(b, top.rest);
    let (next, v) = meaning::reduce(
        after,
        syntax::productions()[top.rule],
        args + top.done.reverse(),
    );
    if parts.len() <= 1 {
        (next, v)
    } else {
        let below = parts.drop_last();
        finish(next, below.drop_last().push(with_value(below.last(), v)))
    }
}

/// Taking the last part that is left, which stands for a value, leaves the others.
proof fn lemma_finish_part<P>(b: BuilderModel<P>, parts: Seq<Part>)
    requires
        parts.len() > 0,
        parts.last().rest.len() > 0,
    ensures
        ({
            let top = parts.last();
            let (after, v) = meaning::meaning(b, top.rest.last());
            let less = Part { rest: top.rest.drop_last(), ..top };
            finish(b, parts) == finish(after, parts.drop_last().push(with_value(less, v)))
        }),
{
    let top = parts.last();
    let (after, v) = meaning::meaning(b, top.rest.last());
    let less = Part { rest: top.rest.drop_last(), ..top };
    let next = parts.drop_last().push(with_value(less, v));
    let (done, values) = meaning::meanings(after, less.rest);
    assert(next.drop_last() =~= parts.drop_last());
    walk::lemma_push_reverse(values, top.done, v);
}

/// A part that is a rule is finished first.
proof fn lemma_finish_rule<P>(b: BuilderModel<P>, parts: Seq<Part>, rule: int, children: Seq<Tree>)
    requires
        parts.len() > 0,
        parts.last().rest.len() > 0,
        parts.last().rest.last() == (Tree::Node { rule: syntax::productions()[rule], children }),
    ensures
        ({
            let top = parts.last();
            let less = Part { rest: top.rest.drop_last(), ..top };
            let fresh = Part { rule, rest: children, done: Seq::empty() };
            finish(b, parts) == finish(b, parts.drop_last().push(less).push(fresh))
        }),
{
    let top = parts.last();
    let less = Part { rest: top.rest.drop_last(), ..top };
    let fresh = Part { rule, rest: children, done: Seq::empty() };
    let mid = parts.drop_last().push(less);
    let next = mid.push(fresh);
    lemma_finish_part(b, parts);
    let (after, args) = meaning::meanings(b, children);
    assert(args + fresh.done.reverse() =~= args);
    assert(next.drop_last() =~= mid);
    assert(mid.drop_last() =~= parts.drop_last());
}

/// The parts that are left are sound, and with the values, and `gap` more, there are as many as
/// the rule has symbols; each value is of the sort that its symbol has.
spec fn part_fits(part: Part, gap: int) -> bool {
    let spec = syntax::productions()[part.rule].spec;
    &&& 0 <= part.rule < syntax::productions().len()
    &&& part.rest.len() + gap + part.done.len() == spec.len()
    &&& forall|k: int|
        0 <= k < part.rest.len() ==> syntax::well_formed(#[trigger] part.rest[k])
            && meaning::numbers_fit(part.rest[k]) && part.rest[k].symbol() == spec[k]
    &&& forall|k: int|
        0 <= k < part.done.len() ==> meaning::sort_fits(
            spec[spec.len() - 1 - k],
            #[trigger] part.done[k],
        )
}

/// The rules in progress are sound, and each but the last waits for the value of the next one.
spec fn parts_fit(parts: Seq<Part>) -> bool {
    &&& parts.len() > 0
    &&& part_fits(parts.last(), 0)
    &&& forall|k: int|
        0 <= k < parts.len() - 1 ==> part_fits(#[trigger] parts[k], 1)
            && syntax::productions()[parts[k].rule].spec[parts[k].rest.len() as int]
            == syntax::productions()[parts[k + 1].rule].head
}

/// The parts that are left, and the rules in progress.
spec fn work(parts: Seq<Part>) -> nat
    decreases parts.len(),
{
    if parts.len() == 0 {
        0
    } else {
        work(parts.drop_last()) + 1 + derivation::forest_steps(parts.last().rest)
    }
}

/// The rule of a sound syntax tree, with its parts.
proof fn lemma_fresh_part(s: Syntax, rule: usize, children: Vec<Syntax>)
    requires
        s == Syntax::Node(rule, children),
        s.numbered(),
        syntax::well_formed(s.tree()),
        meaning::numbers_fit(s.tree()),
    ensures
        s.tree() == (Tree::Node {
            rule: syntax::productions()[rule as int],
            children: trees_of(children@),
        }),
        part_fits(
            Part { rule: rule as int, rest: trees_of(children@), done: Seq::empty() },
            0,
        ),
        forall|k: int| 0 <= k < children@.len() ==> (#[trigger] children@[k]).numbered(),
        s.tree().steps() == 1 + derivation::forest_steps(trees_of(children@)),
{
    lemma_tree(s, rule, children);
    let list = trees_of(children@);
    assert forall|k: int| 0 <= k < list.len() implies syntax::well_formed(#[trigger] list[k])
        && meaning::numbers_fit(list[k]) && list[k].symbol()
        == syntax::productions()[rule as int].spec[k] by {
        assert(s.tree()->children[k] == list[k]);
    }
}

/// With its last part taken, a rule waits for the value of that part.
proof fn lemma_less(part: Part)
    requires
        part_fits(part, 0),
        part.rest.len() > 0,
    ensures
        part_fits(Part { rest: part.rest.drop_last(), ..part }, 1),
        syntax::well_formed(part.rest.last()),
        meaning::numbers_fit(part.rest.last()),
        part.rest.last().symbol() == syntax::productions()[part.rule].spec[part.rest.len() - 1],
{
    let n = part.rest.len() - 1;
    let less = part.rest.drop_last();
    let spec = syntax::productions()[part.rule].spec;
    assert(syntax::well_formed(part.rest[n]));
    assert forall|k: int| 0 <= k < less.len() implies syntax::well_formed(#[trigger] less[k])
        && meaning::numbers_fit(less[k]) && less[k].symbol() == spec[k] by {
        assert(less[k] == part.rest[k]);
    }
}

proof fn lemma_with_value(part: Part, v: Value)
    requires
        part_fits(part, 1),
        meaning::sort_fits(syntax::productions()[part.rule].spec[part.rest.len() as int], v),
    ensures
        part_fits(with_value(part, v), 0),
{
    let spec = syntax::productions()[part.rule].spec;
    let next = with_value(part, v);
    assert forall|k: int| 0 <= k < next.done.len() implies meaning::sort_fits(
        spec[spec.len() - 1 - k],
        #[trigger] next.done[k],
    ) by {
        if k < part.done.len() {
            assert(next.done[k] == part.done[k]);
        }
    }
}

/// The last part of the last rule is replaced by its value.
proof fn lemma_deliver(parts: Seq<Part>, v: Value)
    requires
        parts_fit(parts),
        parts.last().rest.len() > 0,
        meaning::sort_fits(parts.last().rest.last().symbol(), v),
    ensures
        ({
            let top = parts.last();
            let less = Part { rest: top.rest.drop_last(), ..top };
            let next = parts.drop_last().push(with_value(less, v));
            parts_fit(next) && work(next) < work(parts) && next[0].rule == parts[0].rule
        }),
{
    let top = parts.last();
    let less = Part { rest: top.rest.drop_last(), ..top };
    let next = parts.drop_last().push(with_value(less, v));
    lemma_less(top);
    lemma_with_value(less, v);
    assert(next.drop_last() =~= parts.drop_last());
    assert forall|k: int| 0 <= k < next.len() - 1 implies part_fits(#[trigger] next[k], 1)
        && syntax::productions()[next[k].rule].spec[next[k].rest.len() as int]
        == syntax::productions()[next[k + 1].rule].head by {
        assert(next[k] == parts[k]);
        assert(next[k + 1].rule == parts[k + 1].rule);
    }
}

/// The last part of the last rule is a rule, and is begun.
proof fn lemma_descend(parts: Seq<Part>, fresh: Part)
    requires
        parts_fit(parts),
        parts.last().rest.len() > 0,
        parts.last().rest.last() == (Tree::Node {
            rule: syntax::productions()[fresh.rule],
            children: fresh.rest,
        }),
        part_fits(fresh, 0),
    ensures
        ({
            let top = parts.last();
            let less = Part { rest: top.rest.drop_last(), ..top };
            let next = parts.drop_last().push(less).push(fresh);
            parts_fit(next) && work(next) < work(parts) && next[0].rule == parts[0].rule
        }),
{
    let top = parts.last();
    let less = Part { rest: top.rest.drop_last(), ..top };
    let mid = parts.drop_last().push(less);
    let next = mid.push(fresh);
    lemma_less(top);
    assert(next.drop_last() =~= mid);
    assert(mid.drop_last() =~= parts.drop_last());
    assert(top.rest.last().steps() == 1 + derivation::forest_steps(fresh.rest));
    assert(work(mid) == work(parts.drop_last()) + 1 + derivation::forest_steps(less.rest));
    assert(work(next) == work(mid) + 1 + derivation::forest_steps(fresh.rest));
    assert forall|k: int| 0 <= k < next.len() - 1 implies part_fits(#[trigger] next[k], 1)
        && syntax::productions()[next[k].rule].spec[next[k].rest.len() as int]
        == syntax::productions()[next[k + 1].rule].head by {
        if k < parts.len() - 1 {
            assert(next[k] == parts[k]);
            assert(next[k + 1].rule == parts[k + 1].rule);
        }
    }
}

/// The last rule is done, and its value goes to the one below it.
proof fn lemma_ascend(parts: Seq<Part>, v: Value)
    requires
        parts_fit(parts),
        parts.len() > 1,
        meaning::sort_fits(syntax::productions()[parts.last().rule].head, v),
    ensures
        ({
            let below = parts.drop_last();
            let next = below.drop_last().push(with_value(below.last(), v));
            parts_fit(next) && work(next) < work(parts) && next[0].rule == parts[0].rule
        }),
{
    let below = parts.drop_last();
    let waiting = below.last();
    let next = below.drop_last().push(with_value(waiting, v));
    assert(part_fits(parts[parts.len() - 2], 1));
    lemma_with_value(waiting, v);
    assert(next.drop_last() =~= below.drop_last());
    assert(work(parts) > work(below));
    assert(work(below) == work(below.drop_last()) + 1 + derivation::forest_steps(
        waiting.rest,
    ));
    assert forall|k: int| 0 <= k < next.len() - 1 implies part_fits(#[trigger] next[k], 1)
        && syntax::productions()[next[k].rule].spec[next[k].rest.len() as int]
        == syntax::productions()[next[k + 1].rule].head by {
        assert(next[k] == parts[k]);
        assert(next[k + 1].rule == parts[k + 1].rule);
    }
}

/// A token can be lifted, and stands for a value of the sort that its symbol has.
proof fn lemma_leaf<P>(b: BuilderModel<P>, symbol: Seq<char>, token: Seq<char>)
    requires
        syntax::well_formed(Tree::Leaf { symbol, token }),
    ensures
        symbol == "<Num>"@ ==> lexis::is_digits(token),
        meaning::sort_fits(symbol, meaning::lift(b, symbol, token).1),
{
    syntax::lemma_names();
}

/// The values, the last one first.
fn reversed(list: Vec<G>) -> (out: Vec<G>)
    ensures
        meaning::values(out@) == meaning::values(list@).reverse(),
{
    let ghost all = meaning::values(list@);
    let mut list = list;
    let mut out: Vec<G> = Vec::new();
    proof {
        assert(meaning::values(list@) =~= all.take(all.len() as int));
        assert(meaning::values(out@) =~= all.skip(all.len() as int).reverse());
    }
    while list.len() > 0
        invariant
            list@.len() <= all.len(),
            meaning::values(list@) == all.take(list@.len() as int),
            meaning::values(out@) == all.skip(list@.len() as int).reverse(),
        decreases list.len(),
    {
        let ghost n = list@.len() as int;
        let ghost before = out@;
        if let Some(g) = list.pop() {
            out.push(g);
            proof {
                assert(all.take(n)[n - 1] == g@);
                assert(meaning::values(list@) =~= all.take(n - 1)) by {
                    assert forall|k: int| 0 <= k < n - 1 implies meaning::values(list@)[k]
                        == all.take(n - 1)[k] by {
                        assert(all.take(n)[k] == list@[k]@);
                    }
                }
                assert(meaning::values(out@) =~= meaning::values(before).push(g@));
                assert(meaning::values(out@) =~= all.skip(n - 1).reverse());
            }
        }
    }
    proof {
        assert(all.skip(0) =~= all);
    }
    out
}

/// Adds what a syntax tree means to the builder, and says what it stands for.
pub fn interpret<P>(gb: &mut GrammarBuilder<P>, node: Syntax) -> (g: G)
    requires
        node.numbered(),
        syntax::well_formed(node.tree()),
        meaning::numbers_fit(node.tree()),
    ensures
        (final(gb)@, g@) == meaning::meaning(old(gb)@, node.tree()),
        meaning::sort_fits(node.tree().symbol(), g@),
{
    let ghost tree = node.tree();
    let ghost whole = meaning::meaning(gb@, tree);
    let mut top: Pending = match node {
        Syntax::Leaf(symbol, token) => {
            proof {
                lemma_leaf(gb@, symbol@, token@);
            }
            return meaning::ebnf_terminal_parser(gb, symbol.as_str(), token.as_str());
        },
        Syntax::Node(rule, children) => {
            proof {
                lemma_fresh_part(node, rule, children);
            }
            Pending { rule, rest: children, done: Vec::new() }
        },
    };
    // The rules whose last part in progress is the one above it.
    let mut stack: Vec<Pending> = Vec::new();
    proof {
        assert(meaning::values(top.done@) =~= Seq::empty());
        let (after, args) = meaning::meanings(gb@, top.part().rest);
        assert(args + top.part().done.reverse() =~= args);
    }
    loop
        invariant
            parts_fit(parts_of(stack@, top)),
            top.numbered(),
            forall|k: int| 0 <= k < stack@.len() ==> (#[trigger] stack@[k]).numbered(),
            finish(gb@, parts_of(stack@, top)) == whole,
            whole == meaning::meaning(old(gb)@, tree),
            tree == node.tree(),
            tree.symbol() == syntax::productions()[parts_of(stack@, top)[0].rule].head,
        decreases work(parts_of(stack@, top)),
    {
        let ghost parts = parts_of(stack@, top);
        let ghost before = top;
        let ghost b = gb@;
        proof {
            assert(parts.last() == top.part());
        }
        match top.rest.pop() {
            Some(child) => {
                let ghost less = Part { rest: before.part().rest.drop_last(), ..before.part() };
                proof {
                    assert(before.part().rest.last() == child.tree());
                    assert(trees_of(top.rest@) =~= less.rest);
                    assert(top.part() == less);
                    assert(before.rest@[before.rest@.len() - 1] == child);
                    lemma_less(before.part());
                }
                match child {
                    Syntax::Leaf(symbol, token) => {
                        proof {
                            lemma_leaf(b, symbol@, token@);
                        }
                        let g = meaning::ebnf_terminal_parser(gb, symbol.as_str(), token.as_str());
                        top.done.push(g);
                        proof {
                            lemma_finish_part(b, parts);
                            assert(meaning::values(top.done@) =~= less.done.push(g@));
                            lemma_deliver(parts, g@);
                            assert(parts_of(stack@, top) =~= parts.drop_last().push(
                                with_value(less, g@),
                            ));
                        }
                    },
                    Syntax::Node(rule, children) => {
                        let fresh = Pending { rule, rest: children, done: Vec::new() };
                        proof {
                            lemma_fresh_part(child, rule, children);
                            lemma_finish_rule(b, parts, rule as int, trees_of(children@));
                            assert(meaning::values(fresh.done@) =~= Seq::empty());
                            lemma_descend(parts, fresh.part());
                        }
                        stack.push(top);
                        top = fresh;
                        proof {
                            assert(parts_of(stack@, top) =~= parts.drop_last().push(less).push(
                                fresh.part(),
                            ));
                        }
                    },
                }
            },
            None => {
                let rule = top.rule;
                let n = reversed(top.done);
                proof {
                    let spec = syntax::productions()[rule as int].spec;
                    let args = meaning::values(n@);
                    assert(before.part().rest =~= Seq::empty());
                    assert forall|k: int| 0 <= k < args.len() implies meaning::sort_fits(
                        spec[k],
                        #[trigger] args[k],
                    ) by {
                        assert(args[k] == before.part().done[args.len() - 1 - k]);
                    }
                    assert(Seq::<Value>::empty() + before.part().done.reverse() =~= args);
                }
                let g = take_action(gb, rule, n);
                match stack.pop() {
                    None => {
                        proof {
                            assert(parts.len() == 1);
                        }
                        return g;
                    },
                    Some(below) => {
                        let ghost waiting = below.part();
                        top = below;
                        top.done.push(g);
                        proof {
                            let rest = parts.drop_last();
                            assert(rest.last() == waiting);
                            assert(rest.drop_last() =~= stack@.map_values(|p: Pending| p.part()));
                            assert(meaning::values(top.done@) =~= waiting.done.push(g@));
                            lemma_ascend(parts, g@);
                            assert(parts_of(stack@, top) =~= rest.drop_last().push(
                                with_value(waiting, g@),
                            ));
                        }
                    },
                }
            },
        }
    }
}

/// The numerals of all trees are in range.
spec fn all_fit(list: Seq<Tree>) -> bool {
    forall|k: int| 0 <= k < list.len() ==> meaning::numbers_fit(#[trigger] list[k])
}

proof fn lemma_all_fit(list: Seq<Tree>)
    requires
        list.len() > 0,
    ensures
        all_fit(list) <==> all_fit(list.drop_last()) && meaning::numbers_fit(list.last()),
{
    let rest = list.drop_last();
    if all_fit(list) {
        assert forall|k: int| 0 <= k < rest.len() implies meaning::numbers_fit(
            #[trigger] rest[k],
        ) by {
            assert(rest[k] == list[k]);
        }
        assert(meaning::numbers_fit(list[list.len() - 1]));
    }
    if all_fit(rest) && meaning::numbers_fit(list.last()) {
        assert forall|k: int| 0 <= k < list.len() implies meaning::numbers_fit(
            #[trigger] list[k],
        ) by {
            if k < rest.len() {
                assert(rest[k] == list[k]);
            }
        }
    }
}

proof fn lemma_node_fits(tree: Tree)
    requires
        tree is Node,
    ensures
        meaning::numbers_fit(tree) <==> all_fit(tree->children),
{
    let children = tree->children;
    if all_fit(children) {
        assert forall|k: int| #![trigger children[k]] 0 <= k < children.len() implies
            meaning::numbers_fit(children[k]) by {}
    }
}

proof fn lemma_both_fit(a: Seq<Tree>, b: Seq<Tree>)
    ensures
        all_fit(a + b) <==> all_fit(a) && all_fit(b),
        derivation::forest_steps(a + b) == derivation::forest_steps(a)
            + derivation::forest_steps(b),
    decreases b.len(),
{
    if b.len() == 0 {
        assert(a + b =~= a);
    } else {
        assert((a + b).drop_last() =~= a + b.drop_last());
        lemma_both_fit(a, b.drop_last());
        lemma_all_fit(a + b);
        lemma_all_fit(b);
    }
}

/// Whether the numerals of a syntax tree are in range.
pub fn numbers_fit(node: Syntax) -> (fit: bool)
    requires
        syntax::well_formed(node.tree()),
    ensures
        fit == meaning::numbers_fit(node.tree()),
{
    let ghost tree = node.tree();
    let mut fit = true;
    let mut rest: Vec<Syntax> = Vec::new();
    rest.push(node);
    proof {
        syntax::lemma_names();
        assert(trees_of(rest@) =~= seq![tree]);
        assert(trees_of(rest@)[0] == tree);
    }
    while rest.len() > 0
        invariant
            forall|k: int|
                0 <= k < rest@.len() ==> syntax::well_formed((#[trigger] rest@[k]).tree()),
            meaning::numbers_fit(tree) <==> fit && all_fit(trees_of(rest@)),
        decreases derivation::forest_steps(trees_of(rest@)),
    {
        let ghost before = trees_of(rest@);
        if let Some(last) = rest.pop() {
            proof {
                syntax::lemma_names();
                assert(before.last() == last.tree());
                assert(trees_of(rest@) =~= before.drop_last());
                lemma_all_fit(before);
            }
            match last {
                Syntax::Leaf(symbol, token) => {
                    if lexis::same_text(symbol.as_str(), "<Num>") && meaning::read_numeral(
                        token.as_str(),
                    ).is_none() {
                        fit = false;
                    }
                },
                Syntax::Node(rule, children) => {
                    let ghost some = rest@;
                    let ghost more = children@;
                    let mut children = children;
                    proof {
                        lemma_tree(last, rule, children);
                        lemma_node_fits(last.tree());
                        assert forall|k: int| 0 <= k < more.len() implies syntax::well_formed(
                            (#[trigger] more[k]).tree(),
                        ) by {
                            assert(last.tree()->children[k] == more[k].tree());
                        }
                    }
                    rest.append(&mut children);
                    proof {
                        assert(trees_of(rest@) =~= trees_of(some) + trees_of(more));
                        lemma_both_fit(trees_of(some), trees_of(more));
                        assert(last.tree().steps() == 1 + derivation::forest_steps(
                            trees_of(more),
                        ));
                    }
                },
            }
        }
    }
    fit
}

} // verus!
