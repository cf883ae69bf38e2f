//! The language of a grammar by rewriting, and that exactly its texts are parsed.

use vstd::prelude::*;

use crate::derivation;
use crate::derivation::Tree;
use crate::grammar;
use crate::grammar::{GrammarModel, Kind, RuleModel};
use crate::lexis;
use crate::lexis::MatcherModel;
use crate::notation;

verus! {

/// The first symbol of that name is of this kind.
pub open spec fn is_kind<P>(g: GrammarModel<P>, name: Seq<char>, kind: Kind<P>) -> bool {
    exists|k: int|
        0 <= k < g.symbols.len() && #[trigger] g.symbols[k] == (name, kind) && forall|j: int|
            0 <= j < k ==> (#[trigger] g.symbols[j]).0 != name
}

/// In a list of symbols, the rewritable one at `at` gives way to the symbols of rule `r`.
pub open spec fn replaced<P>(
    g: GrammarModel<P>,
    a: Seq<Seq<char>>,
    b: Seq<Seq<char>>,
    at: int,
    r: int,
) -> bool {
    &&& 0 <= at < a.len()
    &&& 0 <= r < g.rules.len()
    &&& g.rules[r].head == a[at]
    &&& is_kind(g, a[at], Kind::NonTerm)
    &&& b == a.take(at) + g.rules[r].spec + a.skip(at + 1)
}

/// `a` becomes `b` in one step.
pub open spec fn rewrites<P>(g: GrammarModel<P>, a: Seq<Seq<char>>, b: Seq<Seq<char>>) -> bool {
    exists|at: int, r: int| #[trigger] replaced(g, a, b, at, r)
}

/// Each list of symbols becomes the next one in one step.
pub open spec fn is_rewriting<P>(g: GrammarModel<P>, forms: Seq<Seq<Seq<char>>>) -> bool {
    &&& forms.len() > 0
    &&& forall|j: int| 0 <= j < forms.len() - 1 ==> rewrites(g, #[trigger] forms[j], forms[j + 1])
}

/// `a` becomes `b` in any number of steps.
pub open spec fn becomes<P>(g: GrammarModel<P>, a: Seq<Seq<char>>, b: Seq<Seq<char>>) -> bool {
    exists|forms: Seq<Seq<Seq<char>>>| #[trigger]
        is_rewriting(g, forms) && forms[0] == a && forms.last() == b
}

/// The terminal `name` reads the token: a predicate may say so, and where `sure`, cannot say
/// otherwise.
pub open spec fn reads<P: Fn(&str) -> bool>(
    g: GrammarModel<P>,
    name: Seq<char>,
    token: Seq<char>,
    sure: bool,
) -> bool {
    exists|m: MatcherModel<P>| #[trigger]
        is_kind(g, name, Kind::Terminal(m)) && match m {
            MatcherModel::Plugged(p) => if sure {
                forall|a: &str| a@ == token ==> !#[trigger] call_ensures(p, (a,), false)
            } else {
                exists|a: &str| a@ == token && #[trigger] call_ensures(p, (a,), true)
            },
            MatcherModel::Exactly(s) => token == s,
            _ => m.accepts(token),
        }
}

/// A rule of the start symbol can be rewritten to terminals that read the tokens one by one.
pub open spec fn in_language<P: Fn(&str) -> bool>(
    g: GrammarModel<P>,
    tokens: Seq<Seq<char>>,
    sure: bool,
) -> bool {
    exists|r: int, names: Seq<Seq<char>>|
        0 <= r < g.rules.len() && (#[trigger] g.rules[r]).head == g.start && #[trigger] becomes(
            g,
            g.rules[r].spec,
            names,
        ) && names.len() == tokens.len() && forall|k: int|
            0 <= k < names.len() ==> reads(g, #[trigger] names[k], tokens[k], sure)
}

/// A symbol is found as what the first of its name is.
proof fn lemma_kind<P>(list: Seq<(Seq<char>, Kind<P>)>, name: Seq<char>) -> (k: int)
    ensures
        grammar::find(list, name) is Some ==> 0 <= k < list.len() && list[k] == (
            name,
            grammar::find(list, name)->Some_0,
        ) && forall|j: int| 0 <= j < k ==> (#[trigger] list[j]).0 != name,
    decreases list.len(),
{
    if list.len() == 0 {
        0
    } else if list[0].0 == name {
        0
    } else {
        let rest = list.drop_first();
        let k = lemma_kind(rest, name);
        if grammar::find(list, name) is Some {
            assert(rest[k] == list[k + 1]);
            assert forall|j: int| 0 <= j < k + 1 implies (#[trigger] list[j]).0 != name by {
                if j > 0 {
                    assert(rest[j - 1] == list[j]);
                }
            }
        }
        k + 1
    }
}

/// A symbol is looked up by its name: what is found is the first symbol of that name, and nothing
/// is found only where there is none.
pub proof fn law_the_first_of_a_name_is_found<P>(g: GrammarModel<P>, name: Seq<char>, kind: Kind<P>)
    ensures
        grammar::find(g.symbols, name) == Some(kind) <==> is_kind(g, name, kind),
        grammar::find(g.symbols, name) is None <==> forall|k: int|
            0 <= k < g.symbols.len() ==> (#[trigger] g.symbols[k]).0 != name,
{
    let k = lemma_kind(g.symbols, name);
    if is_kind(g, name, kind) {
        let j = choose|j: int|
            0 <= j < g.symbols.len() && #[trigger] g.symbols[j] == (name, kind) && forall|m: int|
                0 <= m < j ==> (#[trigger] g.symbols[m]).0 != name;
        notation::lemma_find_at(g.symbols, j);
    }
    if grammar::find(g.symbols, name) == Some(kind) {
        assert(g.symbols[k] == (name, kind));
    }
    if forall|k: int| 0 <= k < g.symbols.len() ==> (#[trigger] g.symbols[k]).0 != name {
        if grammar::find(g.symbols, name) is Some {
            assert(g.symbols[k].0 == name);
        }
    }
    if grammar::find(g.symbols, name) is None {
        assert forall|m: int| 0 <= m < g.symbols.len() implies (#[trigger] g.symbols[m]).0
            != name by {
            lemma_found_if_there(g.symbols, name, m);
        }
    }
}

proof fn lemma_found_if_there<P>(list: Seq<(Seq<char>, Kind<P>)>, name: Seq<char>, m: int)
    requires
        0 <= m < list.len(),
        grammar::find(list, name) is None,
    ensures
        list[m].0 != name,
    decreases list.len(),
{
    if m > 0 {
        lemma_found_if_there(list.drop_first(), name, m - 1);
        assert(list.drop_first()[m - 1] == list[m]);
    }
}

/// What a terminal reads, by its matcher.
proof fn lemma_reads<P: Fn(&str) -> bool>(
    g: GrammarModel<P>,
    name: Seq<char>,
    token: Seq<char>,
    sure: bool,
)
    ensures
        g.reads(name, token, sure) <==> reads(g, name, token, sure),
{
    if g.reads(name, token, sure) {
        let m = g.matcher(name)->Some_0;
        law_the_first_of_a_name_is_found(g, name, Kind::Terminal(m));
        if let MatcherModel::Plugged(p) = m {
            lexis::law_the_predicate_decides(p, token);
        }
        assert(is_kind(g, name, Kind::Terminal(m)));
    }
    if reads(g, name, token, sure) {
        let m = choose|m: MatcherModel<P>| #[trigger]
            is_kind(g, name, Kind::Terminal(m)) && match m {
                MatcherModel::Plugged(p) => if sure {
                    forall|a: &str| a@ == token ==> !#[trigger] call_ensures(p, (a,), false)
                } else {
                    exists|a: &str| a@ == token && #[trigger] call_ensures(p, (a,), true)
                },
                MatcherModel::Exactly(s) => token == s,
                _ => m.accepts(token),
            };
        law_the_first_of_a_name_is_found(g, name, Kind::Terminal(m));
        if let MatcherModel::Plugged(p) = m {
            lexis::law_the_predicate_decides(p, token);
        }
    }
}

/// What does not change is there in no steps.
proof fn lemma_becomes_self<P>(g: GrammarModel<P>, a: Seq<Seq<char>>)
    ensures
        becomes(g, a, a),
{
    assert(is_rewriting(g, seq![a]));
}

/// Steps behind steps.
proof fn lemma_becomes_then<P>(
    g: GrammarModel<P>,
    a: Seq<Seq<char>>,
    b: Seq<Seq<char>>,
    c: Seq<Seq<char>>,
)
    requires
        becomes(g, a, b),
        becomes(g, b, c),
    ensures
        becomes(g, a, c),
{
    let x = choose|forms: Seq<Seq<Seq<char>>>| #[trigger]
        is_rewriting(g, forms) && forms[0] == a && forms.last() == b;
    let y = choose|forms: Seq<Seq<Seq<char>>>| #[trigger]
        is_rewriting(g, forms) && forms[0] == b && forms.last() == c;
    let all = x + y.drop_first();
    let d = x.len() - 1;
    assert forall|j: int| 0 <= j < all.len() - 1 implies rewrites(
        g,
        #[trigger] all[j],
        all[j + 1],
    ) by {
        if j < d {
            assert(all[j] == x[j] && all[j + 1] == x[j + 1]);
        } else {
            assert(all[j] == y[j - d]);
            assert(all[j + 1] == y[j - d + 1]);
        }
    }
    assert(all.last() == c);
    assert(is_rewriting(g, all));
}

/// One step among other symbols.
proof fn lemma_becomes_step<P>(
    g: GrammarModel<P>,
    before: Seq<Seq<char>>,
    rule: RuleModel,
    after: Seq<Seq<char>>,
)
    requires
        g.rules.contains(rule),
        is_kind(g, rule.head, Kind::NonTerm),
    ensures
        becomes(g, before.push(rule.head) + after, before + rule.spec + after),
{
    let a = before.push(rule.head) + after;
    let b = before + rule.spec + after;
    let r = g.rules.index_of(rule);
    let at = before.len() as int;
    assert(g.rules[r] == rule);
    assert(a.take(at) =~= before);
    assert(a.skip(at + 1) =~= after);
    assert(replaced(g, a, b, at, r));
    let forms = seq![a, b];
    assert forall|j: int| 0 <= j < forms.len() - 1 implies rewrites(
        g,
        #[trigger] forms[j],
        forms[j + 1],
    ) by {}
    assert(is_rewriting(g, forms));
}

proof fn lemma_rewrites_among<P>(
    g: GrammarModel<P>,
    before: Seq<Seq<char>>,
    x: Seq<Seq<char>>,
    y: Seq<Seq<char>>,
    after: Seq<Seq<char>>,
)
    requires
        rewrites(g, x, y),
    ensures
        rewrites(g, before + x + after, before + y + after),
{
    let (at, r) = choose|at: int, r: int| #[trigger] replaced(g, x, y, at, r);
    let a = before + x + after;
    let b = before + y + after;
    let m = before.len() + at;
    let spec = g.rules[r].spec;
    assert(a[m] == x[at]);
    assert(a.take(m) =~= before + x.take(at));
    assert(a.skip(m + 1) =~= x.skip(at + 1) + after);
    assert(b =~= a.take(m) + spec + a.skip(m + 1));
    assert(replaced(g, a, b, m, r));
}

/// Steps among other symbols.
proof fn lemma_becomes_among<P>(
    g: GrammarModel<P>,
    before: Seq<Seq<char>>,
    a: Seq<Seq<char>>,
    b: Seq<Seq<char>>,
    after: Seq<Seq<char>>,
)
    requires
        becomes(g, a, b),
    ensures
        becomes(g, before + a + after, before + b + after),
{
    let forms = choose|forms: Seq<Seq<Seq<char>>>| #[trigger]
        is_rewriting(g, forms) && forms[0] == a && forms.last() == b;
    let all = Seq::new(forms.len(), |j: int| before + forms[j] + after);
    assert forall|j: int| 0 <= j < all.len() - 1 implies rewrites(
        g,
        #[trigger] all[j],
        all[j + 1],
    ) by {
        assert(rewrites(g, forms[j], forms[j + 1]));
        lemma_rewrites_among(g, before, forms[j], forms[j + 1], after);
    }
    assert(is_rewriting(g, all));
}

/// The symbols of the trees.
pub open spec fn symbols_of(trees: Seq<Tree>) -> Seq<Seq<char>> {
    trees.map_values(|t: Tree| t.symbol())
}

/// The symbols at the leaves of the trees, from left to right.
pub open spec fn leaf_symbols(trees: Seq<Tree>) -> Seq<Seq<char>>
    decreases derivation::forest_steps(trees),
{
    if trees.len() == 0 {
        Seq::empty()
    } else {
        leaf_symbols(trees.drop_last()) + match trees.last() {
            Tree::Leaf { symbol, .. } => seq![symbol],
            Tree::Node { children, .. } => {
                proof {
                    assert(trees.last().steps() == 1 + derivation::forest_steps(children));
                }
                leaf_symbols(children)
            },
        }
    }
}

/// The trees are derivation trees of the grammar, and those of rules are of rewritable symbols.
pub open spec fn sound<P: Fn(&str) -> bool>(g: GrammarModel<P>, trees: Seq<Tree>, sure: bool) -> bool {
    forall|k: int|
        #![trigger trees[k]]
        0 <= k < trees.len() ==> g.yields(trees[k], sure) && (trees[k] is Node ==> g.is_nonterm(
            trees[k].symbol(),
        ))
}

proof fn lemma_sound_parts<P: Fn(&str) -> bool>(g: GrammarModel<P>, trees: Seq<Tree>, sure: bool)
    requires
        sound(g, trees, sure),
        trees.len() > 0,
    ensures
        sound(g, trees.drop_last(), sure),
        trees.last() matches Tree::Node { rule, children } ==> sound(g, children, sure)
            && symbols_of(children) == rule.spec && g.rules.contains(rule) && is_kind(
            g,
            rule.head,
            Kind::NonTerm,
        ),
        trees.last() matches Tree::Leaf { symbol, token } ==> reads(g, symbol, token, sure),
{
    let before = trees.drop_last();
    let last = trees[trees.len() - 1];
    assert forall|k: int| #![trigger before[k]] 0 <= k < before.len() implies g.yields(
        before[k],
        sure,
    ) && (before[k] is Node ==> g.is_nonterm(before[k].symbol())) by {
        assert(before[k] == trees[k]);
    }
    match last {
        Tree::Leaf { symbol, token } => {
            lemma_reads(g, symbol, token, sure);
        },
        Tree::Node { rule, children } => {
            assert forall|k: int| #![trigger children[k]] 0 <= k < children.len() implies g.yields(
                children[k],
                sure,
            ) && (children[k] is Node ==> g.is_nonterm(children[k].symbol())) by {}
            assert(symbols_of(children) =~= rule.spec);
            law_the_first_of_a_name_is_found(g, rule.head, Kind::NonTerm);
        },
    }
}

/// The symbols of derivation trees become those at their leaves.
proof fn lemma_trees_rewrite<P: Fn(&str) -> bool>(
    g: GrammarModel<P>,
    trees: Seq<Tree>,
    sure: bool,
)
    requires
        sound(g, trees, sure),
    ensures
        becomes(g, symbols_of(trees), leaf_symbols(trees)),
    decreases derivation::forest_steps(trees),
{
    let symbols = symbols_of(trees);
    let leaves = leaf_symbols(trees);
    let none = Seq::<Seq<char>>::empty();
    if trees.len() == 0 {
        assert(symbols =~= none);
        lemma_becomes_self(g, none);
    } else {
        let before = trees.drop_last();
        let last = trees.last();
        let first = leaf_symbols(before);
        lemma_sound_parts(g, trees, sure);
        lemma_trees_rewrite(g, before, sure);
        lemma_becomes_among(g, none, symbols_of(before), first, seq![last.symbol()]);
        assert(none + symbols_of(before) + seq![last.symbol()] =~= symbols);
        assert(none + first + seq![last.symbol()] =~= first.push(last.symbol()));
        match last {
            Tree::Leaf { symbol, token } => {
                assert(leaves =~= first.push(symbol));
            },
            Tree::Node { rule, children } => {
                assert(last.steps() == 1 + derivation::forest_steps(children));
                lemma_trees_rewrite(g, children, sure);
                lemma_becomes_step(g, first, rule, none);
                assert(first.push(rule.head) + none =~= first.push(last.symbol()));
                lemma_becomes_among(g, first, rule.spec, leaf_symbols(children), none);
                assert(first + leaf_symbols(children) + none =~= leaves);
                lemma_becomes_then(
                    g,
                    first.push(rule.head),
                    first + rule.spec + none,
                    leaves,
                );
                lemma_becomes_then(g, symbols, first.push(last.symbol()), leaves);
            },
        }
    }
}

/// The symbols at the leaves of derivation trees read the tokens.
proof fn lemma_leaves_read<P: Fn(&str) -> bool>(g: GrammarModel<P>, trees: Seq<Tree>, sure: bool)
    requires
        sound(g, trees, sure),
    ensures
        leaf_symbols(trees).len() == derivation::forest_tokens(trees).len(),
        forall|k: int|
            0 <= k < leaf_symbols(trees).len() ==> reads(
                g,
                #[trigger] leaf_symbols(trees)[k],
                derivation::forest_tokens(trees)[k],
                sure,
            ),
    decreases derivation::forest_steps(trees),
{
    if trees.len() > 0 {
        let before = trees.drop_last();
        let last = trees.last();
        let leaves = leaf_symbols(trees);
        let words = derivation::forest_tokens(trees);
        let first = leaf_symbols(before);
        lemma_sound_parts(g, trees, sure);
        lemma_leaves_read(g, before, sure);
        let more = match last {
            Tree::Leaf { symbol, token } => {
                assert(last.tokens() =~= seq![token]);
                seq![symbol]
            },
            Tree::Node { children, .. } => {
                assert(last.steps() == 1 + derivation::forest_steps(children));
                assert(last.tokens() == derivation::forest_tokens(children));
                lemma_leaves_read(g, children, sure);
                leaf_symbols(children)
            },
        };
        assert(leaves == first + more);
        assert(words == derivation::forest_tokens(before) + last.tokens());
        assert forall|k: int| 0 <= k < leaves.len() implies reads(
            g,
            #[trigger] leaves[k],
            words[k],
            sure,
        ) by {
            if k < first.len() {
                assert(leaves[k] == first[k]);
                assert(words[k] == derivation::forest_tokens(before)[k]);
            } else {
                assert(leaves[k] == more[k - first.len()]);
                assert(words[k] == last.tokens()[k - first.len()]);
            }
        }
    }
}

/// The tokens of trees behind trees.
pub proof fn lemma_tokens_join(a: Seq<Tree>, b: Seq<Tree>)
    ensures
        derivation::forest_tokens(a + b) == derivation::forest_tokens(a)
            + derivation::forest_tokens(b),
    decreases b.len(),
{
    if b.len() == 0 {
        assert(a + b =~= a);
        assert(derivation::forest_tokens(a) + derivation::forest_tokens(b)
            =~= derivation::forest_tokens(a));
    } else {
        assert((a + b).drop_last() =~= a + b.drop_last());
        lemma_tokens_join(a, b.drop_last());
        assert(derivation::forest_tokens(a + b) =~= derivation::forest_tokens(a)
            + derivation::forest_tokens(b));
    }
}

/// Leaves for terminals that read the tokens.
proof fn lemma_leaves<P: Fn(&str) -> bool>(
    g: GrammarModel<P>,
    names: Seq<Seq<char>>,
    tokens: Seq<Seq<char>>,
    sure: bool,
) -> (trees: Seq<Tree>)
    requires
        names.len() == tokens.len(),
        forall|k: int| 0 <= k < names.len() ==> reads(g, #[trigger] names[k], tokens[k], sure),
    ensures
        sound(g, trees, sure),
        symbols_of(trees) == names,
        derivation::forest_tokens(trees) == tokens,
    decreases names.len(),
{
    if names.len() == 0 {
        let trees = Seq::<Tree>::empty();
        assert(symbols_of(trees) =~= names);
        assert(derivation::forest_tokens(trees) =~= tokens);
        trees
    } else {
        let some = names.drop_last();
        assert forall|k: int| 0 <= k < some.len() implies reads(
            g,
            #[trigger] some[k],
            tokens.drop_last()[k],
            sure,
        ) by {
            assert(some[k] == names[k]);
        }
        let before = lemma_leaves(g, some, tokens.drop_last(), sure);
        let leaf = Tree::Leaf { symbol: names.last(), token: tokens.last() };
        let trees = before.push(leaf);
        lemma_reads(g, names[names.len() - 1], tokens.last(), sure);
        assert(g.yields(leaf, sure));
        assert forall|k: int| #![trigger trees[k]] 0 <= k < trees.len() implies g.yields(
            trees[k],
            sure,
        ) && (trees[k] is Node ==> g.is_nonterm(trees[k].symbol())) by {
            if k < before.len() {
                assert(trees[k] == before[k]);
            }
        }
        assert(symbols_of(trees) =~= names) by {
            assert(symbols_of(before).len() == before.len());
            assert forall|k: int| 0 <= k < trees.len() implies symbols_of(trees)[k] == names[k] by {
                if k < before.len() {
                    assert(symbols_of(before)[k] == some[k]);
                }
            }
        }
        assert(trees.drop_last() =~= before);
        assert(leaf.tokens() =~= seq![tokens.last()]);
        assert(derivation::forest_tokens(trees) =~= tokens);
        trees
    }
}

/// From the `j`-th list of symbols of a rewriting on: there are derivation trees of them.
proof fn lemma_rewriting_trees<P: Fn(&str) -> bool>(
    g: GrammarModel<P>,
    forms: Seq<Seq<Seq<char>>>,
    j: int,
    tokens: Seq<Seq<char>>,
    sure: bool,
) -> (trees: Seq<Tree>)
    requires
        is_rewriting(g, forms),
        0 <= j < forms.len(),
        forms.last().len() == tokens.len(),
        forall|k: int|
            0 <= k < tokens.len() ==> reads(g, #[trigger] forms.last()[k], tokens[k], sure),
    ensures
        sound(g, trees, sure),
        symbols_of(trees) == forms[j],
        derivation::forest_tokens(trees) == tokens,
    decreases forms.len() - j,
{
    if j == forms.len() - 1 {
        lemma_leaves(g, forms.last(), tokens, sure)
    } else {
        let list = lemma_rewriting_trees(g, forms, j + 1, tokens, sure);
        let a = forms[j];
        let b = forms[j + 1];
        assert(rewrites(g, a, b));
        let (at, r) = choose|at: int, r: int| #[trigger] replaced(g, a, b, at, r);
        let rule = g.rules[r];
        let n = rule.spec.len() as int;
        assert(symbols_of(list).len() == list.len());
        assert(b.len() == a.len() - 1 + n);
        let left = list.take(at);
        let mid = list.subrange(at, at + n);
        let right = list.skip(at + n);
        let node = Tree::Node { rule, children: mid };
        law_the_first_of_a_name_is_found(g, rule.head, Kind::NonTerm);
        assert(g.rules.contains(rule));
        assert(g.yields(node, sure)) by {
            assert forall|k: int| #![trigger mid[k]] 0 <= k < mid.len() implies {
                &&& mid[k].symbol() == rule.spec[k]
                &&& mid[k] is Node ==> g.is_nonterm(rule.spec[k])
                &&& g.yields(mid[k], sure)
            } by {
                assert(mid[k] == list[at + k]);
                assert(symbols_of(list)[at + k] == b[at + k]);
            }
        }
        let trees = left.push(node) + right;
        assert forall|k: int| #![trigger trees[k]] 0 <= k < trees.len() implies g.yields(
            trees[k],
            sure,
        ) && (trees[k] is Node ==> g.is_nonterm(trees[k].symbol())) by {
            if k < at {
                assert(trees[k] == list[k]);
            } else if k > at {
                assert(trees[k] == list[k - 1 + n]);
            }
        }
        assert(symbols_of(trees) =~= a) by {
            assert forall|k: int| 0 <= k < trees.len() implies symbols_of(trees)[k] == a[k] by {
                if k < at {
                    assert(symbols_of(list)[k] == b[k]);
                } else if k > at {
                    assert(symbols_of(list)[k - 1 + n] == b[k - 1 + n]);
                }
            }
        }
        lemma_tokens_join(left, mid);
        lemma_tokens_join(left + mid, right);
        assert(left + mid + right =~= list);
        lemma_tokens_join(left.push(node), right);
        assert(left.push(node).drop_last() =~= left);
        assert(node.tokens() == derivation::forest_tokens(mid));
        trees
    }
}

/// What a derivation tree is: a leaf is a token that its terminal reads, and a node is a rule of
/// the grammar, of any length, with one derivation tree for each of its symbols; a node below
/// another one stands for a symbol that is rewritten.
pub proof fn law_what_a_derivation_tree_is<P: Fn(&str) -> bool>(
    g: GrammarModel<P>,
    tree: Tree,
    tokens: Seq<Seq<char>>,
    sure: bool,
)
    ensures
        tree matches Tree::Leaf { symbol, token } ==> (g.yields(tree, sure) <==> reads(
            g,
            symbol,
            token,
            sure,
        )),
        tree matches Tree::Node { rule, children } ==> (g.yields(tree, sure) <==> (exists|r: int|
            0 <= r < g.rules.len() && #[trigger] g.rules[r] == rule) && children.len()
            == rule.spec.len() && forall|k: int|
            #![trigger children[k]]
            0 <= k < children.len() ==> g.yields(children[k], sure) && match children[k] {
                Tree::Leaf { symbol, .. } => symbol == rule.spec[k],
                Tree::Node { rule: inner, .. } => inner.head == rule.spec[k] && is_kind(
                    g,
                    inner.head,
                    Kind::NonTerm,
                ),
            }),
        g.parses(tokens, tree, sure) <==> g.yields(tree, sure) && tree.tokens() == tokens && (
        tree matches Tree::Node { rule, .. } && rule.head == g.start),
{
    match tree {
        Tree::Leaf { symbol, token } => {
            lemma_reads(g, symbol, token, sure);
        },
        Tree::Node { rule, children } => {
            if g.rules.contains(rule) {
                let r = g.rules.index_of(rule);
                assert(g.rules[r] == rule);
            }
            assert forall|k: int| #![trigger children[k]] 0 <= k < children.len() implies (
            g.is_nonterm(children[k].symbol()) <==> is_kind(
                g,
                children[k].symbol(),
                Kind::NonTerm,
            )) by {
                law_the_first_of_a_name_is_found(g, children[k].symbol(), Kind::NonTerm);
            }
        },
    }
}

/// The tokens of a tree are those at its leaves from left to right, and the steps of a tree are
/// two for each node and one for each token, less one.
pub proof fn law_tokens_and_steps_of_a_tree(tree: Tree)
    ensures
        tree matches Tree::Leaf { token, .. } ==> tree.tokens() == seq![token],
        tree matches Tree::Node { children, .. } ==> tree.tokens() == children.fold_left(
            Seq::<Seq<char>>::empty(),
            |words: Seq<Seq<char>>, t: Tree| words + t.tokens(),
        ),
        tree is Node ==> tree.steps() + 1 == 2 * nodes(tree) + tree.tokens().len(),
{
    if let Tree::Node { children, .. } = tree {
        lemma_fold_tokens(children);
        lemma_forest_size(children);
        assert(tree.tokens() == derivation::forest_tokens(children));
        assert(tree.steps() == 1 + derivation::forest_steps(children));
        assert(nodes(tree) == 1 + all_nodes(children));
    } else {
        assert(tree.tokens() =~= seq![tree->token]);
    }
}

/// The number of rules in a tree.
pub open spec fn nodes(tree: Tree) -> nat
    decreases tree,
{
    match tree {
        Tree::Leaf { .. } => 0,
        Tree::Node { children, .. } => 1 + all_nodes(children),
    }
}

/// The number of rules in trees.
pub open spec fn all_nodes(trees: Seq<Tree>) -> nat
    decreases trees,
{
    if trees.len() == 0 {
        0
    } else {
        all_nodes(trees.drop_last()) + nodes(trees.last())
    }
}

proof fn lemma_fold_tokens(trees: Seq<Tree>)
    ensures
        derivation::forest_tokens(trees) == trees.fold_left(
            Seq::<Seq<char>>::empty(),
            |words: Seq<Seq<char>>, t: Tree| words + t.tokens(),
        ),
    decreases trees.len(),
{
    if trees.len() > 0 {
        lemma_fold_tokens(trees.drop_last());
    }
}

/// A tree takes a step for each rule and one for each part of a rule.
proof fn lemma_forest_size(trees: Seq<Tree>)
    ensures
        derivation::forest_steps(trees) == 2 * all_nodes(trees) + derivation::forest_tokens(
            trees,
        ).len(),
    decreases trees,
{
    if trees.len() > 0 {
        let last = trees.last();
        lemma_forest_size(trees.drop_last());
        if let Tree::Node { children, .. } = last {
            assert(decreases_to!(trees => trees.last()));
            lemma_forest_size(children);
            assert(last.steps() == 1 + derivation::forest_steps(children));
            assert(last.tokens() == derivation::forest_tokens(children));
            assert(nodes(last) == 1 + all_nodes(children));
        } else {
            assert(last.tokens().len() == 1);
            assert(last.steps() == 0);
            assert(nodes(last) == 0);
        }
    }
}

/// The language is that of rewriting: tokens have a derivation tree exactly where a rule of the
/// start symbol can be rewritten to terminals that read them.
pub proof fn law_trees_are_rewritings<P: Fn(&str) -> bool>(
    g: GrammarModel<P>,
    tokens: Seq<Seq<char>>,
    sure: bool,
)
    ensures
        (exists|tree: Tree| #[trigger] g.parses(tokens, tree, sure)) <==> in_language(
            g,
            tokens,
            sure,
        ),
{
    if exists|tree: Tree| #[trigger] g.parses(tokens, tree, sure) {
        let tree = choose|tree: Tree| #[trigger] g.parses(tokens, tree, sure);
        if let Tree::Node { rule, children } = tree {
            assert(sound(g, children, sure)) by {
                assert forall|k: int| #![trigger children[k]] 0 <= k < children.len() implies
                    g.yields(children[k], sure) && (children[k] is Node ==> g.is_nonterm(
                    children[k].symbol(),
                )) by {}
            }
            lemma_trees_rewrite(g, children, sure);
            lemma_leaves_read(g, children, sure);
            assert(symbols_of(children) =~= rule.spec);
            assert(tree.tokens() == derivation::forest_tokens(children));
            let r = g.rules.index_of(rule);
            assert(g.rules[r] == rule);
            assert(becomes(g, g.rules[r].spec, leaf_symbols(children)));
        }
    }
    if in_language(g, tokens, sure) {
        let (r, names) = choose|r: int, names: Seq<Seq<char>>|
            0 <= r < g.rules.len() && (#[trigger] g.rules[r]).head == g.start && #[trigger] becomes(
                g,
                g.rules[r].spec,
                names,
            ) && names.len() == tokens.len() && forall|k: int|
                0 <= k < names.len() ==> reads(g, #[trigger] names[k], tokens[k], sure);
        let forms = choose|forms: Seq<Seq<Seq<char>>>| #[trigger]
            is_rewriting(g, forms) && forms[0] == g.rules[r].spec && forms.last() == names;
        let children = lemma_rewriting_trees(g, forms, 0, tokens, sure);
        let rule = g.rules[r];
        let tree = Tree::Node { rule, children };
        assert(g.rules.contains(rule));
        assert(symbols_of(children).len() == children.len());
        assert(g.yields(tree, sure)) by {
            assert forall|k: int| #![trigger children[k]] 0 <= k < children.len() implies {
                &&& children[k].symbol() == rule.spec[k]
                &&& children[k] is Node ==> g.is_nonterm(rule.spec[k])
                &&& g.yields(children[k], sure)
            } by {
                assert(symbols_of(children)[k] == rule.spec[k]);
            }
        }
        assert(tree.tokens() == derivation::forest_tokens(children));
        assert(g.parses(tokens, tree, sure));
    }
}

} // verus!
