//! A text in the notation for grammars is read in one way only.

use vstd::prelude::*;

use crate::derivation::Tree;
use crate::lexis;
use crate::syntax;

verus! {

/// No token is empty.
pub open spec fn solid(tokens: Seq<Seq<char>>) -> bool {
    forall|k: int| 0 <= k < tokens.len() ==> (#[trigger] tokens[k]).len() > 0
}

/// `tree` is a syntax tree of `symbol`, and stands in `tokens` from `at` on.
pub open spec fn stands(
    tree: Tree,
    symbol: Seq<char>,
    tokens: Seq<Seq<char>>,
    at: int,
) -> bool {
    &&& syntax::well_formed(tree)
    &&& tree is Node
    &&& tree.symbol() == symbol
    &&& syntax::fits(tree, tokens, at)
}

/// The token behind a tree.
spec fn end(tree: Tree, at: int) -> int {
    at + syntax::width(tree)
}

/// An atom can begin with the token.
spec fn opens(t: Seq<char>) -> bool {
    lexis::is_name(t) || t == "'"@ || t == "\""@ || t == "["@ || t == "{"@ || t == "("@
}

/// A list of variants is followed by the token.
spec fn closes(t: Seq<char>) -> bool {
    t == ";"@ || t == "]"@ || t == "}"@ || t == ")"@
}

/// No tag stands at `at`.
spec fn untagged(tokens: Seq<Seq<char>>, at: int) -> bool {
    at < tokens.len() ==> !lexis::is_tag(tokens[at])
}

/// A token that is not empty is of one kind only.
proof fn lemma_kinds(t: Seq<char>)
    requires
        t.len() > 0,
    ensures
        lexis::is_name(t) ==> !lexis::is_tag(t) && !syntax::mark(t),
        lexis::is_tag(t) ==> !syntax::mark(t),
        lexis::is_digits(t) ==> !lexis::is_name(t) && !lexis::is_tag(t) && !syntax::mark(t),
{
    syntax::lemma_names();
    let c = t[0];
    if syntax::mark(t) {
        assert(syntax::looks(t).1 == c);
    }
}

/// What stands at the `k`-th place of a tree.
proof fn lemma_place(tree: Tree, symbol: Seq<char>, tokens: Seq<Seq<char>>, at: int, k: int)
    requires
        stands(tree, symbol, tokens, at),
        0 <= k < syntax::parts(tree).len(),
    ensures
        syntax::of_category(tree->rule),
        syntax::parts(tree).len() == tree->rule.spec.len(),
        syntax::offset(tree, 0) == 0,
        syntax::offset(tree, k) >= 0,
        syntax::offset(tree, k + 1) == syntax::offset(tree, k) + syntax::width(
            syntax::parts(tree)[k],
        ),
        syntax::offset(tree, k + 1) <= syntax::width(tree),
        syntax::offset(tree, syntax::parts(tree).len() as int) == syntax::width(tree),
        syntax::parts(tree)[k].steps() < tree.steps(),
        ({
            let wanted = tree->rule.spec[k];
            let place = at + syntax::offset(tree, k);
            if syntax::category(wanted) {
                stands(syntax::parts(tree)[k], wanted, tokens, place)
            } else {
                &&& syntax::parts(tree)[k] == (Tree::Leaf { symbol: wanted, token: tokens[place] })
                &&& syntax::reads(wanted, tokens[place])
                &&& syntax::width(syntax::parts(tree)[k]) == 1
                &&& 0 <= place < tokens.len()
            }
        }),
{
    syntax::lemma_parts(tree, tokens, at, k);
    syntax::lemma_part(tree, k);
    let part = syntax::parts(tree)[k];
    let place = at + syntax::offset(tree, k);
    if !syntax::category(tree->rule.spec[k]) {
        assert(part.tokens()[0] == tokens.subrange(place, place + 1)[0]);
    }
}

/// How a tree begins.
proof fn lemma_first(tree: Tree, symbol: Seq<char>, tokens: Seq<Seq<char>>, at: int)
    requires
        stands(tree, symbol, tokens, at),
    ensures
        syntax::width(tree) > 0,
        at < tokens.len(),
        symbol == "<Atom>"@ || symbol == "<Variant>"@ || symbol == "<VariantList>"@ ==> opens(
            tokens[at],
        ),
    decreases tree.steps(),
{
    syntax::lemma_names();
    syntax::lemma_productions(tree->rule);
    lemma_place(tree, symbol, tokens, at, 0);
    let wanted = tree->rule.spec[0];
    if syntax::category(wanted) {
        lemma_first(syntax::parts(tree)[0], wanted, tokens, at);
    }
}

/// Two atoms at the same place are the same.
proof fn lemma_one_atom(a: Tree, b: Tree, tokens: Seq<Seq<char>>, at: int)
    requires
        solid(tokens),
        stands(a, "<Atom>"@, tokens, at),
        stands(b, "<Atom>"@, tokens, at),
        untagged(tokens, end(a, at)),
        untagged(tokens, end(b, at)),
    ensures
        a == b,
    decreases a.steps() + b.steps(), 0int,
{
    syntax::lemma_names();
    let atom = "<Atom>"@;
    let p = syntax::parts(a);
    let q = syntax::parts(b);
    lemma_place(a, atom, tokens, at, 0);
    lemma_place(b, atom, tokens, at, 0);
    lemma_kinds(tokens[at]);
    let same_first = a->rule.spec[0] == b->rule.spec[0];
    assert(same_first);
    if a->rule == syntax::named() {
        assert(p =~= q);
    } else {
        lemma_place(a, atom, tokens, at, 1);
        lemma_place(b, atom, tokens, at, 1);
        lemma_place(a, atom, tokens, at, 2);
        lemma_place(b, atom, tokens, at, 2);
        if a->rule == syntax::quoted() || a->rule == syntax::double_quoted() {
            assert(p =~= q);
        } else {
            let list = "<VariantList>"@;
            lemma_one_list(p[1], q[1], tokens, at + 1);
            if p.len() == 4 {
                lemma_place(a, atom, tokens, at, 3);
            }
            if q.len() == 4 {
                lemma_place(b, atom, tokens, at, 3);
            }
            assert(p.len() == q.len());
            assert(a->rule == b->rule);
            assert(p =~= q);
        }
    }
}

/// How many elements a list has that is built from the left.
spec fn count(tree: Tree) -> nat
    decreases tree,
{
    match tree {
        Tree::Leaf { .. } => 0,
        Tree::Node { rule, children } => if children.len() > 0 && children[0].symbol() == rule.head {
            1 + count(children[0])
        } else {
            1
        },
    }
}

/// A list without its last `m` elements.
spec fn strip(tree: Tree, m: nat) -> Tree
    decreases m,
{
    if m == 0 {
        tree
    } else {
        strip(syntax::parts(tree)[0], (m - 1) as nat)
    }
}

/// The categories that are lists.
spec fn is_list(symbol: Seq<char>) -> bool {
    symbol == "<RuleList>"@ || symbol == "<VariantList>"@ || symbol == "<Variant>"@
}

/// A list has one element, or a shorter list before its last element.
proof fn lemma_count(tree: Tree, symbol: Seq<char>, tokens: Seq<Seq<char>>, at: int)
    requires
        stands(tree, symbol, tokens, at),
        is_list(symbol),
    ensures
        count(tree) >= 1,
        count(tree) == 1 <==> tree->rule.spec[0] != symbol,
        count(tree) > 1 ==> {
            &&& count(tree) == 1 + count(syntax::parts(tree)[0])
            &&& stands(syntax::parts(tree)[0], symbol, tokens, at)
            &&& syntax::parts(tree).len() > 1
            &&& syntax::parts(tree)[0].steps() < tree.steps()
            &&& syntax::offset(tree, 1) == syntax::width(syntax::parts(tree)[0])
        },
    decreases tree.steps(),
{
    syntax::lemma_names();
    syntax::lemma_productions(tree->rule);
    lemma_place(tree, symbol, tokens, at, 0);
    if tree->rule.spec[0] == symbol {
        lemma_count(syntax::parts(tree)[0], symbol, tokens, at);
    }
}

/// What follows in a list where the last elements are left off.
proof fn lemma_strip(tree: Tree, symbol: Seq<char>, tokens: Seq<Seq<char>>, at: int, m: nat)
    requires
        stands(tree, symbol, tokens, at),
        is_list(symbol),
        0 < m < count(tree),
    ensures
        stands(strip(tree, m), symbol, tokens, at),
        end(strip(tree, m), at) < end(tree, at),
        symbol == "<Variant>"@ ==> opens(tokens[end(strip(tree, m), at)]),
        symbol == "<VariantList>"@ ==> tokens[end(strip(tree, m), at)] == "|"@,
    decreases m,
{
    syntax::lemma_names();
    lemma_count(tree, symbol, tokens, at);
    let first = syntax::parts(tree)[0];
    lemma_place(tree, symbol, tokens, at, 1);
    if m == 1 {
        assert(strip(first, 0) == first);
        if syntax::category(tree->rule.spec[1]) {
            lemma_first(
                syntax::parts(tree)[1],
                tree->rule.spec[1],
                tokens,
                at + syntax::offset(tree, 1),
            );
        }
    } else {
        lemma_strip(first, symbol, tokens, at, (m - 1) as nat);
    }
}

/// Of two variants at the same place, the shorter one is the beginning of the longer.
proof fn lemma_variants(a: Tree, b: Tree, tokens: Seq<Seq<char>>, at: int)
    requires
        solid(tokens),
        stands(a, "<Variant>"@, tokens, at),
        stands(b, "<Variant>"@, tokens, at),
        untagged(tokens, end(a, at)),
        untagged(tokens, end(b, at)),
        count(a) <= count(b),
    ensures
        a == strip(b, (count(b) - count(a)) as nat),
    decreases a.steps() + b.steps(), 1int,
{
    syntax::lemma_names();
    let variant = "<Variant>"@;
    let p = syntax::parts(a);
    let q = syntax::parts(b);
    lemma_count(a, variant, tokens, at);
    lemma_count(b, variant, tokens, at);
    lemma_place(a, variant, tokens, at, 0);
    lemma_place(b, variant, tokens, at, 0);
    if count(b) == 1 {
        lemma_one_atom(p[0], q[0], tokens, at);
        assert(p =~= q);
    } else {
        lemma_place(b, variant, tokens, at, 1);
        let mid = at + syntax::offset(b, 1);
        lemma_first(q[1], "<Atom>"@, tokens, mid);
        lemma_kinds(tokens[mid]);
        if count(a) < count(b) {
            lemma_variants(a, q[0], tokens, at);
        } else {
            lemma_place(a, variant, tokens, at, 1);
            let other = at + syntax::offset(a, 1);
            lemma_first(p[1], "<Atom>"@, tokens, other);
            lemma_kinds(tokens[other]);
            lemma_variants(p[0], q[0], tokens, at);
            assert(p[0] == q[0]);
            lemma_one_atom(p[1], q[1], tokens, mid);
            assert(p =~= q);
        }
    }
}

/// Two variants at the same place are the same where something follows that is not an atom.
proof fn lemma_one_variant(a: Tree, b: Tree, tokens: Seq<Seq<char>>, at: int)
    requires
        solid(tokens),
        stands(a, "<Variant>"@, tokens, at),
        stands(b, "<Variant>"@, tokens, at),
        end(a, at) < tokens.len(),
        end(b, at) < tokens.len(),
        closes(tokens[end(a, at)]) || tokens[end(a, at)] == "|"@ || tokens[end(a, at)] == "@prio"@,
        closes(tokens[end(b, at)]) || tokens[end(b, at)] == "|"@ || tokens[end(b, at)] == "@prio"@,
    ensures
        a == b,
    decreases a.steps() + b.steps(), 2int,
{
    syntax::lemma_names();
    lemma_kinds(tokens[end(a, at)]);
    lemma_kinds(tokens[end(b, at)]);
    if count(a) <= count(b) {
        lemma_variants(a, b, tokens, at);
        if count(a) < count(b) {
            lemma_count(a, "<Variant>"@, tokens, at);
            lemma_strip(b, "<Variant>"@, tokens, at, (count(b) - count(a)) as nat);
        }
    } else {
        lemma_variants(b, a, tokens, at);
        lemma_count(b, "<Variant>"@, tokens, at);
        lemma_strip(a, "<Variant>"@, tokens, at, (count(a) - count(b)) as nat);
    }
}

/// The place of the variant in the last element of a list of variants.
spec fn variant_at(tree: Tree) -> int {
    if count(tree) > 1 {
        2
    } else {
        0
    }
}

/// What stands behind the variant in the last element of a list.
proof fn lemma_behind(tree: Tree, tokens: Seq<Seq<char>>, at: int)
    requires
        stands(tree, "<VariantList>"@, tokens, at),
        end(tree, at) < tokens.len(),
        closes(tokens[end(tree, at)]) || tokens[end(tree, at)] == "|"@,
    ensures
        ({
            let k = variant_at(tree);
            let place = at + syntax::offset(tree, k);
            let behind = at + syntax::offset(tree, k + 1);
            &&& k < syntax::parts(tree).len()
            &&& stands(syntax::parts(tree)[k], "<Variant>"@, tokens, place)
            &&& end(syntax::parts(tree)[k], place) == behind
            &&& behind < tokens.len()
            &&& if syntax::parts(tree).len() == k + 1 {
                behind == end(tree, at)
            } else {
                tokens[behind] == "@prio"@
            }
        }),
{
    syntax::lemma_names();
    let list = "<VariantList>"@;
    lemma_count(tree, list, tokens, at);
    let k = variant_at(tree);
    lemma_place(tree, list, tokens, at, 0);
    syntax::lemma_productions(tree->rule);
    lemma_place(tree, list, tokens, at, k);
    if syntax::parts(tree).len() > k + 1 {
        lemma_place(tree, list, tokens, at, k + 1);
    }
}

/// Of two lists of variants at the same place, the shorter one is the beginning of the longer.
proof fn lemma_lists(a: Tree, b: Tree, tokens: Seq<Seq<char>>, at: int)
    requires
        solid(tokens),
        stands(a, "<VariantList>"@, tokens, at),
        stands(b, "<VariantList>"@, tokens, at),
        end(a, at) < tokens.len(),
        end(b, at) < tokens.len(),
        closes(tokens[end(a, at)]) || tokens[end(a, at)] == "|"@,
        closes(tokens[end(b, at)]) || tokens[end(b, at)] == "|"@,
        count(a) <= count(b),
    ensures
        a == strip(b, (count(b) - count(a)) as nat),
    decreases a.steps() + b.steps(), 3int,
{
    syntax::lemma_names();
    let list = "<VariantList>"@;
    let p = syntax::parts(a);
    let q = syntax::parts(b);
    lemma_count(a, list, tokens, at);
    lemma_count(b, list, tokens, at);
    lemma_place(a, list, tokens, at, 0);
    lemma_place(b, list, tokens, at, 0);
    syntax::lemma_productions(a->rule);
    syntax::lemma_productions(b->rule);
    if count(a) < count(b) {
        lemma_place(b, list, tokens, at, 1);
        lemma_lists(a, q[0], tokens, at);
    } else {
        if count(b) > 1 {
            lemma_place(a, list, tokens, at, 1);
            lemma_place(b, list, tokens, at, 1);
            lemma_lists(p[0], q[0], tokens, at);
            assert(p[0] == q[0]);
        }
        let k = variant_at(a);
        lemma_behind(a, tokens, at);
        lemma_behind(b, tokens, at);
        lemma_place(a, list, tokens, at, k);
        lemma_place(b, list, tokens, at, k);
        assert(syntax::offset(a, k) == syntax::offset(b, k));
        lemma_one_variant(p[k], q[k], tokens, at + syntax::offset(a, k));
        assert(syntax::offset(a, k + 1) == syntax::offset(b, k + 1));
        assert(p.len() == q.len());
        if p.len() > k + 1 {
            lemma_place(a, list, tokens, at, k + 1);
            lemma_place(b, list, tokens, at, k + 1);
            lemma_place(a, list, tokens, at, k + 2);
            lemma_place(b, list, tokens, at, k + 2);
            lemma_place(a, list, tokens, at, k + 3);
            lemma_place(b, list, tokens, at, k + 3);
            lemma_place(a, list, tokens, at, k + 4);
            lemma_place(b, list, tokens, at, k + 4);
        }
        assert(a->rule == b->rule);
        assert(p =~= q);
    }
}

/// Two lists of variants at the same place are the same where something follows that ends both.
proof fn lemma_one_list(a: Tree, b: Tree, tokens: Seq<Seq<char>>, at: int)
    requires
        solid(tokens),
        stands(a, "<VariantList>"@, tokens, at),
        stands(b, "<VariantList>"@, tokens, at),
        end(a, at) < tokens.len(),
        end(b, at) < tokens.len(),
        closes(tokens[end(a, at)]),
        closes(tokens[end(b, at)]),
    ensures
        a == b,
    decreases a.steps() + b.steps(), 4int,
{
    syntax::lemma_names();
    let list = "<VariantList>"@;
    if count(a) <= count(b) {
        lemma_lists(a, b, tokens, at);
        if count(a) < count(b) {
            lemma_count(a, list, tokens, at);
            lemma_strip(b, list, tokens, at, (count(b) - count(a)) as nat);
        }
    } else {
        lemma_lists(b, a, tokens, at);
        lemma_count(b, list, tokens, at);
        lemma_strip(a, list, tokens, at, (count(a) - count(b)) as nat);
    }
}

/// Two rules at the same place are the same.
proof fn lemma_one_rule(a: Tree, b: Tree, tokens: Seq<Seq<char>>, at: int)
    requires
        solid(tokens),
        stands(a, "<Rule>"@, tokens, at),
        stands(b, "<Rule>"@, tokens, at),
    ensures
        a == b,
{
    syntax::lemma_names();
    let rule = "<Rule>"@;
    let p = syntax::parts(a);
    let q = syntax::parts(b);
    lemma_place(a, rule, tokens, at, 0);
    lemma_place(b, rule, tokens, at, 0);
    lemma_place(a, rule, tokens, at, 1);
    lemma_place(b, rule, tokens, at, 1);
    lemma_place(a, rule, tokens, at, 2);
    lemma_place(b, rule, tokens, at, 2);
    lemma_place(a, rule, tokens, at, 3);
    lemma_place(b, rule, tokens, at, 3);
    lemma_one_list(p[2], q[2], tokens, at + 2);
    assert(p =~= q);
}

/// Of two lists of rules at the same place, the shorter one is the beginning of the longer.
proof fn lemma_rule_lists(a: Tree, b: Tree, tokens: Seq<Seq<char>>, at: int)
    requires
        solid(tokens),
        stands(a, "<RuleList>"@, tokens, at),
        stands(b, "<RuleList>"@, tokens, at),
        count(a) <= count(b),
    ensures
        a == strip(b, (count(b) - count(a)) as nat),
    decreases a.steps() + b.steps(),
{
    syntax::lemma_names();
    let list = "<RuleList>"@;
    let p = syntax::parts(a);
    let q = syntax::parts(b);
    lemma_count(a, list, tokens, at);
    lemma_count(b, list, tokens, at);
    lemma_place(a, list, tokens, at, 0);
    lemma_place(b, list, tokens, at, 0);
    syntax::lemma_productions(a->rule);
    syntax::lemma_productions(b->rule);
    if count(a) < count(b) {
        lemma_rule_lists(a, q[0], tokens, at);
    } else if count(b) > 1 {
        lemma_rule_lists(p[0], q[0], tokens, at);
        assert(p[0] == q[0]);
        lemma_place(a, list, tokens, at, 1);
        lemma_place(b, list, tokens, at, 1);
        lemma_one_rule(p[1], q[1], tokens, at + syntax::offset(a, 1));
        assert(p =~= q);
    } else {
        lemma_one_rule(p[0], q[0], tokens, at);
        assert(p =~= q);
    }
}

/// The notation is not ambiguous: tokens, none of them empty, have at most one syntax tree.
pub proof fn law_one_reading(a: Tree, b: Tree, tokens: Seq<Seq<char>>)
    requires
        solid(tokens),
        syntax::spells(a, tokens),
        syntax::spells(b, tokens),
    ensures
        a == b,
{
    let list = "<RuleList>"@;
    assert(tokens.subrange(0, tokens.len() as int) =~= tokens);
    assert(stands(a, list, tokens, 0));
    assert(stands(b, list, tokens, 0));
    if count(a) <= count(b) {
        lemma_rule_lists(a, b, tokens, 0);
        if count(a) < count(b) {
            lemma_count(a, list, tokens, 0);
            lemma_strip(b, list, tokens, 0, (count(b) - count(a)) as nat);
        }
    } else {
        lemma_rule_lists(b, a, tokens, 0);
        lemma_count(b, list, tokens, 0);
        lemma_strip(a, list, tokens, 0, (count(a) - count(b)) as nat);
    }
}

} // verus!
