//! The notation in which grammars are written, and that it is read in one way only.

use vstd::prelude::*;

use crate::derivation;
use crate::derivation::Tree;
use crate::grammar::RuleModel;
use crate::lexis;

verus! {

/// A rule of the notation.
pub open spec fn production(head: Seq<char>, spec: Seq<Seq<char>>) -> RuleModel {
    RuleModel { head, spec }
}

/// `<RuleList> -> <RuleList> <Rule>`
pub open spec fn more_rules() -> RuleModel {
    production("<RuleList>"@, seq!["<RuleList>"@, "<Rule>"@])
}

/// `<RuleList> -> <Rule>`
pub open spec fn one_rule() -> RuleModel {
    production("<RuleList>"@, seq!["<Rule>"@])
}

/// `<Rule> -> <Id> := <VariantList> ;`
pub open spec fn definition() -> RuleModel {
    production("<Rule>"@, seq!["<Id>"@, ":="@, "<VariantList>"@, ";"@])
}

/// `<VariantList> -> <VariantList> | <Variant>`
pub open spec fn more_variants() -> RuleModel {
    production("<VariantList>"@, seq!["<VariantList>"@, "|"@, "<Variant>"@])
}

/// `<VariantList> -> <VariantList> | <Variant> @prio ( <Num> )`
pub open spec fn more_variants_ranked() -> RuleModel {
    production(
        "<VariantList>"@,
        seq!["<VariantList>"@, "|"@, "<Variant>"@, "@prio"@, "("@, "<Num>"@, ")"@],
    )
}

/// `<VariantList> -> <Variant>`
pub open spec fn one_variant() -> RuleModel {
    production("<VariantList>"@, seq!["<Variant>"@])
}

/// `<VariantList> -> <Variant> @prio ( <Num> )`
pub open spec fn one_variant_ranked() -> RuleModel {
    production("<VariantList>"@, seq!["<Variant>"@, "@prio"@, "("@, "<Num>"@, ")"@])
}

/// `<Variant> -> <Variant> <Atom>`
pub open spec fn more_atoms() -> RuleModel {
    production("<Variant>"@, seq!["<Variant>"@, "<Atom>"@])
}

/// `<Variant> -> <Atom>`
pub open spec fn one_atom() -> RuleModel {
    production("<Variant>"@, seq!["<Atom>"@])
}

/// `<Atom> -> <Id>`
pub open spec fn named() -> RuleModel {
    production("<Atom>"@, seq!["<Id>"@])
}

/// `<Atom> -> ' <Chars> '`
pub open spec fn quoted() -> RuleModel {
    production("<Atom>"@, seq!["'"@, "<Chars>"@, "'"@])
}

/// `<Atom> -> " <Chars> "`
pub open spec fn double_quoted() -> RuleModel {
    production("<Atom>"@, seq!["\""@, "<Chars>"@, "\""@])
}

/// `<Atom> -> [ <VariantList> ]`
pub open spec fn optional() -> RuleModel {
    production("<Atom>"@, seq!["["@, "<VariantList>"@, "]"@])
}

/// `<Atom> -> { <VariantList> }`
pub open spec fn repeated() -> RuleModel {
    production("<Atom>"@, seq!["{"@, "<VariantList>"@, "}"@])
}

/// `<Atom> -> ( <VariantList> )`
pub open spec fn grouped() -> RuleModel {
    production("<Atom>"@, seq!["("@, "<VariantList>"@, ")"@])
}

/// `<Atom> -> [ <VariantList> ] @<Tag>`
pub open spec fn optional_tagged() -> RuleModel {
    production("<Atom>"@, seq!["["@, "<VariantList>"@, "]"@, "@<Tag>"@])
}

/// `<Atom> -> { <VariantList> } @<Tag>`
pub open spec fn repeated_tagged() -> RuleModel {
    production("<Atom>"@, seq!["{"@, "<VariantList>"@, "}"@, "@<Tag>"@])
}

/// `<Atom> -> ( <VariantList> ) @<Tag>`
pub open spec fn grouped_tagged() -> RuleModel {
    production("<Atom>"@, seq!["("@, "<VariantList>"@, ")"@, "@<Tag>"@])
}

/// The rules of the notation.
pub open spec fn productions() -> Seq<RuleModel> {
    seq![
        more_rules(),
        one_rule(),
        definition(),
        more_variants(),
        more_variants_ranked(),
        one_variant(),
        one_variant_ranked(),
        more_atoms(),
        one_atom(),
        named(),
        quoted(),
        double_quoted(),
        optional(),
        repeated(),
        grouped(),
        optional_tagged(),
        repeated_tagged(),
        grouped_tagged(),
    ]
}

/// The symbols that rules rewrite.
pub open spec fn category(symbol: Seq<char>) -> bool {
    symbol == "<RuleList>"@ || symbol == "<Rule>"@ || symbol == "<VariantList>"@ || symbol
        == "<Variant>"@ || symbol == "<Atom>"@
}

/// The symbols that stand for themselves.
pub open spec fn mark(symbol: Seq<char>) -> bool {
    symbol == "@prio"@ || symbol == ":="@ || symbol == ";"@ || symbol == "["@ || symbol == "]"@
        || symbol == "{"@ || symbol == "}"@ || symbol == "("@ || symbol == ")"@ || symbol == "|"@
        || symbol == "'"@ || symbol == "\""@
}

/// `token` is read as `symbol`.
pub open spec fn reads(symbol: Seq<char>, token: Seq<char>) -> bool {
    if symbol == "<Id>"@ {
        lexis::is_name(token)
    } else if symbol == "<Chars>"@ {
        lexis::is_text(token)
    } else if symbol == "@<Tag>"@ {
        lexis::is_tag(token)
    } else if symbol == "<Num>"@ {
        lexis::is_digits(token)
    } else {
        mark(symbol) && token == symbol
    }
}

/// `tree` is a syntax tree of the notation.
pub open spec fn well_formed(tree: Tree) -> bool
    decreases tree,
{
    match tree {
        Tree::Leaf { symbol, token } => reads(symbol, token),
        Tree::Node { rule, children } => {
            &&& productions().contains(rule)
            &&& children.len() == rule.spec.len()
            &&& forall|k: int|
                #![trigger children[k]]
                0 <= k < children.len() ==> {
                    &&& children[k].symbol() == rule.spec[k]
                    &&& children[k] is Node ==> category(rule.spec[k])
                    &&& well_formed(children[k])
                }
        },
    }
}

/// `tree` is the syntax tree of a text with these tokens.
pub open spec fn spells(tree: Tree, tokens: Seq<Seq<char>>) -> bool {
    &&& tree is Node
    &&& tree.symbol() == "<RuleList>"@
    &&& tree.tokens() == tokens
    &&& well_formed(tree)
}

/// What tells the symbols of the notation apart: how long they are, and two of their
/// characters.
pub open spec fn looks(s: Seq<char>) -> (nat, char, char) {
    (s.len(), s[0], s[(s.len() / 2) as int])
}

/// No two symbols of the notation look the same.
pub proof fn lemma_names()
    ensures
        looks("<RuleList>"@) == (10nat, '<', 'L'),
        looks("<Rule>"@) == (6nat, '<', 'l'),
        looks("<VariantList>"@) == (13nat, '<', 'n'),
        looks("<Variant>"@) == (9nat, '<', 'i'),
        looks("<Atom>"@) == (6nat, '<', 'o'),
        looks("<Id>"@) == (4nat, '<', 'd'),
        looks("<Chars>"@) == (7nat, '<', 'a'),
        looks("@<Tag>"@) == (6nat, '@', 'a'),
        looks("<Num>"@) == (5nat, '<', 'u'),
        looks("@prio"@) == (5nat, '@', 'r'),
        looks(":="@) == (2nat, ':', '='),
        looks(";"@) == (1nat, ';', ';'),
        looks("["@) == (1nat, '[', '['),
        looks("]"@) == (1nat, ']', ']'),
        looks("{"@) == (1nat, '{', '{'),
        looks("}"@) == (1nat, '}', '}'),
        looks("("@) == (1nat, '(', '('),
        looks(")"@) == (1nat, ')', ')'),
        looks("|"@) == (1nat, '|', '|'),
        looks("'"@) == (1nat, '\'', '\''),
        looks("\""@) == (1nat, '"', '"'),
{
    reveal_strlit("<RuleList>");
    reveal_strlit("<Rule>");
    reveal_strlit("<VariantList>");
    reveal_strlit("<Variant>");
    reveal_strlit("<Atom>");
    reveal_strlit("<Id>");
    reveal_strlit("<Chars>");
    reveal_strlit("@<Tag>");
    reveal_strlit("<Num>");
    reveal_strlit("@prio");
    reveal_strlit(":=");
    reveal_strlit(";");
    reveal_strlit("[");
    reveal_strlit("]");
    reveal_strlit("{");
    reveal_strlit("}");
    reveal_strlit("(");
    reveal_strlit(")");
    reveal_strlit("|");
    reveal_strlit("'");
    reveal_strlit("\"");
}

/// The rules of a category.
pub open spec fn of_category(rule: RuleModel) -> bool {
    &&& rule.head == "<RuleList>"@ ==> rule == more_rules() || rule == one_rule()
    &&& rule.head == "<Rule>"@ ==> rule == definition()
    &&& rule.head == "<VariantList>"@ ==> rule == more_variants() || rule == more_variants_ranked()
        || rule == one_variant() || rule == one_variant_ranked()
    &&& rule.head == "<Variant>"@ ==> rule == more_atoms() || rule == one_atom()
    &&& rule.head == "<Atom>"@ ==> rule == named() || rule == quoted() || rule == double_quoted()
        || rule == optional() || rule == repeated() || rule == grouped() || rule
        == optional_tagged() || rule == repeated_tagged() || rule == grouped_tagged()
    &&& category(rule.head)
    &&& rule.spec.len() > 0
}

/// Each rule is one of its category.
pub proof fn lemma_productions(rule: RuleModel)
    requires
        productions().contains(rule),
    ensures
        of_category(rule),
{
    lemma_names();
    let list = productions();
    let r = list.index_of(rule);
    assert(list[r] == rule);
    assert(list.len() == 18);
}

/// The number of tokens of a tree.
pub open spec fn width(tree: Tree) -> int {
    tree.tokens().len() as int
}

/// The tokens of `tree` stand in `tokens` from `at` on.
pub open spec fn fits(tree: Tree, tokens: Seq<Seq<char>>, at: int) -> bool {
    &&& 0 <= at
    &&& at + width(tree) <= tokens.len()
    &&& tree.tokens() == tokens.subrange(at, at + width(tree))
}

/// The subtrees of a tree.
pub open spec fn parts(tree: Tree) -> Seq<Tree> {
    match tree {
        Tree::Leaf { .. } => Seq::empty(),
        Tree::Node { children, .. } => children,
    }
}

/// The number of tokens before the `k`-th subtree.
pub open spec fn offset(tree: Tree, k: int) -> int {
    derivation::forest_tokens(parts(tree).take(k)).len() as int
}

/// Where the subtrees of a tree stand.
pub proof fn lemma_parts(tree: Tree, tokens: Seq<Seq<char>>, at: int, k: int)
    requires
        tree is Node,
        fits(tree, tokens, at),
        0 <= k < parts(tree).len(),
    ensures
        fits(parts(tree)[k], tokens, at + offset(tree, k)),
        offset(tree, k + 1) == offset(tree, k) + width(parts(tree)[k]),
        offset(tree, 0) == 0,
        offset(tree, parts(tree).len() as int) == width(tree),
        offset(tree, k + 1) <= width(tree),
        parts(tree)[k].steps() < tree.steps(),
{
    let list = parts(tree);
    let n = list.len() as int;
    assert(list.take(n) =~= list);
    assert(list.take(0) =~= Seq::empty());
    assert(tree.tokens() == derivation::forest_tokens(list));
    assert(tree.steps() == 1 + derivation::forest_steps(list));
    lemma_prefix(list, k, n);
    let upto = list.take(k + 1);
    assert(upto.drop_last() =~= list.take(k));
    assert(upto.last() == list[k]);
    lemma_prefix(list, k + 1, n);
    let before = derivation::forest_tokens(list.take(k));
    let mine = list[k].tokens();
    assert(derivation::forest_tokens(upto) == before + mine);
    let all = tree.tokens();
    assert(mine =~= tokens.subrange(
        at + before.len(),
        at + before.len() + mine.len(),
    )) by {
        assert forall|j: int| 0 <= j < mine.len() implies mine[j] == tokens[at + before.len() + j] by {
            assert((before + mine)[before.len() + j] == mine[j]);
            assert(all[before.len() + j] == (before + mine)[before.len() + j]);
            assert(all[before.len() + j] == tokens.subrange(at, at + all.len())[before.len() + j]);
        }
    }
}

/// The tokens of the first trees are the first tokens, and these trees take their part of the
/// steps.
proof fn lemma_prefix(list: Seq<Tree>, k: int, n: int)
    requires
        0 <= k <= n <= list.len(),
    ensures
        derivation::forest_tokens(list.take(k)).len() <= derivation::forest_tokens(
            list.take(n),
        ).len(),
        derivation::forest_tokens(list.take(k)) == derivation::forest_tokens(list.take(n)).take(
            derivation::forest_tokens(list.take(k)).len() as int,
        ),
        k < n ==> list[k].steps() < derivation::forest_steps(list.take(n)),
    decreases n - k,
{
    let a = derivation::forest_tokens(list.take(k));
    if k == n {
        assert(a =~= a.take(a.len() as int));
    } else {
        let upto = list.take(n);
        assert(upto.drop_last() =~= list.take(n - 1));
        assert(upto.last() == list[n - 1]);
        lemma_prefix(list, k, n - 1);
        let b = derivation::forest_tokens(list.take(n - 1));
        let c = derivation::forest_tokens(upto);
        assert(c == b + list[n - 1].tokens());
        assert(a =~= c.take(a.len() as int)) by {
            assert forall|j: int| 0 <= j < a.len() implies a[j] == c[j] by {
                assert(a[j] == b.take(a.len() as int)[j]);
            }
        }
    }
}

/// A subtree of a syntax tree is one, of the symbol that stands in the rule. It is a token for
/// the symbols that are read, and a rule for the others.
pub proof fn lemma_part(tree: Tree, k: int)
    requires
        well_formed(tree),
        tree is Node,
        0 <= k < parts(tree).len(),
    ensures
        productions().contains(tree->rule),
        of_category(tree->rule),
        parts(tree).len() == tree->rule.spec.len(),
        well_formed(parts(tree)[k]),
        parts(tree)[k].symbol() == tree->rule.spec[k],
        category(tree->rule.spec[k]) <==> parts(tree)[k] is Node,
        !category(tree->rule.spec[k]) ==> (parts(tree)[k] matches Tree::Leaf { symbol, token }
            && symbol == tree->rule.spec[k] && token == parts(tree)[k].tokens()[0] && reads(
            symbol,
            token,
        ) && width(parts(tree)[k]) == 1),
{
    lemma_names();
    lemma_productions(tree->rule);
    let part = parts(tree)[k];
    assert(tree->children[k] == part);
    assert(well_formed(part));
    if let Tree::Leaf { symbol, token } = part {
        assert(reads(symbol, token));
        assert(part.tokens() =~= seq![token]);
    }
}

/// The symbols of the notation, in the order in which they are introduced.
pub open spec fn symbols() -> Seq<Seq<char>> {
    seq![
        "<Id>"@,
        "<Chars>"@,
        "@<Tag>"@,
        "@prio"@,
        "<Num>"@,
        ":="@,
        ";"@,
        "["@,
        "]"@,
        "{"@,
        "}"@,
        "("@,
        ")"@,
        "|"@,
        "'"@,
        "\""@,
        "<RuleList>"@,
        "<Rule>"@,
        "<VariantList>"@,
        "<Variant>"@,
        "<Atom>"@,
    ]
}

/// The place of a symbol among those of the notation.
spec fn symbol_number(s: Seq<char>) -> int {
    let (n, first, middle) = looks(s);
    if n == 1 {
        if first == ';' {
            6
        } else if first == '[' {
            7
        } else if first == ']' {
            8
        } else if first == '{' {
            9
        } else if first == '}' {
            10
        } else if first == '(' {
            11
        } else if first == ')' {
            12
        } else if first == '|' {
            13
        } else if first == '\'' {
            14
        } else {
            15
        }
    } else if n == 2 {
        5
    } else if n == 4 {
        0
    } else if n == 5 {
        if first == '@' {
            3
        } else {
            4
        }
    } else if n == 6 {
        if first == '@' {
            2
        } else if middle == 'l' {
            17
        } else {
            20
        }
    } else if n == 7 {
        1
    } else if n == 9 {
        19
    } else if n == 10 {
        16
    } else {
        18
    }
}

/// The symbols of the notation differ.
pub proof fn lemma_symbols()
    ensures
        symbols().len() == 21,
        symbols().no_duplicates(),
        forall|name: Seq<char>|
            #[trigger] symbols().contains(name) <==> category(name) || mark(name) || name
                == "<Id>"@ || name == "<Chars>"@ || name == "@<Tag>"@ || name == "<Num>"@,
{
    lemma_names();
    let list = symbols();
    assert forall|k: int| 0 <= k < 21 implies symbol_number(#[trigger] list[k]) == k by {
        assert(k == 0 || k == 1 || k == 2 || k == 3 || k == 4 || k == 5 || k == 6 || k == 7 || k
            == 8 || k == 9 || k == 10 || k == 11 || k == 12 || k == 13 || k == 14 || k == 15 || k
            == 16 || k == 17 || k == 18 || k == 19 || k == 20);
    }
    assert forall|name: Seq<char>|
        #[trigger] list.contains(name) <==> category(name) || mark(name) || name == "<Id>"@ || name
            == "<Chars>"@ || name == "@<Tag>"@ || name == "<Num>"@ by {
        if list.contains(name) {
            let k = list.index_of(name);
            assert(list[k] == name);
        }
        assert(list[0] == "<Id>"@ && list[1] == "<Chars>"@ && list[2] == "@<Tag>"@ && list[3]
            == "@prio"@ && list[4] == "<Num>"@ && list[5] == ":="@ && list[6] == ";"@ && list[7]
            == "["@ && list[8] == "]"@ && list[9] == "{"@ && list[10] == "}"@ && list[11] == "("@
            && list[12] == ")"@ && list[13] == "|"@ && list[14] == "'"@ && list[15] == "\""@
            && list[16] == "<RuleList>"@ && list[17] == "<Rule>"@ && list[18] == "<VariantList>"@
            && list[19] == "<Variant>"@ && list[20] == "<Atom>"@);
    }
}

/// The place of a rule among those of the notation.
spec fn rule_number(rule: RuleModel) -> int {
    let n = rule.spec.len();
    let first = symbol_number(rule.spec[0]);
    let head = symbol_number(rule.head);
    if head == 16 {
        if n == 2 {
            0
        } else {
            1
        }
    } else if head == 17 {
        2
    } else if head == 18 {
        if n == 3 {
            3
        } else if n == 7 {
            4
        } else if n == 1 {
            5
        } else {
            6
        }
    } else if head == 19 {
        if n == 2 {
            7
        } else {
            8
        }
    } else if n == 1 {
        9
    } else if first == 14 {
        10
    } else if first == 15 {
        11
    } else {
        12 + (if n == 3 {
            0int
        } else {
            3
        }) + (if first == 7 {
            0int
        } else if first == 9 {
            1
        } else {
            2
        })
    }
}

/// The rules of the notation differ.
pub proof fn lemma_distinct_productions()
    ensures
        productions().len() == 18,
        productions().no_duplicates(),
{
    lemma_names();
    let list = productions();
    assert forall|k: int| 0 <= k < 18 implies rule_number(#[trigger] list[k]) == k by {
        assert(k == 0 || k == 1 || k == 2 || k == 3 || k == 4 || k == 5 || k == 6 || k == 7 || k
            == 8 || k == 9 || k == 10 || k == 11 || k == 12 || k == 13 || k == 14 || k == 15 || k
            == 16 || k == 17);
    }
}

} // verus!
