//! What a text in the notation means: the symbols, rules and priorities that it adds.

use vstd::prelude::*;
use vstd::string::*;

use crate::derivation::Tree;
use crate::grammar;
use crate::grammar::{BuilderModel, GrammarBuilder, Kind, RuleModel};
use crate::lexis;
use crate::lexis::{Matcher, MatcherModel};
use crate::syntax;
use crate::text;

verus! {

/// Alternatives: the symbols of each, and the priority that it was given.
pub type Variants = Seq<(Seq<Seq<char>>, Option<i32>)>;

/// What a part of a text stands for, over plain values.
pub enum Value {
    /// Alternatives.
    VariantList(Variants),
    /// The symbols of one alternative.
    Variant(Seq<Seq<char>>),
    /// A symbol.
    Atom(Seq<char>),
    /// A priority.
    Num(i32),
    /// Nothing.
    Nop,
}

impl Value {
    /// The alternatives, where it stands for these.
    pub open spec fn variants(self) -> Variants {
        match self {
            Value::VariantList(list) => list,
            _ => Seq::empty(),
        }
    }

    /// The symbols, where it stands for one alternative.
    pub open spec fn variant(self) -> Seq<Seq<char>> {
        match self {
            Value::Variant(list) => list,
            _ => Seq::empty(),
        }
    }

    /// The name, where it stands for a symbol.
    pub open spec fn atom(self) -> Seq<char> {
        match self {
            Value::Atom(name) => name,
            _ => Seq::empty(),
        }
    }

    /// The number, where it stands for one.
    pub open spec fn num(self) -> i32 {
        match self {
            Value::Num(n) => n,
            _ => 0,
        }
    }
}

/// The value is of the sort that `symbol` has.
pub open spec fn sort_fits(symbol: Seq<char>, value: Value) -> bool {
    if symbol == "<VariantList>"@ {
        value is VariantList
    } else if symbol == "<Variant>"@ {
        value is Variant
    } else if symbol == "<RuleList>"@ || symbol == "<Rule>"@ {
        value is Nop
    } else if symbol == "<Num>"@ {
        value is Num
    } else {
        value is Atom
    }
}

/// The number that a numeral stands for.
pub open spec fn numeral(t: Seq<char>) -> nat
    decreases t.len(),
{
    if t.len() == 0 {
        0
    } else {
        numeral(t.drop_last()) * 10 + (t.last() as nat - '0' as nat) as nat
    }
}

/// What a token adds and stands for. Names and tags are nonterminals, quoted text is a
/// terminal that reads that text; what has been added before stays.
pub open spec fn lift<P>(
    b: BuilderModel<P>,
    symbol: Seq<char>,
    token: Seq<char>,
) -> (BuilderModel<P>, Value) {
    if symbol == "<Id>"@ || symbol == "@<Tag>"@ {
        (b.with_symbol(token, Kind::NonTerm), Value::Atom(token))
    } else if symbol == "<Chars>"@ {
        (
            b.with_symbol(token, Kind::Terminal(MatcherModel::Exactly(token))),
            Value::Atom(token),
        )
    } else if symbol == "<Num>"@ {
        (b, Value::Num(numeral(token) as i32))
    } else {
        (b, Value::Atom(token))
    }
}

/// The builder with a rule for each alternative, and with the priorities that these have.
pub open spec fn with_variants<P>(
    b: BuilderModel<P>,
    head: Seq<char>,
    body: Variants,
) -> BuilderModel<P>
    decreases body.len(),
{
    if body.len() == 0 {
        b
    } else {
        let before = with_variants(b, head, body.drop_last());
        let rule = RuleModel { head, spec: body.last().0 };
        match body.last().1 {
            Some(p) => before.with_rule(rule).with_priority(rule, p),
            None => before.with_rule(rule),
        }
    }
}

/// The alternatives with one more symbol at the end of each.
pub open spec fn with_tail(body: Variants, tail: Seq<char>) -> Variants {
    Seq::new(body.len(), |k: int| (body[k].0.push(tail), body[k].1))
}

/// A symbol for the alternatives: `( ... )`.
pub open spec fn group<P>(b: BuilderModel<P>, aux: Seq<char>, body: Variants) -> BuilderModel<P> {
    with_variants(b.with_symbol(aux, Kind::NonTerm), aux, body)
}

/// A symbol for the alternatives or nothing: `[ ... ]`.
pub open spec fn option<P>(b: BuilderModel<P>, aux: Seq<char>, body: Variants) -> BuilderModel<P> {
    group(b, aux, body).with_rule(RuleModel { head: aux, spec: Seq::empty() })
}

/// A symbol for the alternatives any number of times: `{ ... }`.
pub open spec fn repeat<P>(b: BuilderModel<P>, aux: Seq<char>, body: Variants) -> BuilderModel<P> {
    option(b, aux, with_tail(body, aux))
}

/// What a rule of the notation adds and stands for, given what its parts stand for.
pub open spec fn reduce<P>(
    b: BuilderModel<P>,
    rule: RuleModel,
    args: Seq<Value>,
) -> (BuilderModel<P>, Value) {
    if rule == syntax::definition() {
        (with_variants(b, args[0].atom(), args[2].variants()), Value::Nop)
    } else if rule == syntax::more_variants() {
        (b, Value::VariantList(args[0].variants().push((args[2].variant(), None))))
    } else if rule == syntax::more_variants_ranked() {
        (
            b,
            Value::VariantList(
                args[0].variants().push((args[2].variant(), Some(args[5].num()))),
            ),
        )
    } else if rule == syntax::one_variant() {
        (b, Value::VariantList(seq![(args[0].variant(), None)]))
    } else if rule == syntax::one_variant_ranked() {
        (b, Value::VariantList(seq![(args[0].variant(), Some(args[3].num()))]))
    } else if rule == syntax::more_atoms() {
        (b, Value::Variant(args[0].variant().push(args[1].atom())))
    } else if rule == syntax::one_atom() {
        (b, Value::Variant(seq![args[0].atom()]))
    } else if rule == syntax::named() {
        (b, args[0])
    } else if rule == syntax::quoted() || rule == syntax::double_quoted() {
        (b, args[1])
    } else if rule == syntax::grouped() {
        (group(b, b.unique_name(), args[1].variants()), Value::Atom(b.unique_name()))
    } else if rule == syntax::grouped_tagged() {
        (group(b, args[3].atom(), args[1].variants()), Value::Atom(args[3].atom()))
    } else if rule == syntax::optional() {
        (option(b, b.unique_name(), args[1].variants()), Value::Atom(b.unique_name()))
    } else if rule == syntax::optional_tagged() {
        (option(b, args[3].atom(), args[1].variants()), Value::Atom(args[3].atom()))
    } else if rule == syntax::repeated() {
        (repeat(b, b.unique_name(), args[1].variants()), Value::Atom(b.unique_name()))
    } else if rule == syntax::repeated_tagged() {
        (repeat(b, args[3].atom(), args[1].variants()), Value::Atom(args[3].atom()))
    } else {
        (b, Value::Nop)
    }
}

/// What a syntax tree adds and stands for. The parts are taken from the last to the first,
/// each with what it adds, and then the whole.
pub open spec fn meaning<P>(b: BuilderModel<P>, tree: Tree) -> (BuilderModel<P>, Value)
    decreases tree,
{
    match tree {
        Tree::Leaf { symbol, token } => lift(b, symbol, token),
        Tree::Node { rule, children } => {
            let (after, args) = meanings(b, children);
            reduce(after, rule, args)
        },
    }
}

/// What a list of syntax trees adds and stands for.
pub open spec fn meanings<P>(b: BuilderModel<P>, trees: Seq<Tree>) -> (BuilderModel<P>, Seq<Value>)
    decreases trees,
{
    if trees.len() == 0 {
        (b, Seq::empty())
    } else {
        let (after, last) = meaning(b, trees.last());
        let (done, rest) = meanings(after, trees.drop_last());
        (done, rest.push(last))
    }
}

/// The numerals of the tree are in range.
pub open spec fn numbers_fit(tree: Tree) -> bool
    decreases tree,
{
    match tree {
        Tree::Leaf { symbol, token } => symbol == "<Num>"@ ==> numeral(token) <= i32::MAX,
        Tree::Node { children, .. } => forall|k: int|
            #![trigger children[k]]
            0 <= k < children.len() ==> numbers_fit(children[k]),
    }
}

/// What a part of a text stands for.
pub enum G {
    // Each inner entry is the symbol names and the priority, if one was given.
    VariantList(Vec<(Vec<String>, Option<i32>)>),
    Variant(Vec<String>),
    Atom(String),
    Num(i32),
    Nop,
}

/// The views of a list of alternatives.
pub open spec fn variant_views(list: Seq<(Vec<String>, Option<i32>)>) -> Variants {
    Seq::new(list.len(), |k: int| (text::views(list[k].0@), list[k].1))
}

impl View for G {
    type V = Value;

    open spec fn view(&self) -> Value {
        match *self {
            G::VariantList(list) => Value::VariantList(variant_views(list@)),
            G::Variant(list) => Value::Variant(text::views(list@)),
            G::Atom(name) => Value::Atom(name@),
            G::Num(n) => Value::Num(n),
            G::Nop => Value::Nop,
        }
    }
}

/// The views of a list of parts.
pub open spec fn values(list: Seq<G>) -> Seq<Value> {
    Seq::new(list.len(), |k: int| list[k]@)
}

fn pull_variants(g: G) -> (list: Vec<(Vec<String>, Option<i32>)>)
    requires
        g@ is VariantList,
    ensures
        variant_views(list@) == g@.variants(),
{
    match g {
        G::VariantList(list) => list,
        _ => vstd::pervasive::unreached(),
    }
}

fn pull_variant(g: G) -> (list: Vec<String>)
    requires
        g@ is Variant,
    ensures
        text::views(list@) == g@.variant(),
{
    match g {
        G::Variant(list) => list,
        _ => vstd::pervasive::unreached(),
    }
}

fn pull_atom(g: G) -> (name: String)
    requires
        g@ is Atom,
    ensures
        name@ == g@.atom(),
{
    match g {
        G::Atom(name) => name,
        _ => vstd::pervasive::unreached(),
    }
}

fn pull_num(g: G) -> (n: i32)
    requires
        g@ is Num,
    ensures
        n == g@.num(),
{
    match g {
        G::Num(n) => n,
        _ => vstd::pervasive::unreached(),
    }
}

/// The first numerals of a numeral stand for no more than the whole.
proof fn lemma_numeral_prefix(t: Seq<char>, k: int)
    requires
        0 <= k <= t.len(),
    ensures
        numeral(t.take(k)) <= numeral(t),
    decreases t.len() - k,
{
    if k == t.len() {
        assert(t.take(k) =~= t);
    } else {
        lemma_numeral_prefix(t, k + 1);
        assert(t.take(k + 1).drop_last() =~= t.take(k));
    }
}

/// Numerals are decimal: one more digit stands for ten times as much and the digit, and the numeral
/// of a number stands for that number.
pub proof fn law_numerals_are_decimal(t: Seq<char>, c: char, n: nat)
    ensures
        numeral(Seq::empty()) == 0,
        '0' <= c <= '9' ==> numeral(t.push(c)) == 10 * numeral(t) + (c as nat - '0' as nat),
        numeral(text::decimal(n)) == n,
    decreases n,
{
    assert(t.push(c).drop_last() =~= t);
    text::lemma_digit_char(n % 10);
    if n < 10 {
        let one = text::decimal(n);
        assert(one.drop_last() =~= Seq::empty());
        assert(one.last() == text::digit_char(n));
    } else {
        let front = text::decimal(n / 10);
        law_numerals_are_decimal(t, c, n / 10);
        assert(front.push(text::digit_char(n % 10)).drop_last() =~= front);
    }
}

/// Alternatives are added one by one, in order and none left out: each is a rule with its symbols
/// under the head, and has its priority, if it has one.
pub proof fn law_alternatives_are_added_one_by_one<P>(
    b: BuilderModel<P>,
    head: Seq<char>,
    body: Variants,
    spec: Seq<Seq<char>>,
    priority: i32,
)
    ensures
        with_variants(b, head, Seq::empty()) == b,
        with_variants(b, head, body.push((spec, None))) == with_variants(b, head, body).with_rule(
            RuleModel { head, spec },
        ),
        ({
            let before = with_variants(b, head, body).with_rule(RuleModel { head, spec });
            with_variants(b, head, body.push((spec, Some(priority)))) == (BuilderModel {
                priorities: before.priorities.insert(
                    (RuleModel { head, spec }).text(),
                    priority,
                ),
                ..before
            })
        }),
{
    assert(body.push((spec, None)).drop_last() =~= body);
    assert(body.push((spec, Some(priority))).drop_last() =~= body);
}

/// Reads a numeral, where it is in range.
pub fn read_numeral(token: &str) -> (n: Option<i32>)
    requires
        lexis::is_digits(token@),
    ensures
        n is Some <==> numeral(token@) <= i32::MAX,
        n matches Some(n) ==> n == numeral(token@),
{
    let list = lexis::chars_of(token);
    let mut n: i32 = 0;
    let mut k: usize = 0;
    proof {
        assert(token@.take(0) =~= Seq::empty());
    }
    while k < list.len()
        invariant
            list@ == token@,
            lexis::is_digits(token@),
            k <= list@.len(),
            n == numeral(token@.take(k as int)),
        decreases list.len() - k,
    {
        let c = list[k];
        proof {
            assert(lexis::ascii_digit(token@[k as int]));
            lemma_numeral_prefix(token@, k + 1);
            let now = token@.take(k + 1);
            assert(now.drop_last() =~= token@.take(k as int));
            assert(now.last() == c);
        }
        let digit: u32 = c as u32 - '0' as u32;
        let more: i64 = n as i64 * 10 + digit as i64;
        if more > i32::MAX as i64 {
            return None;
        }
        n = more as i32;
        k = k + 1;
    }
    proof {
        assert(token@.take(k as int) =~= token@);
    }
    Some(n)
}

/// Adds the symbol that a token names, and says what the token stands for.
pub fn ebnf_terminal_parser<P>(
    user_grammar_builder: &mut GrammarBuilder<P>,
    symbol: &str,
    token: &str,
) -> (g: G)
    requires
        symbol@ == "<Num>"@ ==> lexis::is_digits(token@) && numeral(token@) <= i32::MAX,
    ensures
        (final(user_grammar_builder)@, g@) == lift(old(user_grammar_builder)@, symbol@, token@),
{
    if lexis::same_text(symbol, "<Id>") || lexis::same_text(symbol, "@<Tag>") {
        user_grammar_builder.nonterm_try(token);
    } else if lexis::same_text(symbol, "<Chars>") {
        user_grammar_builder.terminal_try(token, Matcher::Exactly(token.to_owned()));
    } else if lexis::same_text(symbol, "<Num>") {
        // Priority literal: lifted numerically; no grammar side effects.
        return match read_numeral(token) {
            Some(n) => G::Num(n),
            None => vstd::pervasive::unreached(),
        };
    }
    G::Atom(token.to_owned())
}

/// Borrows a list of names.
fn borrow_names<'a>(list: &'a Vec<String>) -> (names: Vec<&'a str>)
    ensures
        grammar::name_views(names@) == text::views(list@),
{
    let mut names: Vec<&'a str> = Vec::new();
    let mut k: usize = 0;
    while k < list.len()
        invariant
            k <= list@.len(),
            grammar::name_views(names@) == text::views(list@).take(k as int),
        decreases list.len() - k,
    {
        let ghost before = names@;
        names.push(list[k].as_str());
        k = k + 1;
        proof {
            let all = text::views(list@);
            assert(all.take(k as int) =~= all.take(k - 1).push(all[k - 1]));
            assert(grammar::name_views(names@) =~= grammar::name_views(before).push(all[k - 1]));
        }
    }
    proof {
        assert(text::views(list@).take(k as int) =~= text::views(list@));
    }
    names
}

/// Adds a rule for each alternative, with its priority.
pub fn add_aux_variants<P>(
    t_gb: &mut GrammarBuilder<P>,
    aux: &str,
    body: Vec<(Vec<String>, Option<i32>)>,
)
    ensures
        final(t_gb)@ == with_variants(old(t_gb)@, aux@, variant_views(body@)),
{
    let ghost all = variant_views(body@);
    let ghost first = t_gb@;
    let mut k: usize = 0;
    proof {
        assert(all.take(0) =~= Seq::empty());
    }
    while k < body.len()
        invariant
            all == variant_views(body@),
            k <= body@.len(),
            first == old(t_gb)@,
            t_gb@ == with_variants(first, aux@, all.take(k as int)),
        decreases body.len() - k,
    {
        let (spec, prio) = &body[k];
        let spec_str = borrow_names(spec);
        proof {
            let now = all.take(k + 1);
            assert(now.drop_last() =~= all.take(k as int));
            assert(now.last() == (text::views(spec@), *prio));
        }
        t_gb.rule_try(aux, spec_str.as_slice());
        if let Some(p) = prio {
            t_gb.rule_priority_try(aux, spec_str.as_slice(), *p);
        }
        k = k + 1;
    }
    proof {
        assert(all.take(k as int) =~= all);
    }
}

/// `<Rule> -> <Id> := <VariantList> ;`
pub fn ebnf_rule_action<P>(gb: &mut GrammarBuilder<P>, n: Vec<G>) -> (g: G)
    requires
        n@.len() == 4,
        n@[0]@ is Atom,
        n@[2]@ is VariantList,
    ensures
        (final(gb)@, g@) == reduce(old(gb)@, syntax::definition(), values(n@)),
{
    let mut n = n;
    let id = pull_atom(n.remove(0));
    let body = pull_variants(n.remove(1));
    add_aux_variants(gb, id.as_str(), body);
    G::Nop
}

/// The actions of `<VariantList>`: one more variant or the first one, with a priority or
/// without.
pub fn ebnf_variantlist_action(n: Vec<G>) -> (g: G)
    requires
        n@.len() == 3 || n@.len() == 7 ==> n@[0]@ is VariantList && n@[2]@ is Variant,
        n@.len() == 7 ==> n@[5]@ is Num,
        n@.len() == 1 || n@.len() == 5 ==> n@[0]@ is Variant,
        n@.len() == 5 ==> n@[3]@ is Num,
        n@.len() == 1 || n@.len() == 3 || n@.len() == 5 || n@.len() == 7,
    ensures
        n@.len() == 3 ==> g@ == Value::VariantList(
            n@[0]@.variants().push((n@[2]@.variant(), None)),
        ),
        n@.len() == 7 ==> g@ == Value::VariantList(
            n@[0]@.variants().push((n@[2]@.variant(), Some(n@[5]@.num()))),
        ),
        n@.len() == 1 ==> g@ == Value::VariantList(seq![(n@[0]@.variant(), None)]),
        n@.len() == 5 ==> g@ == Value::VariantList(seq![(n@[0]@.variant(), Some(n@[3]@.num()))]),
{
    let mut n = n;
    let len = n.len();
    // The highest index is removed first so earlier positions stay stable.
    let prio = if len == 7 {
        Some(pull_num(n.remove(5)))
    } else if len == 5 {
        Some(pull_num(n.remove(3)))
    } else {
        None
    };
    if len == 3 || len == 7 {
        let part = pull_variant(n.remove(2));
        let mut body = pull_variants(n.remove(0));
        let ghost before = variant_views(body@);
        body.push((part, prio));
        proof {
            assert(variant_views(body@) =~= before.push((text::views(part@), prio)));
        }
        G::VariantList(body)
    } else {
        let part = pull_variant(n.remove(0));
        let mut body: Vec<(Vec<String>, Option<i32>)> = Vec::new();
        body.push((part, prio));
        proof {
            assert(variant_views(body@) =~= seq![(text::views(part@), prio)]);
        }
        G::VariantList(body)
    }
}

/// The actions of `<Variant>`: one more atom or the first one.
pub fn ebnf_variant_action(n: Vec<G>) -> (g: G)
    requires
        n@.len() == 2 ==> n@[0]@ is Variant && n@[1]@ is Atom,
        n@.len() == 1 ==> n@[0]@ is Atom,
        n@.len() == 1 || n@.len() == 2,
    ensures
        n@.len() == 2 ==> g@ == Value::Variant(n@[0]@.variant().push(n@[1]@.atom())),
        n@.len() == 1 ==> g@ == Value::Variant(seq![n@[0]@.atom()]),
{
    let mut n = n;
    if n.len() == 2 {
        let mut part = pull_variant(n.remove(0));
        let ghost before = text::views(part@);
        let name = pull_atom(n.remove(0));
        part.push(name);
        proof {
            assert(text::views(part@) =~= before.push(name@));
        }
        G::Variant(part)
    } else {
        let name = pull_atom(n.remove(0));
        let mut part: Vec<String> = Vec::new();
        part.push(name);
        proof {
            assert(text::views(part@) =~= seq![name@]);
        }
        G::Variant(part)
    }
}

/// The symbol that bracketed alternatives get: the tag, or a name of the builder's own making.
pub open spec fn aux_name<P>(b: BuilderModel<P>, args: Seq<Value>) -> Seq<char> {
    if args.len() == 4 {
        args[3].atom()
    } else {
        b.unique_name()
    }
}

/// The alternatives between brackets, and the symbol that they get.
fn take_body<P>(gb: &GrammarBuilder<P>, n: Vec<G>) -> (res: (
    String,
    Vec<(Vec<String>, Option<i32>)>,
))
    requires
        n@.len() == 3 || n@.len() == 4,
        n@[1]@ is VariantList,
        n@.len() == 4 ==> n@[3]@ is Atom,
    ensures
        res.0@ == aux_name(gb@, values(n@)),
        variant_views(res.1@) == n@[1]@.variants(),
{
    let mut n = n;
    let aux = if n.len() == 4 {
        pull_atom(n.remove(3))
    } else {
        gb.unique_symbol_name()
    };
    let body = pull_variants(n.remove(1));
    (aux, body)
}

/// `<Atom> -> ( <VariantList> )`, with a tag or without.
pub fn ebnf_grouping_action<P>(gb: &mut GrammarBuilder<P>, n: Vec<G>) -> (g: G)
    requires
        n@.len() == 3 || n@.len() == 4,
        n@[1]@ is VariantList,
        n@.len() == 4 ==> n@[3]@ is Atom,
    ensures
        g@ == Value::Atom(aux_name(old(gb)@, values(n@))),
        final(gb)@ == group(
            old(gb)@,
            aux_name(old(gb)@, values(n@)),
            n@[1]@.variants(),
        ),
{
    let (aux, body) = take_body(gb, n);
    gb.nonterm_try(aux.as_str());
    add_aux_variants(gb, aux.as_str(), body);
    G::Atom(aux)
}

/// Adds the empty rule of a symbol.
fn add_empty<P>(gb: &mut GrammarBuilder<P>, aux: &str)
    ensures
        final(gb)@ == old(gb)@.with_rule(RuleModel { head: aux@, spec: Seq::empty() }),
{
    let none: Vec<&str> = Vec::new();
    proof {
        assert(grammar::name_views(none@) =~= Seq::empty());
    }
    gb.rule_try(aux, none.as_slice());
}

/// `<Atom> -> [ <VariantList> ]`, with a tag or without.
pub fn ebnf_optional_action<P>(gb: &mut GrammarBuilder<P>, n: Vec<G>) -> (g: G)
    requires
        n@.len() == 3 || n@.len() == 4,
        n@[1]@ is VariantList,
        n@.len() == 4 ==> n@[3]@ is Atom,
    ensures
        g@ == Value::Atom(aux_name(old(gb)@, values(n@))),
        final(gb)@ == option(
            old(gb)@,
            aux_name(old(gb)@, values(n@)),
            n@[1]@.variants(),
        ),
{
    // <Atom> -> aux ; aux -> <e> | <VariantList> ;
    let (aux, body) = take_body(gb, n);
    gb.nonterm_try(aux.as_str());
    add_aux_variants(gb, aux.as_str(), body);
    add_empty(gb, aux.as_str());
    G::Atom(aux)
}

/// Adds a symbol at the end of each alternative.
fn add_tail(body: Vec<(Vec<String>, Option<i32>)>, tail: &String) -> (res: Vec<
    (Vec<String>, Option<i32>),
>)
    ensures
        variant_views(res@) == with_tail(variant_views(body@), tail@),
{
    let ghost all = with_tail(variant_views(body@), tail@);
    let mut res: Vec<(Vec<String>, Option<i32>)> = Vec::new();
    let mut k: usize = 0;
    while k < body.len()
        invariant
            all == with_tail(variant_views(body@), tail@),
            k <= body@.len(),
            variant_views(res@) == all.take(k as int),
        decreases body.len() - k,
    {
        let ghost before = res@;
        let (spec, prio) = &body[k];
        let mut names = grammar::copy_names(spec);
        let ghost copied = text::views(names@);
        names.push(tail.clone());
        proof {
            assert(text::views(names@) =~= copied.push(tail@));
        }
        res.push((names, *prio));
        k = k + 1;
        proof {
            assert(all.take(k as int) =~= all.take(k - 1).push(all[k - 1]));
            assert(variant_views(res@) =~= variant_views(before).push(all[k - 1]));
        }
    }
    proof {
        assert(all.take(k as int) =~= all);
    }
    res
}

/// `<Atom> -> { <VariantList> }`, with a tag or without.
pub fn ebnf_repeat_action<P>(gb: &mut GrammarBuilder<P>, n: Vec<G>) -> (g: G)
    requires
        n@.len() == 3 || n@.len() == 4,
        n@[1]@ is VariantList,
        n@.len() == 4 ==> n@[3]@ is Atom,
    ensures
        g@ == Value::Atom(aux_name(old(gb)@, values(n@))),
        final(gb)@ == repeat(
            old(gb)@,
            aux_name(old(gb)@, values(n@)),
            n@[1]@.variants(),
        ),
{
    // <Atom> -> aux ; aux -> <e> | <VariantList> aux ;
    let (aux, body) = take_body(gb, n);
    gb.nonterm_try(aux.as_str());
    let body_with_tail = add_tail(body, &aux);
    add_aux_variants(gb, aux.as_str(), body_with_tail);
    add_empty(gb, aux.as_str());
    G::Atom(aux)
}

} // verus!
