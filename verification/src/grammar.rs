//! Grammar rules and the builder that collects them.

use vstd::prelude::*;
use vstd::string::*;

use crate::lexis::{Matcher, MatcherModel};
use crate::text;

verus! {

/// A production: `head` may be rewritten to the symbols of `spec`, in order.
pub struct RuleModel {
    pub head: Seq<char>,
    pub spec: Seq<Seq<char>>,
}

impl RuleModel {
    /// The canonical form of the rule: `head -> sym1 sym2 ...`.
    pub open spec fn text(self) -> Seq<char> {
        self.head + " -> "@ + text::join(self.spec, " "@)
    }
}

/// A production of a grammar; symbols are given by name.
pub struct Rule {
    pub head: String,
    pub spec: Vec<String>,
}

impl View for Rule {
    type V = RuleModel;

    open spec fn view(&self) -> RuleModel {
        RuleModel { head: self.head@, spec: text::views(self.spec@) }
    }
}

/// What a symbol is.
pub enum Kind<P> {
    /// It is rewritten by rules.
    NonTerm,
    /// It is read from the input.
    Terminal(MatcherModel<P>),
}

/// A list of symbols by name, over plain values.
pub open spec fn find<P>(symbols: Seq<(Seq<char>, Kind<P>)>, name: Seq<char>) -> Option<Kind<P>>
    decreases symbols.len(),
{
    if symbols.len() == 0 {
        None
    } else if symbols[0].0 == name {
        Some(symbols[0].1)
    } else {
        find(symbols.drop_first(), name)
    }
}

/// What a list of assignments leaves: the last one for each rule.
pub open spec fn assigned(list: Seq<(Seq<char>, i32)>) -> Map<Seq<char>, i32>
    decreases list.len(),
{
    if list.len() == 0 {
        Map::empty()
    } else {
        assigned(list.drop_last()).insert(list.last().0, list.last().1)
    }
}

/// A grammar over plain values.
pub struct GrammarModel<P> {
    pub start: Seq<char>,
    pub symbols: Seq<(Seq<char>, Kind<P>)>,
    pub rules: Seq<RuleModel>,
    pub priorities: Map<Seq<char>, i32>,
}

impl<P> GrammarModel<P> {
    /// The symbol is rewritten by rules.
    pub open spec fn is_nonterm(self, name: Seq<char>) -> bool {
        find(self.symbols, name) matches Some(Kind::NonTerm)
    }

    /// How the symbol is read from the input.
    pub open spec fn matcher(self, name: Seq<char>) -> Option<MatcherModel<P>> {
        match find(self.symbols, name) {
            Some(Kind::Terminal(m)) => Some(m),
            _ => None,
        }
    }
}

/// A named symbol of a grammar. A terminal has a matcher.
pub struct Symbol<P> {
    pub name: String,
    pub matcher: Option<Matcher<P>>,
}

/// What a symbol is that has this matcher.
pub open spec fn kind_of<P>(matcher: Option<Matcher<P>>) -> Kind<P> {
    match matcher {
        Some(m) => Kind::Terminal(m@),
        None => Kind::NonTerm,
    }
}

/// The views of a list of symbols.
pub open spec fn symbol_views<P>(list: Seq<Symbol<P>>) -> Seq<(Seq<char>, Kind<P>)> {
    Seq::new(list.len(), |k: int| (list[k].name@, kind_of(list[k].matcher)))
}

/// The views of a list of rules.
pub open spec fn rule_views(list: Seq<Rule>) -> Seq<RuleModel> {
    Seq::new(list.len(), |k: int| list[k]@)
}

/// The views of a list of priorities.
pub open spec fn priority_views(list: Seq<(String, i32)>) -> Seq<(Seq<char>, i32)> {
    Seq::new(list.len(), |k: int| (list[k].0@, list[k].1))
}

/// A grammar: its symbols, its rules, and the priorities that some of them were given, by the
/// rule's canonical form.
pub struct Grammar<P> {
    pub start: String,
    pub symbols: Vec<Symbol<P>>,
    pub rules: Vec<Rule>,
    pub rule_priorities: Vec<(String, i32)>,
}

impl<P> View for Grammar<P> {
    type V = GrammarModel<P>;

    open spec fn view(&self) -> GrammarModel<P> {
        GrammarModel {
            start: self.start@,
            symbols: symbol_views(self.symbols@),
            rules: rule_views(self.rules@),
            priorities: assigned(priority_views(self.rule_priorities@)),
        }
    }
}

/// The place of a symbol in a list.
fn position_of<P>(symbols: &Vec<Symbol<P>>, name: &String) -> (k: Option<usize>)
    ensures
        k is None <==> find(symbol_views(symbols@), name@) is None,
        k matches Some(k) ==> k < symbols@.len() && find(symbol_views(symbols@), name@) == Some(
            kind_of(symbols@[k as int].matcher),
        ),
{
    let ghost all = symbol_views(symbols@);
    let mut k: usize = 0;
    proof {
        assert(all.skip(0) =~= all);
    }
    while k < symbols.len()
        invariant
            all == symbol_views(symbols@),
            k <= symbols@.len(),
            find(all, name@) == find(all.skip(k as int), name@),
        decreases symbols.len() - k,
    {
        proof {
            assert(all.skip(k as int)[0] == all[k as int]);
            assert(all.skip(k as int).drop_first() =~= all.skip(k + 1));
        }
        if symbols[k].name == *name {
            return Some(k);
        }
        k = k + 1;
    }
    None
}

impl<P> Grammar<P> {
    /// Whether the symbol is rewritten by rules.
    pub fn is_nonterm(&self, name: &String) -> (b: bool)
        ensures
            b == self@.is_nonterm(name@),
    {
        match position_of(&self.symbols, name) {
            Some(k) => match &self.symbols[k].matcher {
                None => true,
                Some(_) => false,
            },
            None => false,
        }
    }

    /// How the symbol is read from the input.
    pub fn matcher(&self, name: &String) -> (m: Option<&Matcher<P>>)
        ensures
            match m {
                Some(m) => self@.matcher(name@) == Some(m@),
                None => self@.matcher(name@) is None,
            },
    {
        match position_of(&self.symbols, name) {
            Some(k) => match &self.symbols[k].matcher {
                None => None,
                Some(m) => Some(m),
            },
            None => None,
        }
    }
}

impl Rule {
    /// The canonical form of the rule: `head -> sym1 sym2 ...`.
    pub fn to_string(&self) -> (s: String)
        ensures
            s@ == self@.text(),
    {
        let mut s = self.head.clone();
        s.append(" -> ");
        let spec = text::join_strings(&self.spec, " ");
        s.append(spec.as_str());
        s
    }
}

/// The symbol that is not in the list, among the head and the symbols of a rule: the first.
pub open spec fn missing<P>(
    symbols: Seq<(Seq<char>, Kind<P>)>,
    names: Seq<Seq<char>>,
) -> Option<Seq<char>>
    decreases names.len(),
{
    if names.len() == 0 {
        None
    } else if find(symbols, names[0]) is None {
        Some(names[0])
    } else {
        missing(symbols, names.drop_first())
    }
}

/// Names that are all known leave none missing.
pub proof fn lemma_none_missing<P>(list: Seq<(Seq<char>, Kind<P>)>, names: Seq<Seq<char>>)
    requires
        forall|k: int| 0 <= k < names.len() ==> find(list, #[trigger] names[k]) is Some,
    ensures
        missing(list, names) is None,
    decreases names.len(),
{
    if names.len() > 0 {
        let rest = names.drop_first();
        assert(find(list, names[0]) is Some);
        assert forall|k: int| 0 <= k < rest.len() implies find(
            list,
            #[trigger] rest[k],
        ) is Some by {
            assert(rest[k] == names[k + 1]);
        }
        lemma_none_missing(list, rest);
    }
}

/// A grammar in the making, over plain values.
pub struct BuilderModel<P> {
    pub symbols: Seq<(Seq<char>, Kind<P>)>,
    pub rules: Seq<RuleModel>,
    pub priorities: Map<Seq<char>, i32>,
    pub error: Option<Seq<char>>,
}

impl<P> BuilderModel<P> {
    /// Nothing has been added.
    pub open spec fn blank() -> Self {
        BuilderModel {
            symbols: Seq::empty(),
            rules: Seq::empty(),
            priorities: Map::empty(),
            error: None,
        }
    }

    /// The symbol has been added.
    pub open spec fn has(self, name: Seq<char>) -> bool {
        find(self.symbols, name) is Some
    }

    /// With the first error kept.
    pub open spec fn with_error(self, text: Seq<char>) -> Self {
        match self.error {
            Some(_) => self,
            None => BuilderModel { error: Some(text), ..self },
        }
    }

    /// With a symbol added, unless there is one of that name.
    pub open spec fn with_symbol(self, name: Seq<char>, kind: Kind<P>) -> Self {
        if self.has(name) {
            self
        } else {
            BuilderModel { symbols: self.symbols.push((name, kind)), ..self }
        }
    }

    /// With a rule added, unless it is there. A rule over a symbol that has not been added is
    /// an error.
    pub open spec fn with_rule(self, rule: RuleModel) -> Self {
        match missing(self.symbols, seq![rule.head] + rule.spec) {
            Some(name) => self.with_error("Missing Symbol: "@ + name),
            None => if self.rules.contains(rule) {
                self
            } else {
                BuilderModel { rules: self.rules.push(rule), ..self }
            },
        }
    }

    /// With a priority given to a rule.
    pub open spec fn with_priority(self, rule: RuleModel, priority: i32) -> Self {
        BuilderModel { priorities: self.priorities.insert(rule.text(), priority), ..self }
    }

    /// The `n`-th name for symbols of the builder's own making.
    pub open spec fn own_name(n: nat) -> Seq<char> {
        "<Uniq-"@ + text::decimal(n) + ">"@
    }

    /// The number of the first of these names, from the `n`-th on, that is free.
    pub open spec fn free_from(self, n: nat) -> nat
        decreases self.symbols.len() - n,
    {
        if n >= self.symbols.len() || !self.has(Self::own_name(n)) {
            n
        } else {
            self.free_from(n + 1)
        }
    }

    /// The first of these names that is free.
    pub open spec fn unique_name(self) -> Seq<char> {
        Self::own_name(self.free_from(0))
    }

    /// The grammar with the given start symbol, or the error.
    pub open spec fn finished(self, start: Seq<char>) -> Result<GrammarModel<P>, Seq<char>> {
        match self.error {
            Some(text) => Err(text),
            None => if self.has(start) {
                Ok(
                    GrammarModel {
                        start,
                        symbols: self.symbols,
                        rules: self.rules,
                        priorities: self.priorities,
                    },
                )
            } else {
                Err("Missing Symbol: "@ + start)
            },
        }
    }
}

/// A symbol that is found has a place in the list.
proof fn lemma_find_place<P>(symbols: Seq<(Seq<char>, Kind<P>)>, name: Seq<char>) -> (k: int)
    requires
        find(symbols, name) is Some,
    ensures
        0 <= k < symbols.len(),
        symbols[k].0 == name,
        find(symbols, name) == Some(symbols[k].1),
    decreases symbols.len(),
{
    if symbols[0].0 == name {
        0
    } else {
        let k = lemma_find_place(symbols.drop_first(), name);
        assert(symbols.drop_first()[k] == symbols[k + 1]);
        k + 1
    }
}

/// A symbol is found where there is one of its name, and added symbols hide none.
pub proof fn lemma_find_push<P>(
    symbols: Seq<(Seq<char>, Kind<P>)>,
    name: Seq<char>,
    kind: Kind<P>,
    other: Seq<char>,
)
    ensures
        find(symbols.push((name, kind)), other) == (match find(symbols, other) {
            Some(k) => Some(k),
            None => if other == name {
                Some(kind)
            } else {
                None
            },
        }),
    decreases symbols.len(),
{
    let more = symbols.push((name, kind));
    if symbols.len() == 0 {
        assert(more.drop_first() =~= Seq::<(Seq<char>, Kind<P>)>::empty());
    } else {
        assert(more[0] == symbols[0]);
        assert(more.drop_first() =~= symbols.drop_first().push((name, kind)));
        lemma_find_push(symbols.drop_first(), name, kind, other);
    }
}

impl<P> BuilderModel<P> {
    proof fn lemma_free_from(self, n: nat)
        requires
            n <= self.symbols.len(),
        ensures
            n <= self.free_from(n) <= self.symbols.len(),
            self.free_from(n) < self.symbols.len() ==> !self.has(
                Self::own_name(self.free_from(n)),
            ),
            forall|k: nat|
                n <= k < self.free_from(n) ==> #[trigger] self.has(Self::own_name(k)),
        decreases self.symbols.len() - n,
    {
        if n < self.symbols.len() && self.has(Self::own_name(n)) {
            self.lemma_free_from(n + 1);
        }
    }

    /// A name that the builder makes up is one that no symbol has.
    pub proof fn law_unique_name_is_free(self)
        ensures
            !self.has(self.unique_name()),
    {
        self.lemma_free_from(0);
        let len = self.symbols.len();
        if self.free_from(0) == len && self.has(self.unique_name()) {
            let places = Seq::new(
                len + 1,
                |k: int| choose_place(self.symbols, Self::own_name(k as nat)),
            );
            assert forall|k: int| 0 <= k < places.len() implies 0 <= #[trigger] places[k] < len
                && self.symbols[places[k]].0 == Self::own_name(k as nat) by {
                assert(self.has(Self::own_name(k as nat)));
                let j = lemma_find_place(self.symbols, Self::own_name(k as nat));
                assert(self.symbols[j].0 == Self::own_name(k as nat));
            }
            assert forall|a: int, b: int| 0 <= a < b < places.len() implies places[a]
                != places[b] by {
                if places[a] == places[b] {
                    Self::lemma_own_name(a as nat, b as nat);
                }
            }
            crate::enumeration::lemma_pigeonhole(places, len as int);
        }
    }

    /// No rule gets there twice: a builder starts with none, nothing that is added to it doubles
    /// one, and the grammar has the rules of the builder.
    pub proof fn law_no_rule_twice(
        self,
        name: Seq<char>,
        kind: Kind<P>,
        rule: RuleModel,
        priority: i32,
        text: Seq<char>,
        start: Seq<char>,
    )
        ensures
            Self::blank().rules.no_duplicates(),
            self.rules.no_duplicates() ==> {
                &&& self.with_symbol(name, kind).rules.no_duplicates()
                &&& self.with_rule(rule).rules.no_duplicates()
                &&& self.with_priority(rule, priority).rules.no_duplicates()
                &&& self.with_error(text).rules.no_duplicates()
                &&& self.finished(start) matches Ok(g) ==> g.rules.no_duplicates()
            },
    {
        let more = self.rules.push(rule);
        if self.rules.no_duplicates() && !self.rules.contains(rule) {
            assert forall|a: int, b: int| 0 <= a < more.len() && 0 <= b < more.len() && a
                != b implies more[a] != more[b] by {
                if a < self.rules.len() && b < self.rules.len() {
                    assert(self.rules[a] != self.rules[b]);
                } else if a < self.rules.len() {
                    assert(self.rules.contains(self.rules[a]));
                } else {
                    assert(self.rules.contains(self.rules[b]));
                }
            }
        }
    }

    /// Names of different numbers differ.
    proof fn lemma_own_name(a: nat, b: nat)
        requires
            Self::own_name(a) == Self::own_name(b),
        ensures
            a == b,
    {
        let x = text::decimal(a);
        let y = text::decimal(b);
        let open = "<Uniq-"@;
        let close = ">"@;
        reveal_strlit(">");
        assert(Self::own_name(a).len() == open.len() + x.len() + 1);
        assert(Self::own_name(b).len() == open.len() + y.len() + 1);
        assert(x =~= y) by {
            assert forall|k: int| 0 <= k < x.len() implies x[k] == y[k] by {
                assert(Self::own_name(a)[open.len() + k] == x[k]);
                assert(Self::own_name(b)[open.len() + k] == y[k]);
            }
        }
        text::lemma_decimal(a, b);
    }
}

/// The last assignment to a rule counts, whatever its value, and a rule has a value exactly where
/// one was assigned.
pub proof fn law_the_last_assignment_counts(list: Seq<(Seq<char>, i32)>, text: Seq<char>, k: int)
    ensures
        assigned(list).contains_key(text) <==> exists|j: int|
            0 <= j < list.len() && (#[trigger] list[j]).0 == text,
        0 <= k < list.len() && list[k].0 == text && (forall|j: int|
            k < j < list.len() ==> (#[trigger] list[j]).0 != text) ==> assigned(list)[text]
            == list[k].1,
    decreases list.len(),
{
    if list.len() > 0 {
        let rest = list.drop_last();
        law_the_last_assignment_counts(rest, text, k);
        assert(list[list.len() - 1] == list.last());
        if exists|j: int| 0 <= j < list.len() && (#[trigger] list[j]).0 == text {
            let j = choose|j: int| 0 <= j < list.len() && (#[trigger] list[j]).0 == text;
            if j < rest.len() {
                assert(rest[j] == list[j]);
            }
        }
        if assigned(rest).contains_key(text) {
            let j = choose|j: int| 0 <= j < rest.len() && (#[trigger] rest[j]).0 == text;
            assert(list[j] == rest[j]);
        }
        if 0 <= k < rest.len() && list[k].0 == text && (forall|j: int|
            k < j < list.len() ==> (#[trigger] list[j]).0 != text) {
            assert(rest[k] == list[k]);
            assert forall|j: int| k < j < rest.len() implies (#[trigger] rest[j]).0 != text by {
                assert(rest[j] == list[j]);
            }
            assert(list[list.len() - 1].0 != text);
        }
    }
}

/// There is a symbol of that name in the list.
pub open spec fn named<P>(symbols: Seq<(Seq<char>, Kind<P>)>, name: Seq<char>) -> bool {
    exists|k: int| 0 <= k < symbols.len() && (#[trigger] symbols[k]).0 == name
}

/// A symbol is found exactly where there is one of that name.
pub proof fn lemma_named<P>(symbols: Seq<(Seq<char>, Kind<P>)>, name: Seq<char>)
    ensures
        find(symbols, name) is Some <==> named(symbols, name),
    decreases symbols.len(),
{
    if find(symbols, name) is Some {
        let k = lemma_find_place(symbols, name);
        assert(symbols[k].0 == name);
    }
    if named(symbols, name) {
        let k = choose|k: int| 0 <= k < symbols.len() && (#[trigger] symbols[k]).0 == name;
        if k > 0 {
            assert(symbols.drop_first()[k - 1] == symbols[k]);
            assert(named(symbols.drop_first(), name));
            lemma_named(symbols.drop_first(), name);
        }
    }
}

/// The name that is missing is the first of which there is no symbol.
proof fn lemma_missing<P>(symbols: Seq<(Seq<char>, Kind<P>)>, names: Seq<Seq<char>>) -> (k: int)
    ensures
        missing(symbols, names) is None ==> forall|j: int|
            0 <= j < names.len() ==> named(symbols, #[trigger] names[j]),
        missing(symbols, names) matches Some(name) ==> 0 <= k < names.len() && names[k] == name
            && !named(symbols, name) && forall|j: int|
            0 <= j < k ==> named(symbols, #[trigger] names[j]),
    decreases names.len(),
{
    if names.len() == 0 {
        0
    } else {
        let rest = names.drop_first();
        lemma_named(symbols, names[0]);
        let k = lemma_missing(symbols, rest);
        if find(symbols, names[0]) is None {
            0
        } else {
            if missing(symbols, names) is None {
                assert forall|j: int| 0 <= j < names.len() implies named(
                    symbols,
                    #[trigger] names[j],
                ) by {
                    if j > 0 {
                        assert(rest[j - 1] == names[j]);
                    }
                }
            } else {
                assert(rest[k] == names[k + 1]);
                assert forall|j: int| 0 <= j < k + 1 implies named(
                    symbols,
                    #[trigger] names[j],
                ) by {
                    if j > 0 {
                        assert(rest[j - 1] == names[j]);
                    }
                }
            }
            k + 1
        }
    }
}

/// What a grammar and a rule are over plain values: what they hold, one for one and in order.
pub proof fn law_what_a_grammar_holds<P>(
    grammar: Grammar<P>,
    rule: Rule,
    head: Seq<char>,
    spec: Seq<&str>,
)
    ensures
        grammar@.start == grammar.start@,
        grammar@.symbols.len() == grammar.symbols@.len(),
        forall|k: int|
            0 <= k < grammar.symbols@.len() ==> (#[trigger] grammar@.symbols[k]).0
                == grammar.symbols@[k].name@ && grammar@.symbols[k].1
                == match grammar.symbols@[k].matcher {
                Some(m) => Kind::Terminal(m@),
                None => Kind::NonTerm,
            },
        grammar@.rules.len() == grammar.rules@.len(),
        forall|k: int|
            0 <= k < grammar.rules@.len() ==> #[trigger] grammar@.rules[k] == grammar.rules@[k]@,
        rule@.head == rule.head@,
        rule@.spec.len() == rule.spec@.len(),
        forall|k: int| 0 <= k < rule.spec@.len() ==> #[trigger] rule@.spec[k] == rule.spec@[k]@,
        rule_of(head, spec).head == head,
        rule_of(head, spec).spec.len() == spec.len(),
        forall|k: int| 0 <= k < spec.len() ==> #[trigger] rule_of(head, spec).spec[k] == spec[k]@,
        forall|k: int|
            0 <= k < grammar.rule_priorities@.len() ==> #[trigger] grammar@.priorities.contains_key(
                grammar.rule_priorities@[k].0@,
            ),
{
    let list = priority_views(grammar.rule_priorities@);
    assert forall|k: int| 0 <= k < list.len() implies #[trigger] grammar@.priorities.contains_key(
        grammar.rule_priorities@[k].0@,
    ) by {
        assert(list[k].0 == grammar.rule_priorities@[k].0@);
        law_the_last_assignment_counts(list, list[k].0, k);
    }
}

/// The priorities of a grammar are those that it lists, the last one for each rule.
pub proof fn law_what_priorities_a_grammar_has<P>(grammar: Grammar<P>, k: int)
    requires
        0 <= k < grammar.rule_priorities@.len(),
        forall|j: int|
            k < j < grammar.rule_priorities@.len() ==> (#[trigger] grammar.rule_priorities@[j]).0@
                != grammar.rule_priorities@[k].0@,
    ensures
        grammar@.priorities[grammar.rule_priorities@[k].0@] == grammar.rule_priorities@[k].1,
{
    let list = priority_views(grammar.rule_priorities@);
    assert forall|j: int| k < j < list.len() implies (#[trigger] list[j]).0 != list[k].0 by {
        assert(grammar.rule_priorities@[j].0@ != grammar.rule_priorities@[k].0@);
    }
    law_the_last_assignment_counts(list, list[k].0, k);
}

impl<P> BuilderModel<P> {
    /// What is added to a builder. A symbol comes behind the others unless there is one of that
    /// name, and nothing else changes. A rule of any length whose symbols are all there comes
    /// behind the others unless it is there, and nothing else changes; of any other rule the first
    /// symbol that is missing, its head or the first of the others, is the error, unless there is
    /// one already.
    pub proof fn law_what_is_added(self, name: Seq<char>, kind: Kind<P>, rule: RuleModel)
        ensures
            self.error is Some ==> self.with_error(name) == self,
            self.error is None ==> self.with_error(name) == (BuilderModel {
                error: Some(name),
                ..self
            }),
            self.with_symbol(name, kind) == (BuilderModel {
                symbols: if named(self.symbols, name) {
                    self.symbols
                } else {
                    self.symbols.push((name, kind))
                },
                ..self
            }),
            named(self.symbols, rule.head) && (forall|k: int|
                0 <= k < rule.spec.len() ==> named(self.symbols, #[trigger] rule.spec[k]))
                ==> self.with_rule(rule) == (BuilderModel {
                rules: if exists|k: int| 0 <= k < self.rules.len() && #[trigger] self.rules[k]
                    == rule {
                    self.rules
                } else {
                    self.rules.push(rule)
                },
                ..self
            }),
            !named(self.symbols, rule.head) ==> self.with_rule(rule) == (BuilderModel {
                error: if self.error is Some {
                    self.error
                } else {
                    Some("Missing Symbol: "@ + rule.head)
                },
                ..self
            }),
            forall|k: int|
                0 <= k < rule.spec.len() && named(self.symbols, rule.head) && !named(
                    self.symbols,
                    #[trigger] rule.spec[k],
                ) && (forall|j: int|
                    0 <= j < k ==> named(self.symbols, #[trigger] rule.spec[j])) ==> self.with_rule(
                    rule,
                ) == (BuilderModel {
                    error: if self.error is Some {
                        self.error
                    } else {
                        Some("Missing Symbol: "@ + rule.spec[k])
                    },
                    ..self
                }),
    {
        lemma_named(self.symbols, name);
        let names = seq![rule.head] + rule.spec;
        let m = lemma_missing(self.symbols, names);
        assert(names[0] == rule.head);
        assert forall|j: int| 0 <= j < rule.spec.len() implies #[trigger] rule.spec[j] == names[j
            + 1] by {}
        if self.rules.contains(rule) {
            let k = self.rules.index_of(rule);
            assert(self.rules[k] == rule);
        }
        if missing(self.symbols, names) is Some {
            assert(named(self.symbols, rule.head) ==> m > 0);
            if m > 0 {
                assert(rule.spec[m - 1] == names[m]);
                assert forall|j: int| 0 <= j < m - 1 implies named(
                    self.symbols,
                    #[trigger] rule.spec[j],
                ) by {
                    assert(names[j + 1] == rule.spec[j]);
                }
            }
        } else {
            assert forall|j: int| 0 <= j < rule.spec.len() implies named(
                self.symbols,
                #[trigger] rule.spec[j],
            ) by {
                assert(named(self.symbols, names[j + 1]));
            }
            assert(named(self.symbols, names[0]));
        }
        assert forall|k: int|
            0 <= k < rule.spec.len() && named(self.symbols, rule.head) && !named(
                self.symbols,
                #[trigger] rule.spec[k],
            ) && (forall|j: int|
                0 <= j < k ==> named(self.symbols, #[trigger] rule.spec[j])) implies self.with_rule(
            rule,
        ) == (BuilderModel {
            error: if self.error is Some {
                self.error
            } else {
                Some("Missing Symbol: "@ + rule.spec[k])
            },
            ..self
        }) by {
            assert(m >= 1);
            if m - 1 < k {
                assert(named(self.symbols, rule.spec[m - 1]));
            } else if k < m - 1 {
                assert(named(self.symbols, names[k + 1]));
            }
        }
    }

    /// A grammar is made exactly where there is no error and the start symbol is there, and it is
    /// made of what was added.
    pub proof fn law_what_is_finished(self, start: Seq<char>)
        ensures
            self.error is None && named(self.symbols, start) ==> self.finished(start) == Ok::<
                GrammarModel<P>,
                Seq<char>,
            >(
                GrammarModel {
                    start,
                    symbols: self.symbols,
                    rules: self.rules,
                    priorities: self.priorities,
                },
            ),
            self.error matches Some(text) ==> self.finished(start) == Err::<
                GrammarModel<P>,
                Seq<char>,
            >(text),
            self.error is None && !named(self.symbols, start) ==> self.finished(start) == Err::<
                GrammarModel<P>,
                Seq<char>,
            >("Missing Symbol: "@ + start),
    {
        lemma_named(self.symbols, start);
    }
}

/// A place in the list where a symbol of that name stands, if there is one.
spec fn choose_place<P>(symbols: Seq<(Seq<char>, Kind<P>)>, name: Seq<char>) -> int {
    choose|k: int| 0 <= k < symbols.len() && (#[trigger] symbols[k]).0 == name
}

/// The views of a list of names.
pub open spec fn name_views(list: Seq<&str>) -> Seq<Seq<char>> {
    Seq::new(list.len(), |k: int| list[k]@)
}

/// A rule from its parts.
pub open spec fn rule_of(head: Seq<char>, spec: Seq<&str>) -> RuleModel {
    RuleModel { head, spec: name_views(spec) }
}

/// Collects symbols and rules, and makes a grammar of them.
pub struct GrammarBuilder<P> {
    symbols: Vec<Symbol<P>>,
    rules: Vec<Rule>,
    rule_priorities: Vec<(String, i32)>,
    // The first mistake, reported when the grammar is made.
    error: Option<String>,
}

impl<P> View for GrammarBuilder<P> {
    type V = BuilderModel<P>;

    closed spec fn view(&self) -> BuilderModel<P> {
        BuilderModel {
            symbols: symbol_views(self.symbols@),
            rules: rule_views(self.rules@),
            priorities: assigned(priority_views(self.rule_priorities@)),
            error: match self.error {
                Some(text) => Some(text@),
                None => None,
            },
        }
    }
}

/// Makes a rule of its parts.
fn make_rule(head: &str, spec: &[&str]) -> (rule: Rule)
    ensures
        rule@ == rule_of(head@, spec@),
{
    let mut names: Vec<String> = Vec::new();
    let mut k: usize = 0;
    while k < spec.len()
        invariant
            k <= spec@.len(),
            text::views(names@) == name_views(spec@).take(k as int),
        decreases spec.len() - k,
    {
        let ghost before = names@;
        names.push(spec[k].to_owned());
        k = k + 1;
        proof {
            let all = name_views(spec@);
            assert(all.take(k as int) =~= all.take(k - 1).push(all[k - 1]));
            assert(text::views(names@) =~= text::views(before).push(all[k - 1]));
        }
    }
    proof {
        assert(name_views(spec@).take(k as int) =~= name_views(spec@));
    }
    Rule { head: head.to_owned(), spec: names }
}

/// Copies a list of names.
pub fn copy_names(list: &Vec<String>) -> (copy: Vec<String>)
    ensures
        text::views(copy@) == text::views(list@),
{
    let mut copy: Vec<String> = Vec::new();
    let mut k: usize = 0;
    while k < list.len()
        invariant
            k <= list@.len(),
            text::views(copy@) == text::views(list@).take(k as int),
        decreases list.len() - k,
    {
        let ghost before = copy@;
        copy.push(list[k].clone());
        k = k + 1;
        proof {
            let all = text::views(list@);
            assert(all.take(k as int) =~= all.take(k - 1).push(all[k - 1]));
            assert(text::views(copy@) =~= text::views(before).push(all[k - 1]));
        }
    }
    proof {
        assert(text::views(list@).take(k as int) =~= text::views(list@));
    }
    copy
}

/// Copies a list of rules.
pub fn copy_rules(list: &Vec<Rule>) -> (copy: Vec<Rule>)
    ensures
        rule_views(copy@) == rule_views(list@),
{
    let mut copy: Vec<Rule> = Vec::new();
    let mut k: usize = 0;
    while k < list.len()
        invariant
            k <= list@.len(),
            rule_views(copy@) == rule_views(list@).take(k as int),
        decreases list.len() - k,
    {
        let ghost before = copy@;
        copy.push(Rule { head: list[k].head.clone(), spec: copy_names(&list[k].spec) });
        k = k + 1;
        proof {
            let all = rule_views(list@);
            assert(all.take(k as int) =~= all.take(k - 1).push(all[k - 1]));
            assert(rule_views(copy@) =~= rule_views(before).push(all[k - 1]));
        }
    }
    proof {
        assert(rule_views(list@).take(k as int) =~= rule_views(list@));
    }
    copy
}

/// Whether two rules are the same.
fn same_rule(a: &Rule, b: &Rule) -> (same: bool)
    ensures
        same == (a@ == b@),
{
    if a.head != b.head || a.spec.len() != b.spec.len() {
        proof {
            assert(a@.spec.len() == a.spec@.len());
            assert(b@.spec.len() == b.spec@.len());
        }
        return false;
    }
    let mut k: usize = 0;
    while k < a.spec.len()
        invariant
            a.head@ == b.head@,
            a.spec@.len() == b.spec@.len(),
            k <= a.spec@.len(),
            forall|j: int| 0 <= j < k ==> (#[trigger] a.spec@[j])@ == b.spec@[j]@,
        decreases a.spec.len() - k,
    {
        if a.spec[k] != b.spec[k] {
            proof {
                assert(a@.spec[k as int] == a.spec@[k as int]@);
                assert(b@.spec[k as int] == b.spec@[k as int]@);
            }
            return false;
        }
        k = k + 1;
    }
    proof {
        assert(a@.spec =~= b@.spec);
    }
    true
}

impl<P> GrammarBuilder<P> {
    /// No rule is there twice.
    #[verifier::type_invariant]
    closed spec fn rules_apart(self) -> bool {
        rule_views(self.rules@).no_duplicates()
    }
}

impl<P> Default for GrammarBuilder<P> {
    fn default() -> (builder: Self)
        ensures
            builder@ == BuilderModel::<P>::blank(),
    {
        GrammarBuilder::new()
    }
}

impl<P> GrammarBuilder<P> {
    /// A builder to which nothing has been added.
    pub fn new() -> (builder: Self)
        ensures
            builder@ == BuilderModel::<P>::blank(),
    {
        let builder = GrammarBuilder {
            symbols: Vec::new(),
            rules: Vec::new(),
            rule_priorities: Vec::new(),
            error: None,
        };
        proof {
            assert(builder@.symbols =~= Seq::empty());
            assert(builder@.rules =~= Seq::empty());
            assert(priority_views(builder.rule_priorities@) =~= Seq::empty());
        }
        builder
    }

    fn has(&self, name: &String) -> (b: bool)
        ensures
            b == self@.has(name@),
    {
        match position_of(&self.symbols, name) {
            Some(_) => true,
            None => false,
        }
    }

    /// Keeps the first error.
    fn fail(&mut self, text: String)
        ensures
            final(self)@ == old(self)@.with_error(text@),
    {
        proof {
            use_type_invariant(&*self);
        }
        match &self.error {
            Some(_) => {},
            None => {
                self.error = Some(text);
            },
        }
    }

    fn add_symbol(&mut self, name: &str, matcher: Option<Matcher<P>>) -> (added: bool)
        ensures
            added == !old(self)@.has(name@),
            final(self)@ == old(self)@.with_symbol(name@, kind_of(matcher)),
    {
        let name = name.to_owned();
        if self.has(&name) {
            return false;
        }
        let ghost before = self.symbols@;
        proof {
            use_type_invariant(&*self);
        }
        let mut symbols: Vec<Symbol<P>> = Vec::new();
        core::mem::swap(&mut self.symbols, &mut symbols);
        symbols.push(Symbol { name, matcher });
        self.symbols = symbols;
        proof {
            assert(symbol_views(self.symbols@) =~= symbol_views(before).push(
                (name@, kind_of(matcher)),
            ));
        }
        true
    }

    /// The first name that is not that of a symbol.
    fn missing_name(&self, names: &Vec<String>) -> (found: Option<usize>)
        ensures
            match found {
                Some(k) => k < names@.len() && missing(self@.symbols, text::views(names@)) == Some(
                    names@[k as int]@,
                ),
                None => missing(self@.symbols, text::views(names@)) is None,
            },
    {
        let ghost all = text::views(names@);
        let mut k: usize = 0;
        proof {
            assert(all.skip(0) =~= all);
        }
        while k < names.len()
            invariant
                all == text::views(names@),
                k <= names@.len(),
                missing(self@.symbols, all) == missing(self@.symbols, all.skip(k as int)),
            decreases names.len() - k,
        {
            proof {
                assert(all.skip(k as int)[0] == all[k as int]);
                assert(all.skip(k as int).drop_first() =~= all.skip(k + 1));
            }
            if !self.has(&names[k]) {
                return Some(k);
            }
            k = k + 1;
        }
        None
    }

    fn add_rule(&mut self, rule: Rule) -> (again: bool)
        ensures
            final(self)@ == old(self)@.with_rule(rule@),
            again == (missing(old(self)@.symbols, seq![rule@.head] + rule@.spec) is None
                && old(self)@.rules.contains(rule@)),
    {
        let ghost names = seq![rule@.head] + rule@.spec;
        proof {
            assert(names[0] == rule@.head);
            assert(names.drop_first() =~= rule@.spec);
        }
        if !self.has(&rule.head) {
            let mut text = "Missing Symbol: ".to_owned();
            text.append(rule.head.as_str());
            self.fail(text);
            return false;
        }
        if let Some(k) = self.missing_name(&rule.spec) {
            let mut text = "Missing Symbol: ".to_owned();
            text.append(rule.spec[k].as_str());
            self.fail(text);
            return false;
        }
        let mut k: usize = 0;
        while k < self.rules.len()
            invariant
                *self == *old(self),
                k <= self.rules@.len(),
                forall|j: int| 0 <= j < k ==> (#[trigger] self.rules@[j])@ != rule@,
                missing(old(self)@.symbols, seq![rule@.head] + rule@.spec) is None,
            decreases self.rules.len() - k,
        {
            if same_rule(&self.rules[k], &rule) {
                proof {
                    assert(self@.rules[k as int] == rule@);
                }
                return true;
            }
            k = k + 1;
        }
        proof {
            if self@.rules.contains(rule@) {
                let j = self@.rules.index_of(rule@);
                assert(self.rules@[j]@ == rule@);
            }
        }
        let ghost before = self.rules@;
        proof {
            use_type_invariant(&*self);
            self@.law_no_rule_twice(rule@.head, Kind::NonTerm, rule@, 0, rule@.head, rule@.head);
            assert(rule_views(Seq::<Rule>::empty()) =~= Seq::empty());
            assert(rule_views(before.push(rule)) =~= rule_views(before).push(rule@));
        }
        let mut rules: Vec<Rule> = Vec::new();
        core::mem::swap(&mut self.rules, &mut rules);
        rules.push(rule);
        self.rules = rules;
        proof {
            assert(rule_views(self.rules@) =~= rule_views(before).push(rule@));
        }
        false
    }

    /// Adds a nonterminal, unless there is a symbol of that name.
    pub fn nonterm_try(&mut self, name: &str)
        ensures
            final(self)@ == old(self)@.with_symbol(name@, Kind::NonTerm),
    {
        self.add_symbol(name, None);
    }

    /// Adds a terminal, unless there is a symbol of that name.
    pub fn terminal_try(&mut self, name: &str, matcher: Matcher<P>)
        ensures
            final(self)@ == old(self)@.with_symbol(name@, Kind::Terminal(matcher@)),
    {
        self.add_symbol(name, Some(matcher));
    }

    /// Adds a rule, unless it is there.
    pub fn rule_try(&mut self, head: &str, spec: &[&str])
        ensures
            final(self)@ == old(self)@.with_rule(rule_of(head@, spec@)),
    {
        self.add_rule(make_rule(head, spec));
    }

    /// Gives a rule a priority.
    pub fn rule_priority_try(&mut self, head: &str, spec: &[&str], priority: i32)
        ensures
            final(self)@ == old(self)@.with_priority(rule_of(head@, spec@), priority),
    {
        let rule = make_rule(head, spec);
        let ghost before = self.rule_priorities@;
        proof {
            use_type_invariant(&*self);
        }
        let mut list: Vec<(String, i32)> = Vec::new();
        core::mem::swap(&mut self.rule_priorities, &mut list);
        list.push((rule.to_string(), priority));
        self.rule_priorities = list;
        proof {
            let list = priority_views(self.rule_priorities@);
            assert(list.drop_last() =~= priority_views(before));
        }
    }

    /// A name that no symbol has.
    pub fn unique_symbol_name(&self) -> (name: String)
        ensures
            name@ == self@.unique_name(),
            !self@.has(name@),
    {
        proof {
            self@.law_unique_name_is_free();
        }
        let mut n: usize = 0;
        loop
            invariant
                n <= self.symbols@.len(),
                self@.free_from(0) == self@.free_from(n as nat),
                !self@.has(self@.unique_name()),
            decreases self.symbols.len() - n,
        {
            let mut name = "<Uniq-".to_owned();
            let digits = text::to_decimal(n as u64);
            name.append(digits.as_str());
            name.append(">");
            proof {
                assert(name@ == BuilderModel::<P>::own_name(n as nat));
            }
            if n >= self.symbols.len() || !self.has(&name) {
                return name;
            }
            n = n + 1;
        }
    }

    /// Adds a nonterminal; one of a name that is taken is an error.
    pub fn nonterm(self, name: &str) -> (builder: Self)
        ensures
            builder@ == if self@.has(name@) {
                self@.with_error("Redefined Symbol: "@ + name@)
            } else {
                self@.with_symbol(name@, Kind::NonTerm)
            },
    {
        self.symbol(name, None)
    }

    /// Adds a terminal that reads the tokens of which `pred` says so; one of a name that is
    /// taken is an error.
    pub fn terminal(self, name: &str, pred: P) -> (builder: Self)
        ensures
            builder@ == if self@.has(name@) {
                self@.with_error("Redefined Symbol: "@ + name@)
            } else {
                self@.with_symbol(name@, Kind::Terminal(MatcherModel::Plugged(pred)))
            },
    {
        self.symbol(name, Some(Matcher::Plugged(pred)))
    }

    /// Adds a terminal that reads the tokens that `matcher` matches; one of a name that is
    /// taken is an error.
    pub fn terminal_with(self, name: &str, matcher: Matcher<P>) -> (builder: Self)
        ensures
            builder@ == if self@.has(name@) {
                self@.with_error("Redefined Symbol: "@ + name@)
            } else {
                self@.with_symbol(name@, Kind::Terminal(matcher@))
            },
    {
        self.symbol(name, Some(matcher))
    }

    fn symbol(self, name: &str, matcher: Option<Matcher<P>>) -> (builder: Self)
        ensures
            builder@ == if self@.has(name@) {
                self@.with_error("Redefined Symbol: "@ + name@)
            } else {
                self@.with_symbol(name@, kind_of(matcher))
            },
    {
        let mut builder = self;
        if !builder.add_symbol(name, matcher) {
            let mut text = "Redefined Symbol: ".to_owned();
            text.append(name);
            builder.fail(text);
        }
        builder
    }

    /// Adds a rule; one that is there is an error, and so is one over a symbol that has not
    /// been added.
    pub fn rule(self, head: &str, spec: &[&str]) -> (builder: Self)
        ensures
            builder@ == if missing(self@.symbols, seq![head@] + name_views(spec@)) is None
                && self@.rules.contains(rule_of(head@, spec@)) {
                self@.with_error("Redefined Rule: "@ + rule_of(head@, spec@).text())
            } else {
                self@.with_rule(rule_of(head@, spec@))
            },
    {
        let mut builder = self;
        let rule = make_rule(head, spec);
        let mut text = "Redefined Rule: ".to_owned();
        let name = rule.to_string();
        text.append(name.as_str());
        if builder.add_rule(rule) {
            builder.fail(text);
        }
        builder
    }

    /// Makes the grammar with the given start symbol, or reports the first error.
    pub fn into_grammar(self, start: &str) -> (res: Result<Grammar<P>, String>)
        ensures
            match self@.finished(start@) {
                Ok(model) => res matches Ok(grammar) && grammar@ == model,
                Err(text) => res matches Err(msg) && msg@ == text,
            },
            res matches Ok(grammar) ==> grammar@.rules.no_duplicates(),
    {
        proof {
            use_type_invariant(&self);
        }
        let start = start.to_owned();
        let known = self.has(&start);
        match self.error {
            Some(text) => Err(text),
            None => {
                if !known {
                    let mut text = "Missing Symbol: ".to_owned();
                    text.append(start.as_str());
                    return Err(text);
                }
                Ok(
                    Grammar {
                        start,
                        symbols: self.symbols,
                        rules: self.rules,
                        rule_priorities: self.rule_priorities,
                    },
                )
            },
        }
    }
}

} // verus!
