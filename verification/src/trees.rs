//! Semantic evaluation of the trees that a chart holds.

use core::marker::PhantomData;
use vstd::hash_map::StringHashMap;
use vstd::prelude::*;
use vstd::string::*;

use crate::choices;
use crate::choices::Choice;
use crate::climb;
use crate::derivation;
use crate::derivation::{Fault, Tree};
use crate::enumeration;
use crate::enumeration::{Outcome, Setup};
use crate::grammar;
use crate::grammar::Grammar;
use crate::laws;
use crate::spans::{Chart, ParseTrees, Source, SpanSource};
use crate::text;
use crate::walk;
use crate::walk::Frame;

verus! {

/// The number of spans a walk may visit for one tree, unless a forest says otherwise.
pub const MAX_EVAL_ONE_STEPS: usize = 100_000;

/// Turns charts into values: tokens are lifted by a terminal parser, and completed rules are
/// reduced by the action that is registered for them.
#[verifier::reject_recursive_types(ASTNode)]
#[verifier::reject_recursive_types(Lift)]
#[verifier::reject_recursive_types(Action)]
pub struct EarleyForest<ASTNode, Lift, Action> {
    // Semantic actions to apply when a production is completed, by the rule's canonical form.
    actions: StringHashMap<Action>,
    // How to lift a scanned terminal into an AST node.
    terminal_parser: Lift,
    // Per-tree cap on walk steps; `None` keeps the built-in one.
    max_steps_per_tree: Option<usize>,
    // Priorities by the rule's canonical form. Other rules have priority 0.
    priorities: StringHashMap<i32>,
    node: PhantomData<ASTNode>,
}

/// `chain` leads from `u` to `v`, each value a clone of the one before.
pub open spec fn clone_chain<N: Clone>(chain: Seq<N>, u: N, v: N) -> bool {
    &&& chain.len() > 0
    &&& chain[0] == u
    &&& chain.last() == v
    &&& forall|k: int| 0 < k < chain.len() ==> cloned(chain[k - 1], #[trigger] chain[k])
}

/// `v` came from `u` by cloning any number of times.
pub open spec fn copies<N: Clone>(u: N, v: N) -> bool {
    exists|chain: Seq<N>| #[trigger] clone_chain(chain, u, v)
}

/// `args` are the values `raw`, or clones of them where `copied`.
pub open spec fn passed<N: Clone>(raw: Seq<N>, args: Seq<N>, copied: bool) -> bool {
    &&& raw.len() == args.len()
    &&& forall|k: int|
        0 <= k < raw.len() ==> if copied {
            copies(#[trigger] raw[k], args[k])
        } else {
            raw[k] == args[k]
        }
}

impl<ASTNode: Clone, Lift: Fn(&str, &str) -> ASTNode, Action: Fn(Vec<ASTNode>) -> ASTNode> EarleyForest<
    ASTNode,
    Lift,
    Action,
> {
    /// The actions, by the rule's canonical form.
    pub closed spec fn action_map(self) -> Map<Seq<char>, Action> {
        self.actions@
    }

    /// The terminal parser.
    pub closed spec fn lift(self) -> Lift {
        self.terminal_parser
    }

    /// The priorities that were given, by the rule's canonical form.
    pub closed spec fn priority_map(self) -> Map<Seq<char>, i32> {
        self.priorities@
    }

    /// The number of spans a walk may visit for one tree.
    pub closed spec fn step_limit(self) -> nat {
        match self.max_steps_per_tree {
            Some(n) => n as nat,
            None => MAX_EVAL_ONE_STEPS as nat,
        }
    }

    /// The rules that have an action.
    pub open spec fn known(self) -> Set<Seq<char>> {
        self.action_map().dom()
    }

    /// `v` is a value that the terminal parser gives for `token` read as `symbol`.
    pub open spec fn lifts(self, symbol: Seq<char>, token: Seq<char>, v: ASTNode) -> bool {
        exists|a: &str, b: &str|
            a@ == symbol && b@ == token && #[trigger] call_ensures(self.lift(), (a, b), v)
    }

    /// `v` is a value that the terminal parser and the actions give for `tree`. Where
    /// `copied`, an action may have been handed clones of the values of the subtrees.
    pub open spec fn produces(self, tree: Tree, v: ASTNode, copied: bool) -> bool
        decreases tree,
    {
        match tree {
            Tree::Leaf { symbol, token } => self.lifts(symbol, token, v),
            Tree::Node { rule, children } => {
                &&& self.action_map().contains_key(rule.text())
                &&& exists|raw: Seq<ASTNode>, args: Vec<ASTNode>|
                    {
                        &&& #[trigger] passed(raw, args@, copied)
                        &&& raw.len() == children.len()
                        &&& forall|k: int|
                            #![trigger children[k]]
                            0 <= k < children.len() ==> self.produces(children[k], raw[k], copied)
                        &&& call_ensures(self.action_map()[rule.text()], (args,), v)
                    }
            },
        }
    }

    /// Values for each of `trees`.
    pub open spec fn produces_all(
        self,
        trees: Seq<Tree>,
        values: Seq<ASTNode>,
        copied: bool,
    ) -> bool {
        &&& trees.len() == values.len()
        &&& forall|k: int|
            #![trigger trees[k]]
            #![trigger values[k]]
            0 <= k < trees.len() ==> self.produces(trees[k], values[k], copied)
    }

    /// The terminal parser can be called for every token in the chart, and each action for
    /// every list of values that the trees of the chart give to its rule.
    pub open spec fn evaluable(self, chart: Chart, copied: bool) -> bool {
        &&& forall|i: int, k: int, a: &str, b: &str|
            #![trigger chart.items[i].sources[k], call_requires(self.lift(), (a, b))]
            0 <= i < chart.items.len() && 0 <= k < chart.items[i].sources.len() && (
            chart.items[i].sources[k] matches Source::Scan { from, token } && a@
                == chart.items[from].next_symbol() && b@ == token) ==> call_requires(
                self.lift(),
                (a, b),
            )
        &&& forall|i: int, trees: Seq<Tree>, raw: Seq<ASTNode>, args: Vec<ASTNode>|
            #![trigger derivation::derives(chart, i, trees), passed(raw, args@, copied)]
            {
                &&& 0 <= i < chart.items.len()
                &&& chart.items[i].complete()
                &&& derivation::derives(chart, i, trees)
                &&& self.action_map().contains_key(chart.items[i].rule.text())
                &&& self.produces_all(trees, raw, copied)
                &&& passed(raw, args@, copied)
            } ==> call_requires(self.action_map()[chart.items[i].rule.text()], (args,))
    }

    /// The message of a walk that gave up.
    pub open spec fn fault_text(self, fault: Fault) -> Seq<char> {
        match fault {
            Fault::OutOfSteps => "Bottomless grammar: eval_one exceeded max tree-walk steps "@
                + text::decimal(self.step_limit()),
            Fault::TooDeep { all } => "Bottomless grammar: "@ + (if all {
                "walker_all"@
            } else {
                "walker"@
            }) + " exceeded max recursion depth "@ + text::decimal(
                climb::MAX_WALKER_RECURSION as nat,
            ),
            Fault::MissingAction { rule } => "Missing Action: "@ + rule.text(),
        }
    }

    /// The outcome `res` is that of `found`: a value for the tree, or the message.
    pub open spec fn reports(self, found: Result<Tree, Fault>, res: Result<ASTNode, String>) -> bool {
        match found {
            Ok(tree) => res matches Ok(v) && self.produces(tree, v, false),
            Err(fault) => res matches Err(msg) && msg@ == self.fault_text(fault),
        }
    }

    /// What an enumeration of the trees of `chart` depends on.
    pub open spec fn setup(self, chart: Chart) -> Setup {
        Setup {
            chart,
            priorities: self.priority_map(),
            known: self.known(),
            limit: self.step_limit(),
        }
    }

    /// The tree of `root` under `choices`, and the spans met.
    pub open spec fn tree_under(
        self,
        chart: Chart,
        root: int,
        choices: Seq<Choice>,
    ) -> Result<(Tree, Seq<int>), Fault> {
        self.setup(chart).tree_under(root, choices)
    }

    /// What comes of the chart: the trees of the eligible roots, in the order in which they
    /// are enumerated, up to the first walk that gives up.
    pub open spec fn outcomes(self, chart: Chart) -> Seq<Outcome> {
        self.setup(chart).outcomes(choices::eligible_roots(chart, self.priority_map()))
    }
}

/// The first part of a result, if there is one.
pub open spec fn tree_of(found: Result<(Tree, Seq<int>), Fault>) -> Result<Tree, Fault> {
    match found {
        Ok(pair) => Ok(pair.0),
        Err(fault) => Err(fault),
    }
}

/// The choices that stand at the spans with back-pointers that a walk meets, in the order in
/// which it meets them: the span, the position among its eligible back-pointers, and these. A
/// span that is met more than once has a choice each time.
pub struct ForestIterator {
    source_idx: Vec<(usize, usize, Vec<usize>)>,
}

impl View for ForestIterator {
    type V = Seq<Choice>;

    closed spec fn view(&self) -> Seq<Choice> {
        self.source_idx@.map_values(
            |e: (usize, usize, Vec<usize>)|
                Choice { span: e.0 as int, pos: e.1 as int, eligible: choices::ints(e.2@) },
        )
    }
}

/// The priority of a back-pointer: that of the rule that was completed, or 0 for a token.
pub fn source_priority(
    ptrees: &ParseTrees,
    src: &SpanSource,
    priorities: &StringHashMap<i32>,
) -> (p: i32)
    requires
        ptrees.wf(),
        src@ matches Source::Completion { by, .. } ==> 0 <= by < ptrees@.items.len(),
    ensures
        p == choices::source_priority(ptrees@, priorities@, src@),
{
    match src {
        SpanSource::Completion(_, trigger) => rule_priority_of(ptrees, *trigger, priorities),
        SpanSource::Scan(_, _) => 0,
    }
}

/// The priority of the rule of span `i`.
fn rule_priority_of(ptrees: &ParseTrees, i: usize, priorities: &StringHashMap<i32>) -> (p: i32)
    requires
        ptrees.wf(),
        i < ptrees@.items.len(),
    ensures
        p == choices::rule_priority(priorities@, ptrees@.items[i as int].rule),
{
    let rule = ptrees.rule_text(i);
    match priorities.get(rule.as_str()) {
        Some(p) => *p,
        None => 0,
    }
}

/// The back-pointers of a span that no other one beats.
pub fn eligible_source_indices(
    ptrees: &ParseTrees,
    span: usize,
    priorities: &StringHashMap<i32>,
) -> (kept: Vec<usize>)
    requires
        ptrees.wf(),
        span < ptrees@.items.len(),
    ensures
        choices::ints(kept@) == choices::eligible(ptrees@, priorities@, span as int),
{
    let sources = &ptrees.spans[span].sources;
    if priorities.is_empty() {
        proof {
            assert(priorities@ =~= Map::<Seq<char>, i32>::empty());
            laws::law_no_priorities_no_filter(ptrees@, span as int);
        }
        return choices::all_positions(sources.len());
    }
    let mut scores: Vec<i32> = Vec::new();
    let mut k: usize = 0;
    while k < sources.len()
        invariant
            ptrees.wf(),
            span < ptrees@.items.len(),
            sources == ptrees.spans@[span as int].sources,
            k <= sources.len(),
            scores@ == choices::source_scores(ptrees@, priorities@, span as int).take(k as int),
        decreases sources.len() - k,
    {
        proof {
            let chart = ptrees@;
            assert(chart.item_ok(span as int));
            assert(chart.items[span as int].sources[k as int] == sources@[k as int]@);
            assert(chart.source_ok(span as int, chart.items[span as int].sources[k as int]));
        }
        let ghost before = scores@;
        scores.push(source_priority(ptrees, &sources[k], priorities));
        k = k + 1;
        proof {
            let all = choices::source_scores(ptrees@, priorities@, span as int);
            assert(all.take(k as int) =~= all.take(k - 1).push(all[k - 1]));
        }
    }
    proof {
        let all = choices::source_scores(ptrees@, priorities@, span as int);
        assert(all.take(k as int) =~= all);
    }
    choices::keep_best(&scores)
}

/// The roots that no other one beats.
pub fn eligible_roots(ptrees: &ParseTrees, priorities: &StringHashMap<i32>) -> (kept: Vec<usize>)
    requires
        ptrees.wf(),
    ensures
        choices::ints(kept@) == choices::eligible_roots(ptrees@, priorities@),
{
    if priorities.is_empty() {
        let kept = ptrees.roots.clone();
        proof {
            assert(priorities@ =~= Map::<Seq<char>, i32>::empty());
            laws::law_no_priorities_no_filter(ptrees@, 0);
            assert(choices::ints(kept@) =~= ptrees@.roots);
        }
        return kept;
    }
    let mut scores: Vec<i32> = Vec::new();
    let mut k: usize = 0;
    while k < ptrees.roots.len()
        invariant
            ptrees.wf(),
            k <= ptrees.roots.len(),
            scores@ == choices::root_scores(ptrees@, priorities@).take(k as int),
        decreases ptrees.roots.len() - k,
    {
        proof {
            assert(ptrees@.roots[k as int] == ptrees.roots@[k as int] as int);
        }
        scores.push(rule_priority_of(ptrees, ptrees.roots[k], priorities));
        k = k + 1;
        proof {
            let all = choices::root_scores(ptrees@, priorities@);
            assert(all.take(k as int) =~= all.take(k - 1).push(all[k - 1]));
        }
    }
    proof {
        let all = choices::root_scores(ptrees@, priorities@);
        assert(all.take(k as int) =~= all);
    }
    let best = choices::keep_best(&scores);
    let mut kept: Vec<usize> = Vec::new();
    let mut j: usize = 0;
    while j < best.len()
        invariant
            j <= best.len(),
            choices::ints(best@) == choices::best_positions(
                choices::root_scores(ptrees@, priorities@),
            ),
            choices::ints(kept@) == choices::eligible_roots(ptrees@, priorities@).take(j as int),
        decreases best.len() - j,
    {
        proof {
            choices::lemma_best_positions(choices::root_scores(ptrees@, priorities@));
            assert(choices::ints(best@)[j as int] == best@[j as int] as int);
        }
        let ghost before = kept@;
        kept.push(ptrees.roots[best[j]]);
        j = j + 1;
        proof {
            let all = choices::eligible_roots(ptrees@, priorities@);
            assert(all.take(j as int) =~= all.take(j - 1).push(all[j - 1]));
            assert(choices::ints(kept@) =~= choices::ints(before).push(
                kept@[before.len() as int] as int,
            ));
        }
    }
    proof {
        let all = choices::eligible_roots(ptrees@, priorities@);
        assert(choices::ints(best@).len() == best@.len());
        assert(all.take(j as int) =~= all);
    }
    kept
}

impl ForestIterator {
    /// No choice stands anywhere.
    pub fn new() -> (it: Self)
        ensures
            it@ == Seq::<Choice>::empty(),
    {
        let it = ForestIterator { source_idx: Vec::new() };
        proof {
            assert(it@ =~= Seq::<Choice>::empty());
        }
        it
    }

    /// The back-pointer to follow at `cursor`, where it is the `visit`-th span with back-pointers
    /// that is met. Where no choice stands there, the first eligible one is chosen.
    fn source_index(
        &mut self,
        ptrees: &ParseTrees,
        visit: usize,
        cursor: usize,
        priorities: &StringHashMap<i32>,
    ) -> (k: usize)
        requires
            ptrees.wf(),
            choices::choices_ok(ptrees@, priorities@, old(self)@),
            visit <= old(self)@.len(),
            cursor < ptrees@.items.len(),
            ptrees@.items[cursor as int].sources.len() > 0,
        ensures
            k == choices::chosen(
                ptrees@,
                priorities@,
                old(self)@,
                visit as int,
                cursor as int,
            ).source(),
            choices::choices_ok(ptrees@, priorities@, final(self)@),
            final(self)@ == noted(ptrees@, priorities@, old(self)@, visit as int, cursor as int),
    {
        let ghost st = self@;
        let ghost fresh = choices::first_choice(ptrees@, priorities@, cursor as int);
        proof {
            assert(st.len() == self.source_idx@.len());
            choices::lemma_first_choice(ptrees@, priorities@, cursor as int);
        }
        if visit < self.source_idx.len() {
            let entry = &self.source_idx[visit];
            proof {
                assert(st[visit as int] == (Choice {
                    span: entry.0 as int,
                    pos: entry.1 as int,
                    eligible: choices::ints(entry.2@),
                }));
                assert(choices::choice_ok(ptrees@, priorities@, st[visit as int]));
            }
            if entry.0 == cursor {
                proof {
                    assert(choices::ints(entry.2@)[entry.1 as int] == entry.2@[entry.1 as int]);
                }
                return entry.2[entry.1];
            }
        }
        let eligible = eligible_source_indices(ptrees, cursor, priorities);
        proof {
            assert(choices::ints(eligible@).len() == eligible@.len());
            assert(choices::ints(eligible@)[0] == eligible@[0] as int);
        }
        let first = eligible[0];
        if visit < self.source_idx.len() {
            self.source_idx.set(visit, (cursor, 0, eligible));
            proof {
                assert(self@ =~= st.update(visit as int, fresh));
            }
        } else {
            self.source_idx.push((cursor, 0, eligible));
            proof {
                assert(self@ =~= st.push(fresh));
            }
        }
        first
    }

    /// Drops all but the first `n` choices.
    fn keep_first(&mut self, n: usize)
        requires
            n <= old(self)@.len(),
        ensures
            final(self)@ == old(self)@.take(n as int),
    {
        let ghost st = self@;
        self.source_idx.truncate(n);
        proof {
            assert(self@ =~= st.take(n as int));
        }
    }

    /// Moves on to the next choices, if there are any.
    fn advance(&mut self) -> (more: bool)
        ensures
            more <==> choices::advanced(old(self)@) is Some,
            more ==> choices::advanced(old(self)@) == Some(final(self)@),
            !more ==> final(self)@ == Seq::<Choice>::empty(),
    {
        let ghost st = self@;
        while self.source_idx.len() > 0
            invariant
                choices::advanced(self@) == choices::advanced(st),
                old(self)@ == st,
            decreases self.source_idx.len(),
        {
            let ghost before = self@;
            match self.source_idx.pop() {
                None => {
                    return false;
                },
                Some(entry) => {
                    let (span, pos, eligible) = entry;
                    proof {
                        assert(before.last() == (Choice {
                            span: span as int,
                            pos: pos as int,
                            eligible: choices::ints(eligible@),
                        }));
                        assert(self@ =~= before.drop_last());
                        assert(choices::ints(eligible@).len() == eligible@.len());
                    }
                    if pos < eligible.len() && eligible.len() - pos > 1 {
                        self.source_idx.push((span, pos + 1, eligible));
                        proof {
                            assert(self@ =~= before.drop_last().push(
                                Choice { pos: pos + 1, ..before.last() },
                            ));
                        }
                        return true;
                    }
                },
            }
        }
        proof {
            assert(self@ =~= Seq::<Choice>::empty());
        }
        false
    }
}

/// The frames of a walk in progress: the last one is sound, and each of the others waits for
/// the tree of the one above it.
spec fn stack_ok(chart: Chart, frames: Seq<Frame>) -> bool {
    &&& frames.len() > 0
    &&& walk::frame_ok(chart, frames.last())
    &&& forall|k: int|
        0 <= k < frames.len() - 1 ==> {
            &&& 0 <= (#[trigger] frames[k]).item < chart.items.len()
            &&& !chart.items[frames[k].item].complete()
            &&& walk::waits(chart, frames[k], frames[k + 1].goal)
        }
}

/// `spans` and `completions` are the stacks that stand for `frames`: where the last frame is
/// fresh, its span has not been recorded as completed yet.
spec fn stacks_match(
    chart: Chart,
    frames: Seq<Frame>,
    spans: Seq<usize>,
    completions: Seq<usize>,
) -> bool {
    &&& spans.len() == frames.len()
    &&& forall|k: int| 0 <= k < frames.len() ==> spans[k] == (#[trigger] frames[k]).item
    &&& completions.len() == if chart.items[frames.last().item].complete() {
        frames.len() - 1
    } else {
        frames.len() as int
    }
    &&& forall|k: int|
        0 <= k < completions.len() ==> completions[k] == (#[trigger] frames[k]).goal
    &&& chart.items[frames.last().item].complete() ==> frames.last().goal == frames.last().item
}

/// Whether `span` is one of `list`.
fn recorded(list: &Vec<usize>, span: usize) -> (found: bool)
    ensures
        found == choices::ints(list@).contains(span as int),
{
    let mut k: usize = 0;
    while k < list.len()
        invariant
            k <= list.len(),
            forall|j: int| 0 <= j < k ==> list@[j] != span,
        decreases list.len() - k,
    {
        if list[k] == span {
            proof {
                assert(choices::ints(list@)[k as int] == span as int);
            }
            return true;
        }
        k = k + 1;
    }
    proof {
        let all = choices::ints(list@);
        if all.contains(span as int) {
            let j = all.index_of(span as int);
            assert(all[j] == list@[j] as int);
        }
    }
    false
}

/// `choices` with a first choice at span `i` in the `t`-th place, unless one stands there for
/// that span.
spec fn noted(
    chart: Chart,
    priorities: Map<Seq<char>, i32>,
    choices: Seq<Choice>,
    t: int,
    i: int,
) -> Seq<Choice> {
    let c = choices::chosen(chart, priorities, choices, t, i);
    if t < choices.len() {
        choices.update(t, c)
    } else {
        choices.push(c)
    }
}

/// The choices in the midst of a walk: those made at the spans met, and behind them those that
/// stood there before.
spec fn midway(
    chart: Chart,
    priorities: Map<Seq<char>, i32>,
    choices: Seq<Choice>,
    met: Seq<int>,
) -> Seq<Choice> {
    choices::extended(chart, priorities, choices, met) + choices.skip(
        if met.len() < choices.len() {
            met.len() as int
        } else {
            choices.len() as int
        },
    )
}

/// One more span is met.
proof fn lemma_midway(
    chart: Chart,
    priorities: Map<Seq<char>, i32>,
    choices: Seq<Choice>,
    met: Seq<int>,
    i: int,
)
    ensures
        ({
            let now = midway(chart, priorities, choices, met);
            let t = met.len() as int;
            &&& t <= now.len()
            &&& choices::chosen(chart, priorities, now, t, i) == choices::chosen(
                chart,
                priorities,
                choices,
                t,
                i,
            )
            &&& midway(chart, priorities, choices, met.push(i)) == noted(
                chart,
                priorities,
                now,
                t,
                i,
            )
        }),
{
    let now = midway(chart, priorities, choices, met);
    let t = met.len() as int;
    let next = midway(chart, priorities, choices, met.push(i));
    if t < choices.len() {
        assert(now[t] == choices[t]);
    }
    let other = noted(chart, priorities, now, t, i);
    assert(next.len() == other.len());
    assert forall|k: int| 0 <= k < next.len() implies next[k] == other[k] by {
        if k < t {
            assert(met.push(i)[k] == met[k]);
        }
    }
    assert(next =~= other);
}

impl<ASTNode: Clone, Lift: Fn(&str, &str) -> ASTNode, Action: Fn(Vec<ASTNode>) -> ASTNode> EarleyForest<
    ASTNode,
    Lift,
    Action,
> {
    /// The message of a walk that ran out of steps.
    fn out_of_steps(&self, limit: usize) -> (msg: String)
        requires
            limit == self.step_limit(),
        ensures
            msg@ == self.fault_text(Fault::OutOfSteps),
    {
        let mut msg = "Bottomless grammar: eval_one exceeded max tree-walk steps ".to_owned();
        let digits = text::to_decimal(limit as u64);
        msg.append(digits.as_str());
        msg
    }

    /// The message of a walk that completed a rule without an action.
    fn missing_action(rulename: &String) -> (msg: String)
        ensures
            msg@ == "Missing Action: "@ + rulename@,
    {
        let mut msg = "Missing Action: ".to_owned();
        msg.append(rulename.as_str());
        msg
    }

    /// The last `n` of `args`, the very last one first.
    fn take_reversed(args: &mut Vec<ASTNode>, n: usize) -> (taken: Vec<ASTNode>)
        requires
            n <= old(args)@.len(),
        ensures
            final(args)@ == old(args)@.take(old(args)@.len() - n),
            taken@ == old(args)@.skip(old(args)@.len() - n).reverse(),
    {
        let ghost all = args@;
        let mut taken: Vec<ASTNode> = Vec::new();
        let mut j: usize = 0;
        while j < n
            invariant
                j <= n <= all.len(),
                args@ == all.take(all.len() - j),
                taken@ == all.skip(all.len() - j).reverse(),
            decreases n - j,
        {
            if let Some(v) = args.pop() {
                taken.push(v);
            }
            j = j + 1;
            proof {
                assert(args@ =~= all.take(all.len() - j));
                assert(taken@ =~= all.skip(all.len() - j).reverse());
            }
        }
        taken
    }

    /// Walks the tree of `root` under the choices in `state`, and evaluates it. Where no
    /// choice stands for a span that is met, the first eligible back-pointer is chosen. A complete
    /// span that is met again while it is being unwound would have no end, and is an error.
    fn eval_one(
        &self,
        ptrees: &ParseTrees,
        root: usize,
        state: &mut ForestIterator,
    ) -> (res: Result<ASTNode, String>)
        requires
            ptrees.wf(),
            self.evaluable(ptrees@, false),
            root < ptrees@.items.len(),
            ptrees@.items[root as int].complete(),
            choices::choices_ok(ptrees@, self.priority_map(), old(state)@),
        ensures
            self.reports(tree_of(self.tree_under(ptrees@, root as int, old(state)@)), res),
            choices::choices_ok(ptrees@, self.priority_map(), final(state)@),
            self.tree_under(ptrees@, root as int, old(state)@) matches Ok(found) ==> {
                final(state)@ == choices::extended(
                    ptrees@,
                    self.priority_map(),
                    old(state)@,
                    found.1,
                )
            },
    {
        let ghost chart = ptrees@;
        let ghost prios = self.priority_map();
        let ghost known = self.known();
        let ghost st0 = state@;
        let ghost pick = choices::picker(chart, prios, st0);
        let ghost found = self.tree_under(chart, root as int, st0);
        // The spans with back-pointers that have been met.
        let ghost mut met: Seq<int> = Seq::empty();
        let mut visits: usize = 0;
        let limit: usize = match self.max_steps_per_tree {
            Some(n) => n,
            None => MAX_EVAL_ONE_STEPS,
        };
        let mut args: Vec<ASTNode> = Vec::new();
        let mut completions: Vec<usize> = Vec::new();
        let mut spans: Vec<usize> = Vec::new();
        spans.push(root);
        let mut steps: usize = 0;
        let ghost mut frames: Seq<Frame> = seq![walk::fresh_frame(root as int)];
        let ghost mut tree: Tree = arbitrary();
        proof {
            choices::lemma_picker_in_range(chart, prios, st0);
            walk::lemma_fresh_frame(chart, root as int);
            assert(walk::waiting(frames.drop_last()) =~= Seq::<Tree>::empty());
            assert(walk::waiting(frames) =~= Seq::<Tree>::empty());
            if let Ok(u) = derivation::unfold(
                chart,
                pick,
                known,
                root as int,
                limit as nat,
                met,
                Seq::empty(),
            ) {
                assert(u.trees + frames.last().done.reverse() =~= u.trees);
            }
            assert(walk::way_of(chart, frames) =~= Seq::<int>::empty());
            assert(midway(chart, prios, st0, met) =~= st0);
        }
        while spans.len() > 0
            invariant
                chart == ptrees@,
                prios == self.priority_map(),
                known == self.known(),
                ptrees.wf(),
                self.evaluable(chart, false),
                limit == self.step_limit(),
                pick == choices::picker(chart, prios, st0),
                derivation::picks_in_range(chart, pick),
                old(state)@ == st0,
                found == self.tree_under(chart, root as int, st0),
                found == derivation::grow(
                    chart,
                    pick,
                    known,
                    root as int,
                    limit as nat,
                ),
                choices::choices_ok(chart, prios, st0),
                choices::choices_ok(chart, prios, state@),
                state@ == midway(chart, prios, st0, met),
                visits == met.len(),
                visits <= steps,
                steps <= limit,
                spans@.len() == frames.len(),
                frames.len() > 0 ==> stack_ok(chart, frames),
                frames.len() > 0 ==> stacks_match(chart, frames, spans@, completions@),
                frames.len() > 0 ==> self.produces_all(walk::waiting(frames), args@, false),
                frames.len() > 0 ==> found == walk::resume(
                    chart,
                    pick,
                    known,
                    frames,
                    (limit - steps) as nat,
                    met,
                ),
                frames.len() == 0 ==> {
                    &&& args@.len() == 1
                    &&& self.produces(tree, args@[0], false)
                    &&& found == Ok::<(Tree, Seq<int>), Fault>(
                        (tree, met),
                    )
                },
            decreases limit - steps,
        {
            let ghost top = frames.last();
            let ghost fuel = (limit - steps) as nat;
            let ghost before = met;
            if steps >= limit {
                return Err(self.out_of_steps(limit));
            }
            steps = steps + 1;
            let cursor = spans[spans.len() - 1];
            spans.pop();
            proof {
                assert(cursor == top.item);
                assert(chart.item_ok(cursor as int));
            }
            proof {
                assert(choices::ints(completions@) =~= walk::way_of(chart, frames));
            }
            // As the chart is unwound keep a record of semantic actions to apply. A span that is
            // recorded already would come back to itself without end.
            if ptrees.complete(cursor) {
                if recorded(&completions, cursor) {
                    return Err(self.out_of_steps(limit));
                }
                completions.push(cursor);
            }
            proof {
                assert(completions@.len() == frames.len());
                assert(completions@.last() == top.goal);
            }
            let sources = &ptrees.spans[cursor].sources;
            if sources.len() == 0 {
                // Unwound to the beginning of a rule. Apply the rule reducing args.
                let completed: usize = match completions.pop() {
                    Some(span) => span,
                    None => cursor,
                };
                let num_rule_slots = ptrees.rules[ptrees.spans[completed].rule].spec.len();
                let ghost all_args = args@;
                let ghost children = top.done.reverse();
                let ghost below = walk::waiting(frames.drop_last());
                let ghost rule = chart.items[top.goal].rule;
                proof {
                    assert(walk::waiting(frames) == below + top.done);
                    assert(derivation::derives(chart, top.item, Seq::<Tree>::empty()));
                    assert(Seq::<Tree>::empty() + children =~= children);
                    assert(derivation::derives(chart, top.goal, children));
                }
                let rule_args = Self::take_reversed(&mut args, num_rule_slots);
                proof {
                    assert(args@.len() == below.len());
                    assert forall|k: int| 0 <= k < below.len() implies self.produces(
                        #[trigger] below[k],
                        args@[k],
                        false,
                    ) by {
                        assert(walk::waiting(frames)[k] == below[k]);
                    }
                    assert forall|k: int| 0 <= k < children.len() implies self.produces(
                        #[trigger] children[k],
                        rule_args@[k],
                        false,
                    ) by {
                        let m = below.len() + (top.done.len() - 1 - k);
                        assert(walk::waiting(frames)[m] == children[k]);
                        assert(all_args[m] == rule_args@[k]);
                    }
                    assert(self.produces_all(children, rule_args@, false));
                    assert(passed(rule_args@, rule_args@, false));
                }
                // Apply the reduction.
                let rulename = ptrees.rule_text(completed);
                match self.actions.get(rulename.as_str()) {
                    None => {
                        return Err(Self::missing_action(&rulename));
                    },
                    Some(action) => {
                        proof {
                            assert(*action == self.action_map()[rule.text()]);
                            assert(call_requires(*action, (rule_args,)));
                        }
                        let ghost raw = rule_args@;
                        let ghost given = rule_args;
                        let node = action(rule_args);
                        args.push(node);
                        proof {
                            let value_tree = Tree::Node { rule, children };
                            assert(passed(raw, given@, false));
                            assert(self.produces(value_tree, node, false));
                            if frames.len() == 1 {
                                tree = value_tree;
                                assert(walk::waiting(frames.drop_last()) =~= Seq::<Tree>::empty());
                                frames = Seq::empty();
                            } else {
                                let rest = frames.drop_last();
                                let next = walk::deliver(rest, value_tree);
                                assert(walk::waits(chart, frames[frames.len() - 2], top.goal));
                                assert(next.last() == (Frame {
                                    done: rest.last().done.push(value_tree),
                                    ..rest.last()
                                }));
                                assert(walk::frame_ok(chart, next.last()));
                                assert(next.drop_last() =~= rest.drop_last());
                                assert(walk::waiting(next) =~= walk::waiting(rest).push(
                                    value_tree,
                                ));
                                assert forall|k: int| 0 <= k < next.len() - 1 implies {
                                    &&& 0 <= (#[trigger] next[k]).item < chart.items.len()
                                    &&& !chart.items[next[k].item].complete()
                                    &&& walk::waits(chart, next[k], next[k + 1].goal)
                                } by {
                                    assert(next[k] == frames[k]);
                                    assert(next[k + 1].goal == frames[k + 1].goal);
                                }
                                assert(next.last().item == frames[frames.len() - 2].item);
                                frames = next;
                            }
                        }
                    },
                }
            } else {
                proof {
                    lemma_midway(chart, prios, st0, met, cursor as int);
                }
                let k = state.source_index(ptrees, visits, cursor, &self.priorities);
                visits = visits + 1;
                proof {
                    assert(k == pick(met.len() as int, cursor as int));
                    met = met.push(cursor as int);
                    assert(chart.source_ok(cursor as int, chart.items[cursor as int].sources[k as int]));
                    assert(chart.items[cursor as int].sources[k as int] == sources@[k as int]@);
                }
                // Walk the chart following span sources (back-pointers) of the tree.
                match &sources[k] {
                    SpanSource::Completion(source, trigger) => {
                        spans.push(*source);
                        spans.push(*trigger);
                        proof {
                            walk::lemma_step_completion(
                                chart,
                                pick,
                                known,
                                frames,
                                fuel,
                                before,
                                *source as int,
                                *trigger as int,
                            );
                            walk::lemma_waits(chart, top, k as int, *source as int, *trigger as int);
                            let below = Frame { item: *source as int, ..top };
                            let mid_frames = frames.drop_last().push(below);
                            let next = mid_frames.push(walk::fresh_frame(*trigger as int));
                            assert(next.drop_last() =~= mid_frames);
                            assert(mid_frames.drop_last() =~= frames.drop_last());
                            assert(walk::waiting(mid_frames) =~= walk::waiting(frames));
                            assert(walk::waiting(next) =~= walk::waiting(frames));
                            assert forall|j: int| 0 <= j < next.len() - 1 implies {
                                &&& 0 <= (#[trigger] next[j]).item < chart.items.len()
                                &&& !chart.items[next[j].item].complete()
                                &&& walk::waits(chart, next[j], next[j + 1].goal)
                            } by {
                                if j < frames.len() - 1 {
                                    assert(next[j] == frames[j]);
                                    assert(next[j + 1].goal == frames[j + 1].goal);
                                }
                            }
                            frames = next;
                        }
                    },
                    SpanSource::Scan(source, token) => {
                        proof {
                            walk::lemma_step_scan(
                                chart,
                                pick,
                                known,
                                frames,
                                fuel,
                                before,
                                *source as int,
                                token@,
                            );
                        }
                        let node = self.lift_token(ptrees, cursor, k, *source, token);
                        args.push(node);
                        spans.push(*source);
                        proof {
                            let leaf = Tree::Leaf {
                                symbol: chart.items[*source as int].next_symbol(),
                                token: token@,
                            };
                            assert(self.produces(leaf, node, false));
                            let last = Frame {
                                item: *source as int,
                                goal: top.goal,
                                done: top.done.push(leaf),
                            };
                            let next = frames.drop_last().push(last);
                            assert(next.drop_last() =~= frames.drop_last());
                            assert(walk::waiting(next) =~= walk::waiting(frames).push(leaf));
                            assert forall|j: int| 0 <= j < next.len() - 1 implies {
                                &&& 0 <= (#[trigger] next[j]).item < chart.items.len()
                                &&& !chart.items[next[j].item].complete()
                                &&& walk::waits(chart, next[j], next[j + 1].goal)
                            } by {
                                assert(next[j] == frames[j]);
                                assert(next[j + 1].goal == frames[j + 1].goal);
                            }
                            frames = next;
                        }
                    },
                }
            }
        }
        state.keep_first(visits);
        proof {
            assert(state@ =~= choices::extended(chart, prios, st0, met));
        }
        let value = args.swap_remove(0);
        Ok(value)
    }
}

/// Enumerates the values of a chart's trees one at a time, so that callers need not hold the
/// whole forest. After an error it yields nothing more.
#[verifier::reject_recursive_types(ASTNode)]
#[verifier::reject_recursive_types(Lift)]
#[verifier::reject_recursive_types(Action)]
pub struct EarleyForestIter<'f, ASTNode, Lift, Action> {
    forest: &'f EarleyForest<ASTNode, Lift, Action>,
    ptrees: &'f ParseTrees,
    // The eligible roots, and how many of them have been begun.
    roots: Vec<usize>,
    begun: usize,
    // The root in progress, and the choices of its last tree.
    state: Option<(usize, ForestIterator)>,
    done: bool,
}

impl<
    'f,
    ASTNode: Clone,
    Lift: Fn(&str, &str) -> ASTNode,
    Action: Fn(Vec<ASTNode>) -> ASTNode,
> EarleyForestIter<'f, ASTNode, Lift, Action> {
    /// The forest that the values come from.
    pub closed spec fn source(self) -> EarleyForest<ASTNode, Lift, Action> {
        *self.forest
    }

    /// The outcomes that are still to come.
    pub closed spec fn pending(self) -> Seq<Outcome> {
        let setup = self.forest.setup(self.ptrees@);
        let later = setup.outcomes(choices::ints(self.roots@).skip(self.begun as int));
        if self.done {
            Seq::empty()
        } else {
            match self.state {
                None => later,
                Some(current) => enumeration::followed_by(
                    match choices::advanced(current.1@) {
                        Some(next) => setup.outcomes_from(current.0 as int, next),
                        None => Seq::empty(),
                    },
                    later,
                ),
            }
        }
    }

    /// The iterator is in a state that it can be in.
    pub closed spec fn wf(self) -> bool {
        let setup = self.forest.setup(self.ptrees@);
        &&& self.ptrees.wf()
        &&& self.forest.evaluable(self.ptrees@, false)
        &&& self.begun <= self.roots@.len()
        &&& forall|k: int| 0 <= k < self.roots@.len() ==> setup.ready(#[trigger] self.roots@[k] as int)
        &&& self.state matches Some(current) ==> {
            &&& setup.ready(current.0 as int)
            &&& setup.choices_ok(current.1@)
            &&& choices::advanced(current.1@) matches Some(next) ==> setup.choices_ok(next)
                && setup.in_order(current.0 as int, next)
        }
    }

    /// The next value, or the error that ends the enumeration.
    pub fn next(&mut self) -> (item: Option<Result<ASTNode, String>>)
        requires
            old(self).wf(),
        ensures
            final(self).wf(),
            final(self).source() == old(self).source(),
            item is None <==> old(self).pending().len() == 0,
            item matches Some(res) ==> {
                &&& old(self).source().reports(old(self).pending()[0], res)
                &&& final(self).pending() == old(self).pending().drop_first()
            },
            item is None ==> final(self).pending().len() == 0,
            item matches Some(Err(_)) ==> final(self).pending().len() == 0,
    {
        if self.done {
            return None;
        }
        let ghost setup = self.forest.setup(self.ptrees@);
        let ghost all = self.pending();
        loop
            invariant
                self.wf(),
                !self.done,
                self.forest == old(self).forest,
                self.ptrees == old(self).ptrees,
                setup == self.forest.setup(self.ptrees@),
                all == old(self).pending(),
                self.pending() == all,
            decreases
                    2 * (self.roots.len() - self.begun) + if self.state is Some {
                        1int
                    } else {
                        0int
                    },
        {
            let ghost mut later = setup.outcomes(choices::ints(self.roots@).skip(self.begun as int));
            let ghost mut upcoming: Seq<Outcome> = Seq::empty();
            let mut state = ForestIterator::new();
            let root: usize;
            match self.state.take() {
                Some(current) => {
                    root = current.0;
                    state = current.1;
                    proof {
                        choices::lemma_advanced_ok(setup.chart, setup.priorities, state@);
                    }
                    if !state.advance() {
                        // This root is exhausted; try the next one.
                        proof {
                            assert(Seq::<Outcome>::empty() + later =~= later);
                            assert(self.pending() == all);
                        }
                        continue;
                    }
                    proof {
                        upcoming = setup.outcomes_from(root as int, state@);
                        assert(all == enumeration::followed_by(upcoming, later));
                    }
                },
                None => {
                    if self.begun >= self.roots.len() {
                        self.done = true;
                        proof {
                            assert(later =~= Seq::<Outcome>::empty());
                        }
                        return None;
                    }
                    root = self.roots[self.begun];
                    proof {
                        let list = choices::ints(self.roots@).skip(self.begun as int);
                        assert(list[0] == root as int);
                        assert(list.drop_first() =~= choices::ints(self.roots@).skip(
                            self.begun + 1,
                        ));
                        upcoming = setup.outcomes_from(root as int, Seq::empty());
                        later = setup.outcomes(list.drop_first());
                        assert(all == enumeration::followed_by(upcoming, later));
                    }
                    self.begun = self.begun + 1;
                },
            }
            proof {
                assert(later == setup.outcomes(choices::ints(self.roots@).skip(self.begun as int)));
                setup.lemma_tree_under(root as int, state@);
                setup.lemma_progress(root as int, state@);
            }
            let ghost before = state@;
            let result = self.forest.eval_one(self.ptrees, root, &mut state);
            let ghost after = state@;
            proof {
                assert(upcoming == setup.outcomes_from(root as int, before));
            }
            match result {
                Err(e) => {
                    self.done = true;
                    proof {
                        let found = setup.tree_under(root as int, before);
                        assert(found is Err);
                        assert(upcoming.len() == 1);
                        assert(all =~= upcoming);
                        assert(self.pending() =~= all.drop_first());
                    }
                    return Some(Err(e));
                },
                Ok(v) => {
                    self.state = Some((root, state));
                    proof {
                        let found = setup.tree_under(root as int, before);
                        assert(found is Ok);
                        let rest = match choices::advanced(after) {
                            Some(next) => setup.outcomes_from(root as int, next),
                            None => Seq::empty(),
                        };
                        assert(upcoming =~= seq![Ok::<Tree, Fault>(found->Ok_0.0)] + rest);
                        enumeration::lemma_followed_by(found->Ok_0.0, rest, later);
                        assert(all[0] == Ok::<Tree, Fault>(found->Ok_0.0));
                        assert(self.pending() == enumeration::followed_by(rest, later));
                    }
                    return Some(Ok(v));
                },
            }
        }
    }
}

impl<ASTNode: Clone, Lift: Fn(&str, &str) -> ASTNode, Action: Fn(Vec<ASTNode>) -> ASTNode> EarleyForest<
    ASTNode,
    Lift,
    Action,
> {
    /// Applies the action of a complete span's rule; the arguments pass through unless the
    /// span is complete.
    pub(crate) fn reduce(&self, ptrees: &ParseTrees, root: usize, args: Vec<ASTNode>) -> (res: Result<
        Vec<ASTNode>,
        String,
    >)
        requires
            ptrees.wf(),
            root < ptrees@.items.len(),
            ptrees@.items[root as int].complete() && self.action_map().contains_key(
                ptrees@.items[root as int].rule.text(),
            ) ==> call_requires(
                self.action_map()[ptrees@.items[root as int].rule.text()],
                (args,),
            ),
        ensures
            !ptrees@.items[root as int].complete() ==> (res matches Ok(out) && out == args),
            ptrees@.items[root as int].complete() && self.action_map().contains_key(
                ptrees@.items[root as int].rule.text(),
            ) ==> (res matches Ok(out) && out@.len() == 1 && call_ensures(
                self.action_map()[ptrees@.items[root as int].rule.text()],
                (args,),
                out@[0],
            )),
            ptrees@.items[root as int].complete() && !self.action_map().contains_key(
                ptrees@.items[root as int].rule.text(),
            ) ==> (res matches Err(msg) && msg@ == self.fault_text(
                Fault::MissingAction { rule: ptrees@.items[root as int].rule },
            )),
    {
        // If span is not complete, reduce is a noop passthrough
        if !ptrees.complete(root) {
            return Ok(args);
        }
        // Lookup semantic action to apply based on rule name
        let rulename = ptrees.rule_text(root);
        match self.actions.get(rulename.as_str()) {
            None => Err(Self::missing_action(&rulename)),
            Some(action) => {
                let node = action(args);
                let mut out: Vec<ASTNode> = Vec::new();
                out.push(node);
                Ok(out)
            },
        }
    }

    /// Lifts the token that was read behind span `from`.
    pub(crate) fn lift_token(
        &self,
        ptrees: &ParseTrees,
        root: usize,
        k: usize,
        from: usize,
        token: &String,
    ) -> (node: ASTNode)
        requires
            ptrees.wf(),
            root < ptrees@.items.len(),
            k < ptrees@.items[root as int].sources.len(),
            ptrees@.items[root as int].sources[k as int] == (Source::Scan {
                from: from as int,
                token: token@,
            }),
            self.evaluable(ptrees@, false) || self.evaluable(ptrees@, true),
        ensures
            self.lifts(ptrees@.items[from as int].next_symbol(), token@, node),
    {
        proof {
            let chart = ptrees@;
            assert(chart.item_ok(root as int));
            assert(chart.source_ok(root as int, chart.items[root as int].sources[k as int]));
        }
        let symbol: &String = match ptrees.next_symbol(from) {
            Some(symbol) => symbol,
            None => token,
        };
        let a = symbol.as_str();
        let b = token.as_str();
        proof {
            assert(call_requires(self.lift(), (a, b)));
        }
        (self.terminal_parser)(a, b)
    }
}

impl<ASTNode: Clone, Lift: Fn(&str, &str) -> ASTNode, Action: Fn(Vec<ASTNode>) -> ASTNode> EarleyForest<
    ASTNode,
    Lift,
    Action,
> {
    /// `res` is what comes of collecting `list`: a value for each tree, or the message of the
    /// walk that gave up.
    pub open spec fn collects(self, list: Seq<Outcome>, res: Result<Vec<ASTNode>, String>) -> bool {
        if enumeration::cut_short(list) {
            res matches Err(msg) && msg@ == self.fault_text(list.last()->Err_0)
        } else {
            &&& res matches Ok(values) && values@.len() == list.len() && forall|k: int|
                #![trigger list[k]]
                #![trigger values@[k]]
                0 <= k < list.len() ==> (list[k] matches Ok(tree) && self.produces(
                    tree,
                    values@[k],
                    false,
                ))
        }
    }

    /// A forest without actions or priorities.
    pub fn new(terminal_parser: Lift) -> (forest: Self)
        ensures
            forest.lift() == terminal_parser,
            forest.action_map() == Map::<Seq<char>, Action>::empty(),
            forest.priority_map() == Map::<Seq<char>, i32>::empty(),
            forest.step_limit() == 100_000,
    {
        EarleyForest {
            actions: StringHashMap::new(),
            terminal_parser,
            max_steps_per_tree: None,
            priorities: StringHashMap::new(),
            node: PhantomData,
        }
    }

    /// Registers the action to take when `rule` is matched. The rule is named by its canonical
    /// form.
    pub fn action(&mut self, rule: &str, action: Action)
        ensures
            final(self).action_map() == old(self).action_map().insert(rule@, action),
            final(self).lift() == old(self).lift(),
            final(self).priority_map() == old(self).priority_map(),
            final(self).step_limit() == old(self).step_limit(),
    {
        self.actions.insert(rule.to_owned(), action);
    }

    /// Caps the number of spans a walk may visit for one tree. Where it is exceeded,
    /// evaluation ends with an error.
    pub fn max_steps_per_tree(&mut self, max: usize) -> (ret: &mut Self)
        ensures
            ret.step_limit() == max,
            ret.lift() == old(self).lift(),
            ret.action_map() == old(self).action_map(),
            ret.priority_map() == old(self).priority_map(),
            *final(self) == *final(ret),
    {
        self.max_steps_per_tree = Some(max);
        self
    }

    /// Gives `rule` a priority. The rule is named by its canonical form. Where parses of the
    /// same constituent compete, only those of the highest priority are enumerated; other
    /// rules have priority 0.
    pub fn rule_priority(&mut self, rule: &str, priority: i32) -> (ret: &mut Self)
        ensures
            ret.priority_map() == old(self).priority_map().insert(rule@, priority),
            ret.lift() == old(self).lift(),
            ret.action_map() == old(self).action_map(),
            ret.step_limit() == old(self).step_limit(),
            *final(self) == *final(ret),
    {
        self.priorities.insert(rule.to_owned(), priority);
        self
    }

    /// Takes over the priorities that are attached to the grammar. Where a rule has one here
    /// already, the grammar's replaces it.
    pub fn with_priorities_from<P>(&mut self, grammar: &Grammar<P>) -> (ret: &mut Self)
        ensures
            ret.priority_map() == old(self).priority_map().union_prefer_right(grammar@.priorities),
            ret.lift() == old(self).lift(),
            ret.action_map() == old(self).action_map(),
            ret.step_limit() == old(self).step_limit(),
            *final(self) == *final(ret),
    {
        let ghost list = grammar::priority_views(grammar.rule_priorities@);
        let ghost before = self.priorities@;
        let mut k: usize = 0;
        proof {
            assert(list.take(0) =~= Seq::empty());
            assert(before.union_prefer_right(Map::empty()) =~= before);
        }
        while k < grammar.rule_priorities.len()
            invariant
                list == grammar::priority_views(grammar.rule_priorities@),
                before == old(self).priorities@,
                k <= list.len(),
                self.priorities@ == before.union_prefer_right(grammar::assigned(list.take(k as int))),
                self.terminal_parser == old(self).terminal_parser,
                self.actions == old(self).actions,
                self.max_steps_per_tree == old(self).max_steps_per_tree,
            decreases grammar.rule_priorities.len() - k,
        {
            let (rule, prio) = &grammar.rule_priorities[k];
            self.priorities.insert(rule.clone(), *prio);
            k = k + 1;
            proof {
                let now = list.take(k as int);
                assert(now.drop_last() =~= list.take(k - 1));
                assert(self.priorities@ =~= before.union_prefer_right(grammar::assigned(now)));
            }
        }
        proof {
            assert(list.take(k as int) =~= list);
        }
        self
    }

    /// The value of the first tree: that of the first eligible root, by way of the first
    /// eligible back-pointer everywhere.
    pub fn eval(&self, ptrees: &ParseTrees) -> (res: Result<ASTNode, String>)
        requires
            ptrees.wf(),
            self.evaluable(ptrees@, false),
            ptrees@.roots.len() > 0,
        ensures
            self.outcomes(ptrees@).len() > 0,
            self.reports(self.outcomes(ptrees@)[0], res),
    {
        let roots = eligible_roots(ptrees, &self.priorities);
        let ghost setup = self.setup(ptrees@);
        let ghost list = choices::eligible_roots(ptrees@, self.priority_map());
        proof {
            choices::lemma_eligible_roots(ptrees@, self.priority_map());
            assert(list[0] == roots@[0] as int);
            setup.lemma_errors_last(list);
            setup.lemma_progress(list[0], Seq::empty());
        }
        let mut state = ForestIterator::new();
        let res = self.eval_one(ptrees, roots[0], &mut state);
        proof {
            let first = setup.outcomes_from(list[0], Seq::empty());
            assert(first[0] == tree_of(self.tree_under(ptrees@, list[0], Seq::empty())));
            assert(self.outcomes(ptrees@)[0] == first[0]);
        }
        res
    }

    /// Enumerates the values of all trees, one at a time, up to an error. A walk that comes back
    /// to a complete span that it is still unwinding is one, as is a walk that takes more steps
    /// than the cap allows.
    pub fn eval_iter<'s>(&'s self, ptrees: &'s ParseTrees) -> (it: EarleyForestIter<
        's,
        ASTNode,
        Lift,
        Action,
    >)
        requires
            ptrees.wf(),
            self.evaluable(ptrees@, false),
        ensures
            it.wf(),
            it.source() == *self,
            it.pending() == self.outcomes(ptrees@),
    {
        let roots = eligible_roots(ptrees, &self.priorities);
        let it = EarleyForestIter {
            forest: self,
            ptrees,
            roots,
            begun: 0,
            state: None,
            done: false,
        };
        proof {
            choices::lemma_eligible_roots(ptrees@, self.priority_map());
            let list = choices::eligible_roots(ptrees@, self.priority_map());
            assert(list.skip(0) =~= list);
            assert forall|k: int| 0 <= k < it.roots@.len() implies self.setup(ptrees@).ready(
                #[trigger] it.roots@[k] as int,
            ) by {
                assert(list[k] == it.roots@[k] as int);
            }
        }
        it
    }

    /// The values of at most `max_trees` trees.
    fn collect_up_to(&self, ptrees: &ParseTrees, max_trees: Option<usize>) -> (res: Result<
        Vec<ASTNode>,
        String,
    >)
        requires
            ptrees.wf(),
            self.evaluable(ptrees@, false),
        ensures
            max_trees is None ==> self.collects(self.outcomes(ptrees@), res),
            max_trees matches Some(max) ==> self.collects(
                if max < self.outcomes(ptrees@).len() {
                    self.outcomes(ptrees@).take(max as int)
                } else {
                    self.outcomes(ptrees@)
                },
                res,
            ),
    {
        let ghost all = self.outcomes(ptrees@);
        proof {
            choices::lemma_eligible_roots(ptrees@, self.priority_map());
            self.setup(ptrees@).lemma_errors_last(
                choices::eligible_roots(ptrees@, self.priority_map()),
            );
        }
        let mut it = self.eval_iter(ptrees);
        let mut values: Vec<ASTNode> = Vec::new();
        proof {
            assert(all.skip(0) =~= all);
        }
        loop
            invariant
                it.wf(),
                it.source() == *self,
                all == self.outcomes(ptrees@),
                forall|k: int| 0 <= k < all.len() - 1 ==> (#[trigger] all[k]) is Ok,
                values@.len() <= all.len(),
                max_trees matches Some(max) ==> values@.len() <= max,
                it.pending() == all.skip(values@.len() as int),
                forall|k: int|
                    #![trigger all[k]]
                    #![trigger values@[k]]
                    0 <= k < values@.len() ==> (all[k] matches Ok(tree) && self.produces(
                        tree,
                        values@[k],
                        false,
                    )),
            decreases all.len() - values@.len(),
        {
            let ghost n = values@.len() as int;
            if let Some(max) = max_trees {
                if values.len() >= max {
                    proof {
                        let shown = all.take(n);
                        if n == all.len() {
                            assert(shown =~= all);
                        }
                        assert(!enumeration::cut_short(shown)) by {
                            if n > 0 {
                                assert(shown.last() == all[n - 1]);
                            }
                        }
                        assert(self.collects(shown, Ok(values)));
                    }
                    return Ok(values);
                }
            }
            match it.next() {
                None => {
                    proof {
                        if n > 0 {
                            assert(all.last() == all[n - 1]);
                        }
                        assert(self.collects(all, Ok(values)));
                    }
                    return Ok(values);
                },
                Some(Err(e)) => {
                    proof {
                        assert(all[n] is Err);
                        assert(n == all.len() - 1);
                    }
                    return Err(e);
                },
                Some(Ok(v)) => {
                    let ghost before = values@;
                    values.push(v);
                    proof {
                        assert(all.skip(n).drop_first() =~= all.skip(n + 1));
                        assert(all.skip(n)[0] == all[n]);
                        assert forall|k: int|
                            #![trigger all[k]]
                            #![trigger values@[k]]
                            0 <= k < values@.len() implies (all[k] matches Ok(tree) && self.produces(
                            tree,
                            values@[k],
                            false,
                        )) by {
                            if k < n {
                                assert(values@[k] == before[k]);
                            }
                        }
                    }
                },
            }
        }
    }

    /// The values of all trees. Where the chart has cycles there is no end to these, and the
    /// first walk that comes back to where it was is the error.
    pub fn eval_all(&self, ptrees: &ParseTrees) -> (res: Result<Vec<ASTNode>, String>)
        requires
            ptrees.wf(),
            self.evaluable(ptrees@, false),
        ensures
            self.collects(self.outcomes(ptrees@), res),
    {
        self.collect_up_to(ptrees, None)
    }

    /// The values of the first `max_trees` trees, or of all where there are fewer. What comes
    /// behind them is not walked.
    pub fn eval_capped(&self, ptrees: &ParseTrees, max_trees: usize) -> (res: Result<
        Vec<ASTNode>,
        String,
    >)
        requires
            ptrees.wf(),
            self.evaluable(ptrees@, false),
        ensures
            self.collects(
                if max_trees < self.outcomes(ptrees@).len() {
                    self.outcomes(ptrees@).take(max_trees as int)
                } else {
                    self.outcomes(ptrees@)
                },
                res,
            ),
    {
        self.collect_up_to(ptrees, Some(max_trees))
    }
}

} // verus!
