//! Evaluation by recursion over the chart, to a fixed depth.

use vstd::prelude::*;
use vstd::string::*;

use crate::climb;
use crate::depth;
use crate::derivation;
use crate::derivation::{Fault, Tree};
use crate::spans;
use crate::spans::{Chart, ParseTrees, Source, SpanSource};
use crate::text;
use crate::trees;
use crate::trees::EarleyForest;

verus! {

/// A value is a copy of itself.
proof fn lemma_copies_self<N: Clone>(list: Seq<N>)
    ensures
        trees::passed(list, list, true),
{
    assert forall|k: int| 0 <= k < list.len() implies trees::copies(#[trigger] list[k], list[k]) by {
        assert(trees::clone_chain(seq![list[k]], list[k], list[k]));
    }
}

/// Clones of copies are copies.
proof fn lemma_copies_again<N: Clone>(raw: Seq<N>, list: Seq<N>, again: Seq<N>)
    requires
        trees::passed(raw, list, true),
        list.len() == again.len(),
        forall|k: int| 0 <= k < list.len() ==> cloned(#[trigger] list[k], again[k]),
    ensures
        trees::passed(raw, again, true),
{
    assert forall|k: int| 0 <= k < raw.len() implies trees::copies(#[trigger] raw[k], again[k]) by {
        assert(trees::copies(raw[k], list[k]));
        let chain = choose|chain: Seq<N>| #[trigger] trees::clone_chain(chain, raw[k], list[k]);
        assert(cloned(list[k], again[k]));
        assert(trees::clone_chain(chain.push(again[k]), raw[k], again[k]));
    }
}

impl<ASTNode: Clone, Lift: Fn(&str, &str) -> ASTNode, Action: Fn(Vec<ASTNode>) -> ASTNode> EarleyForest<
    ASTNode,
    Lift,
    Action,
> {
    /// The outcome `res` is that of `found`: values for the trees, or the message.
    pub open spec fn reports_list(
        self,
        found: Result<Seq<Tree>, Fault>,
        res: Result<Vec<ASTNode>, String>,
    ) -> bool {
        match found {
            Ok(trees) => res matches Ok(values) && self.produces_all(trees, values@, false),
            Err(fault) => res matches Err(msg) && msg@ == self.fault_text(fault),
        }
    }

    /// The message of a walk that went too deep.
    fn too_deep(&self, all: bool) -> (msg: String)
        ensures
            msg@ == self.fault_text(Fault::TooDeep { all }),
    {
        let mut msg = "Bottomless grammar: ".to_owned();
        if all {
            msg.append("walker_all");
        } else {
            msg.append("walker");
        }
        msg.append(" exceeded max recursion depth ");
        let digits = text::to_decimal(climb::MAX_WALKER_RECURSION as u64);
        msg.append(digits.as_str());
        msg
    }

    /// A tree whose subtrees have values has the value that its action gives for them.
    proof fn lemma_produces_node(
        self,
        tree: Tree,
        raw: Seq<ASTNode>,
        args: Vec<ASTNode>,
        v: ASTNode,
        copied: bool,
    )
        requires
            tree matches Tree::Node { rule, children } && self.action_map().contains_key(rule.text())
                && self.produces_all(children, raw, copied) && call_ensures(
                self.action_map()[rule.text()],
                (args,),
                v,
            ),
            trees::passed(raw, args@, copied),
        ensures
            self.produces(tree, v, copied),
    {
    }

    // To write this helper draw a tree of the backpointers and see how they link.
    // - If a span has no sources then its rule progress is at the start.
    // - If it originates from a 'completion' there's a span (the source)
    // that was extended because another (the trigger) completed its rule.
    // Recurse both spans transitively until they have no sources to follow.
    // They will return the 'scans' that happened along the way.
    // - If a span originates from a 'scan' then lift the text into an ASTNode.
    fn walker(&self, ptrees: &ParseTrees, root: usize, level: u16) -> (res: Result<
        Vec<ASTNode>,
        String,
    >)
        requires
            ptrees.wf(),
            self.evaluable(ptrees@, false),
            root < ptrees@.items.len(),
        ensures
            self.reports_list(
                climb::climb(ptrees@, self.known(), root as int, level as int),
                res,
            ),
        decreases climb::MAX_WALKER_RECURSION - level,
    {
        let ghost chart = ptrees@;
        let ghost i = root as int;
        proof {
            assert(chart.item_ok(i));
        }
        if level >= climb::MAX_WALKER_RECURSION {
            return Err(self.too_deep(false));
        }
        let mut args: Vec<ASTNode> = Vec::new();
        let ghost mut trees: Seq<Tree> = Seq::empty();
        let sources = &ptrees.spans[root].sources;
        if sources.len() > 0 {
            proof {
                assert(chart.items[i].sources[0] == sources@[0]@);
                assert(chart.source_ok(i, chart.items[i].sources[0]));
            }
            match &sources[0] {
                SpanSource::Completion(source, trigger) => {
                    let mut left = match self.walker(ptrees, *source, level + 1) {
                        Ok(list) => list,
                        Err(e) => {
                            return Err(e);
                        },
                    };
                    let mut right = match self.walker(ptrees, *trigger, level + 1) {
                        Ok(list) => list,
                        Err(e) => {
                            return Err(e);
                        },
                    };
                    proof {
                        climb::lemma_climb(chart, self.known(), *source as int, level + 1);
                        climb::lemma_climb(chart, self.known(), *trigger as int, level + 1);
                        let l = climb::climb(
                            chart,
                            self.known(),
                            *source as int,
                            level + 1,
                        )->Ok_0;
                        let r = climb::climb(
                            chart,
                            self.known(),
                            *trigger as int,
                            level + 1,
                        )->Ok_0;
                        climb::lemma_join(chart, i, 0, l, r);
                        trees = l + r;
                    }
                    args.append(&mut left);
                    args.append(&mut right);
                },
                SpanSource::Scan(source, token) => {
                    let mut left = match self.walker(ptrees, *source, level + 1) {
                        Ok(list) => list,
                        Err(e) => {
                            return Err(e);
                        },
                    };
                    args.append(&mut left);
                    let node = self.lift_token(ptrees, root, 0, *source, token);
                    args.push(node);
                    proof {
                        climb::lemma_climb(chart, self.known(), *source as int, level + 1);
                        let l = climb::climb(
                            chart,
                            self.known(),
                            *source as int,
                            level + 1,
                        )->Ok_0;
                        climb::lemma_join_token(chart, i, 0, l);
                        trees = l.push(
                            Tree::Leaf {
                                symbol: chart.items[*source as int].next_symbol(),
                                token: token@,
                            },
                        );
                    }
                },
            }
        }
        proof {
            assert(self.produces_all(trees, args@, false));
            assert(derivation::derives(chart, i, trees));
            assert(trees::passed(args@, args@, false));
        }
        let ghost given = args;
        let res = self.reduce(ptrees, root, args);
        proof {
            let rule = chart.items[i].rule;
            if chart.items[i].complete() && self.action_map().contains_key(rule.text()) {
                let node = Tree::Node { rule, children: trees };
                self.lemma_produces_node(node, given@, given, res->Ok_0@[0], false);
            }
        }
        res
    }

    /// The value of the chart's first root, by way of the first back-pointer everywhere. For
    /// grammars without ambiguity that is the only parse.
    pub fn eval_recursive(&self, ptrees: &ParseTrees) -> (res: Result<ASTNode, String>)
        requires
            ptrees.wf(),
            self.evaluable(ptrees@, false),
            ptrees@.roots.len() > 0,
        ensures
            match climb::climb(ptrees@, self.known(), ptrees@.roots[0], 0) {
                Ok(trees) => trees.len() == 1 && (res matches Ok(v) && self.produces(
                    trees[0],
                    v,
                    false,
                )),
                Err(fault) => res matches Err(msg) && msg@ == self.fault_text(fault),
            },
            depth::all_known(ptrees@, self.known()) && depth::shallow(ptrees@, ptrees@.roots[0])
                ==> res is Ok,
            !depth::shallow(ptrees@, ptrees@.roots[0]) ==> res is Err,
    {
        proof {
            assert(ptrees@.roots[0] == ptrees.roots@[0] as int);
            depth::law_recursion_succeeds_where_it_can(ptrees@, self.known(), ptrees@.roots[0]);
            climb::lemma_climb(ptrees@, self.known(), ptrees@.roots[0], 0);
        }
        match self.walker(ptrees, ptrees.roots[0], 0) {
            Ok(list) => {
                let mut list = list;
                Ok(list.swap_remove(0))
            },
            Err(e) => Err(e),
        }
    }
}

/// Copies a list of back-pointers.
fn copy_sources(list: &Vec<SpanSource>) -> (copy: Vec<SpanSource>)
    ensures
        spans::source_views(copy@) == spans::source_views(list@),
{
    let mut copy: Vec<SpanSource> = Vec::new();
    let mut k: usize = 0;
    while k < list.len()
        invariant
            k <= list@.len(),
            spans::source_views(copy@) == spans::source_views(list@).take(k as int),
        decreases list.len() - k,
    {
        let ghost before = copy@;
        copy.push(list[k].duplicate());
        k = k + 1;
        proof {
            let all = spans::source_views(list@);
            assert(all.take(k as int) =~= all.take(k - 1).push(all[k - 1]));
            assert(spans::source_views(copy@) =~= spans::source_views(before).push(all[k - 1]));
        }
    }
    proof {
        let all = spans::source_views(list@);
        assert(all.take(k as int) =~= all);
    }
    copy
}

impl<ASTNode: Clone, Lift: Fn(&str, &str) -> ASTNode, Action: Fn(Vec<ASTNode>) -> ASTNode> EarleyForest<
    ASTNode,
    Lift,
    Action,
> {
    /// `values` are values of `trees`, or clones of such.
    pub open spec fn carries(self, trees: Seq<Tree>, values: Seq<ASTNode>) -> bool {
        exists|raw: Seq<ASTNode>|
            #[trigger] trees::passed(raw, values, true) && self.produces_all(trees, raw, true)
    }

    /// `values` is what a walk after every tree hands up for `trees` from item `i`.
    pub open spec fn hands_up(
        self,
        chart: Chart,
        i: int,
        trees: Seq<Tree>,
        values: Seq<ASTNode>,
    ) -> bool {
        if chart.items[i].complete() {
            self.produces_all(trees, values, true)
        } else {
            self.carries(trees, values)
        }
    }

    /// The rule of item `i` is done and has no action.
    pub open spec fn stuck(self, chart: Chart, i: int) -> bool {
        chart.items[i].complete() && !self.known().contains(chart.items[i].rule.text())
    }

    /// `out` is what a walk hands up for `lists` from item `i`.
    pub open spec fn hands_up_all(
        self,
        chart: Chart,
        i: int,
        lists: Seq<Seq<Tree>>,
        out: Seq<Vec<ASTNode>>,
    ) -> bool {
        &&& lists.len() == out.len()
        &&& forall|k: int|
            #![trigger lists[k]]
            #![trigger out[k]]
            0 <= k < lists.len() ==> self.hands_up(chart, i, lists[k], out[k]@)
    }

    /// Two lists of what is handed up, one behind the other.
    proof fn lemma_hands_up_both(
        self,
        chart: Chart,
        i: int,
        a: Seq<Seq<Tree>>,
        b: Seq<Seq<Tree>>,
        out_a: Seq<Vec<ASTNode>>,
        out_b: Seq<Vec<ASTNode>>,
    )
        requires
            self.hands_up_all(chart, i, a, out_a),
            self.hands_up_all(chart, i, b, out_b),
        ensures
            self.hands_up_all(chart, i, a + b, out_a + out_b),
    {
        let lists = a + b;
        let out = out_a + out_b;
        assert forall|k: int|
            #![trigger lists[k]]
            #![trigger out[k]]
            0 <= k < lists.len() implies self.hands_up(chart, i, lists[k], out[k]@) by {
            if k < a.len() {
                assert(lists[k] == a[k] && out[k] == out_a[k]);
            } else {
                assert(lists[k] == b[k - a.len()] && out[k] == out_b[k - a.len()]);
            }
        }
    }

    /// The values of two lists of trees, one behind the other.
    proof fn lemma_carries_both(
        self,
        a: Seq<Tree>,
        b: Seq<Tree>,
        left: Seq<ASTNode>,
        right: Seq<ASTNode>,
    )
        requires
            self.carries(a, left),
            self.produces_all(b, right, true),
        ensures
            self.carries(a + b, left + right),
    {
        let raw = choose|raw: Seq<ASTNode>|
            #[trigger] trees::passed(raw, left, true) && self.produces_all(a, raw, true);
        let both = raw + right;
        lemma_copies_self(right);
        assert forall|k: int| 0 <= k < both.len() implies trees::copies(
            #[trigger] both[k],
            (left + right)[k],
        ) by {
            if k < raw.len() {
                assert(trees::copies(raw[k], left[k]));
            } else {
                assert(trees::copies(right[k - raw.len()], right[k - raw.len()]));
            }
        }
        let list = a + b;
        assert forall|k: int|
            #![trigger list[k]]
            #![trigger both[k]]
            0 <= k < list.len() implies self.produces(list[k], both[k], true) by {
            if k < a.len() {
                assert(list[k] == a[k] && both[k] == raw[k]);
            } else {
                assert(list[k] == b[k - a.len()] && both[k] == right[k - a.len()]);
            }
        }
        assert(trees::passed(both, left + right, true));
    }

    /// Reduces the values of subtrees that account for a span.
    fn finish(
        &self,
        ptrees: &ParseTrees,
        root: usize,
        args: Vec<ASTNode>,
        Ghost(trees): Ghost<Seq<Tree>>,
    ) -> (res: Result<Vec<ASTNode>, String>)
        requires
            ptrees.wf(),
            self.evaluable(ptrees@, true),
            root < ptrees@.items.len(),
            derivation::derives(ptrees@, root as int, trees),
            self.carries(trees, args@),
        ensures
            self.stuck(ptrees@, root as int) ==> (res matches Err(msg) && msg@ == self.fault_text(
                Fault::MissingAction { rule: ptrees@.items[root as int].rule },
            )),
            !self.stuck(ptrees@, root as int) ==> (res matches Ok(out) && self.hands_up(
                ptrees@,
                root as int,
                climb::wrapped(ptrees@, root as int, trees),
                out@,
            )),
    {
        let ghost chart = ptrees@;
        let ghost i = root as int;
        let ghost given = args;
        let ghost raw = choose|raw: Seq<ASTNode>|
            #[trigger] trees::passed(raw, args@, true) && self.produces_all(trees, raw, true);
        let res = self.reduce(ptrees, root, args);
        proof {
            let rule = chart.items[i].rule;
            if chart.items[i].complete() && self.action_map().contains_key(rule.text()) {
                let node = Tree::Node { rule, children: trees };
                self.lemma_produces_node(node, raw, given, res->Ok_0@[0], true);
            }
        }
        res
    }

    /// What a back-pointer to a completed span hands up: every way to its left with every way
    /// below it.
    fn join_all(
        &self,
        ptrees: &ParseTrees,
        root: usize,
        k: usize,
        level: u16,
        explored: &Vec<SpanSource>,
    ) -> (res: Result<Vec<Vec<ASTNode>>, String>)
        requires
            ptrees.wf(),
            self.evaluable(ptrees@, true),
            root < ptrees@.items.len(),
            k < ptrees@.items[root as int].sources.len(),
            level < climb::MAX_WALKER_RECURSION,
        ensures
            match climb::climb_here(
                ptrees@,
                self.known(),
                root as int,
                level as int,
                spans::source_views(explored@),
                k as int,
            ) {
                Ok(lists) => res matches Ok(out) && self.hands_up_all(
                    ptrees@,
                    root as int,
                    lists,
                    out@,
                ),
                Err(fault) => res matches Err(msg) && msg@ == self.fault_text(fault),
            },
        decreases climb::MAX_WALKER_RECURSION - level, 0int,
    {
        let ghost chart = ptrees@;
        let ghost i = root as int;
        let ghost taken = spans::source_views(explored@);
        let ghost known = self.known();
        proof {
            assert(chart.item_ok(i));
            assert(chart.items[i].sources[k as int] == ptrees.spans@[i].sources@[k as int]@);
            assert(chart.source_ok(i, chart.items[i].sources[k as int]));
        }
        let mut out: Vec<Vec<ASTNode>> = Vec::new();
        // What has been joined so far, before it is reduced.
        let ghost mut joined: Seq<Seq<Tree>> = Seq::empty();
        match &ptrees.spans[root].sources[k] {
            SpanSource::Completion(source, trigger) => {
                let lefts = match self.walker_all(ptrees, *source, level + 1, copy_sources(explored)) {
                    Ok(lefts) => lefts,
                    Err(e) => {
                        return Err(e);
                    },
                };
                let ghost from = *source as int;
                let ghost by = *trigger as int;
                let ghost left_lists = climb::climb_all(chart, known, from, level + 1, taken)->Ok_0;
                let ghost found = climb::climb_all(chart, known, by, level + 1, taken);
                proof {
                    climb::lemma_climb_all(chart, known, from, level + 1, taken);
                    climb::lemma_climb_all(chart, known, by, level + 1, taken);
                    assert(left_lists.take(0) =~= Seq::empty());
                }
                let mut a: usize = 0;
                while a < lefts.len()
                    invariant
                        ptrees.wf(),
                        self.evaluable(chart, true),
                        chart == ptrees@,
                        known == self.known(),
                        i == root as int,
                        root < chart.items.len(),
                        k < chart.items[i].sources.len(),
                        chart.items[i].sources[k as int] == (Source::Completion { from, by }),
                        from == *source as int,
                        by == *trigger as int,
                        *source < chart.items.len(),
                        *trigger < chart.items.len(),
                        !chart.items[from].complete(),
                        chart.items[by].complete(),
                        level < climb::MAX_WALKER_RECURSION,
                        taken == spans::source_views(explored@),
                        found == climb::climb_all(chart, known, by, level + 1, taken),
                        climb::climb_all(chart, known, from, level + 1, taken) == Ok::<
                            Seq<Seq<Tree>>,
                            Fault,
                        >(left_lists),
                        climb::all_handed_up(chart, from, left_lists),
                        found matches Ok(lists) ==> climb::all_handed_up(chart, by, lists),
                        self.hands_up_all(chart, from, left_lists, lefts@),
                        a <= lefts@.len(),
                        a > 0 ==> found is Ok,
                        found is Ok ==> joined == climb::products(
                            left_lists.take(a as int),
                            found->Ok_0,
                        ),
                        a == 0 ==> joined.len() == 0,
                        joined.len() > 0 ==> !self.stuck(chart, i),
                        self.hands_up_all(
                            chart,
                            i,
                            joined.map_values(|t: Seq<Tree>| climb::wrapped(chart, i, t)),
                            out@,
                        ),
                    decreases lefts.len() - a,
                {
                    let rights = match self.walker_all(
                        ptrees,
                        *trigger,
                        level + 1,
                        copy_sources(explored),
                    ) {
                        Ok(rights) => rights,
                        Err(e) => {
                            return Err(e);
                        },
                    };
                    let ghost right_lists = found->Ok_0;
                    let ghost base = joined;
                    let ghost left = left_lists[a as int];
                    proof {
                        assert(base =~= base + right_lists.take(0).map_values(
                            |t: Seq<Tree>| left + t,
                        ));
                    }
                    for trig in it: rights
                        invariant
                            ptrees.wf(),
                            self.evaluable(chart, true),
                            chart == ptrees@,
                            known == self.known(),
                            i == root as int,
                            root < chart.items.len(),
                            k < chart.items[i].sources.len(),
                            chart.items[i].sources[k as int] == (Source::Completion { from, by }),
                            !chart.items[from].complete(),
                            chart.items[by].complete(),
                            a < lefts@.len(),
                            left == left_lists[a as int],
                            climb::all_handed_up(chart, from, left_lists),
                            climb::all_handed_up(chart, by, right_lists),
                            self.hands_up_all(chart, from, left_lists, lefts@),
                            self.hands_up_all(chart, by, right_lists, it.seq()),
                            found == Ok::<Seq<Seq<Tree>>, Fault>(right_lists),
                            found == climb::climb_all(chart, known, by, level + 1, taken),
                            climb::climb_all(chart, known, from, level + 1, taken) == Ok::<
                                Seq<Seq<Tree>>,
                                Fault,
                            >(left_lists),
                            taken == spans::source_views(explored@),
                            level < climb::MAX_WALKER_RECURSION,
                            base == climb::products(left_lists.take(a as int), right_lists),
                            joined == base + right_lists.take(it.index()).map_values(
                                |t: Seq<Tree>| left + t,
                            ),
                            joined.len() > 0 ==> !self.stuck(chart, i),
                            self.hands_up_all(
                                chart,
                                i,
                                joined.map_values(|t: Seq<Tree>| climb::wrapped(chart, i, t)),
                                out@,
                            ),
                    {
                        let ghost b = it.index();
                        let ghost right = right_lists[b];
                        let ghost lower = trig@;
                        let mut trig = trig;
                        let mut args = lefts[a].clone();
                        proof {
                            let raw = choose|raw: Seq<ASTNode>|
                                #[trigger] trees::passed(raw, lefts@[a as int]@, true)
                                    && self.produces_all(left, raw, true);
                            assert(self.hands_up(chart, from, left_lists[a as int], lefts@[a as int]@));
                            lemma_copies_again(raw, lefts@[a as int]@, args@);
                            assert(self.carries(left, args@));
                            self.lemma_carries_both(left, right, args@, lower);
                            climb::lemma_join(chart, i, k as int, left, right);
                        }
                        args.append(&mut trig);
                        let ghost so_far = joined;
                        let ghost out_before = out@;
                        match self.finish(ptrees, root, args, Ghost(left + right)) {
                            Ok(tree) => {
                                out.push(tree);
                            },
                            Err(e) => {
                                proof {
                                    climb::lemma_products_step(left_lists, right_lists, a as int);
                                    climb::lemma_products_grow(
                                        left_lists,
                                        right_lists,
                                        a as int + 1,
                                    );
                                }
                                return Err(e);
                            },
                        }
                        proof {
                            joined = joined.push(left + right);
                            assert(right_lists.take(b + 1) =~= right_lists.take(b).push(right));
                            assert(joined =~= base + right_lists.take(b + 1).map_values(
                                |t: Seq<Tree>| left + t,
                            ));
                            let w = |t: Seq<Tree>| climb::wrapped(chart, i, t);
                            assert(joined.map_values(w) =~= so_far.map_values(w).push(
                                climb::wrapped(chart, i, left + right),
                            ));
                            let now = joined.map_values(w);
                            assert forall|n: int|
                                #![trigger now[n]]
                                #![trigger out@[n]]
                                0 <= n < now.len() implies self.hands_up(chart, i, now[n], out@[n]@) by {
                                if n < so_far.len() {
                                    assert(now[n] == so_far.map_values(w)[n]);
                                    assert(out@[n] == out_before[n]);
                                }
                            }
                        }
                    }
                    proof {
                        assert(right_lists.take(right_lists.len() as int) =~= right_lists);
                        climb::lemma_products_step(left_lists, right_lists, a as int);
                    }
                    a = a + 1;
                }
                proof {
                    assert(left_lists.take(a as int) =~= left_lists);
                }
                Ok(out)
            },
            SpanSource::Scan(source, token) => {
                let lefts = match self.walker_all(ptrees, *source, level + 1, copy_sources(explored)) {
                    Ok(lefts) => lefts,
                    Err(e) => {
                        return Err(e);
                    },
                };
                let ghost from = *source as int;
                let ghost leaf = Tree::Leaf {
                    symbol: chart.items[from].next_symbol(),
                    token: token@,
                };
                let ghost left_lists = climb::climb_all(chart, known, from, level + 1, taken)->Ok_0;
                proof {
                    climb::lemma_climb_all(chart, known, from, level + 1, taken);
                    assert(joined =~= left_lists.take(0).map_values(|t: Seq<Tree>| t.push(leaf)));
                }
                for args in it: lefts
                    invariant
                        ptrees.wf(),
                        self.evaluable(chart, true),
                        chart == ptrees@,
                        known == self.known(),
                        i == root as int,
                        root < chart.items.len(),
                        k < chart.items[i].sources.len(),
                        chart.items[i].sources[k as int] == (Source::Scan { from, token: token@ }),
                        from == *source as int,
                        *source < chart.items.len(),
                        !chart.items[from].complete(),
                        leaf == (Tree::Leaf {
                            symbol: chart.items[from].next_symbol(),
                            token: token@,
                        }),
                        climb::climb_all(chart, known, from, level + 1, taken) == Ok::<
                            Seq<Seq<Tree>>,
                            Fault,
                        >(left_lists),
                        taken == spans::source_views(explored@),
                        level < climb::MAX_WALKER_RECURSION,
                        climb::all_handed_up(chart, from, left_lists),
                        self.hands_up_all(chart, from, left_lists, it.seq()),
                        joined == left_lists.take(it.index()).map_values(
                            |t: Seq<Tree>| t.push(leaf),
                        ),
                        joined.len() > 0 ==> !self.stuck(chart, i),
                        self.hands_up_all(
                            chart,
                            i,
                            joined.map_values(|t: Seq<Tree>| climb::wrapped(chart, i, t)),
                            out@,
                        ),
                {
                    let ghost a = it.index();
                    let ghost left = left_lists[a];
                    let ghost before = args@;
                    let mut args = args;
                    let node = self.lift_token(ptrees, root, k, *source, token);
                    args.push(node);
                    proof {
                        assert(self.hands_up(chart, from, left_lists[a], before));
                        assert(self.produces(leaf, node, true));
                        assert(self.produces_all(seq![leaf], seq![node], true));
                        self.lemma_carries_both(left, seq![leaf], before, seq![node]);
                        assert(left + seq![leaf] =~= left.push(leaf));
                        assert(before + seq![node] =~= args@);
                        climb::lemma_join_token(chart, i, k as int, left);
                    }
                    let ghost so_far = joined;
                    let ghost out_before = out@;
                    match self.finish(ptrees, root, args, Ghost(left.push(leaf))) {
                        Ok(tree) => {
                            out.push(tree);
                        },
                        Err(e) => {
                            return Err(e);
                        },
                    }
                    proof {
                        joined = joined.push(left.push(leaf));
                        assert(left_lists.take(a + 1) =~= left_lists.take(a).push(left));
                        assert(joined =~= left_lists.take(a + 1).map_values(
                            |t: Seq<Tree>| t.push(leaf),
                        ));
                        let w = |t: Seq<Tree>| climb::wrapped(chart, i, t);
                        assert(joined.map_values(w) =~= so_far.map_values(w).push(
                            climb::wrapped(chart, i, left.push(leaf)),
                        ));
                        let now = joined.map_values(w);
                        assert forall|n: int|
                            #![trigger now[n]]
                            #![trigger out@[n]]
                            0 <= n < now.len() implies self.hands_up(chart, i, now[n], out@[n]@) by {
                            if n < so_far.len() {
                                assert(now[n] == so_far.map_values(w)[n]);
                                assert(out@[n] == out_before[n]);
                            }
                        }
                    }
                }
                proof {
                    assert(left_lists.take(left_lists.len() as int) =~= left_lists);
                }
                Ok(out)
            },
        }
    }

    /// Everything that can be handed up from a span, by way of every back-pointer that is not
    /// in `explored`.
    fn walker_all(
        &self,
        ptrees: &ParseTrees,
        root: usize,
        level: u16,
        explored: Vec<SpanSource>,
    ) -> (res: Result<Vec<Vec<ASTNode>>, String>)
        requires
            ptrees.wf(),
            self.evaluable(ptrees@, true),
            root < ptrees@.items.len(),
        ensures
            match climb::climb_all(
                ptrees@,
                self.known(),
                root as int,
                level as int,
                spans::source_views(explored@),
            ) {
                Ok(lists) => res matches Ok(out) && self.hands_up_all(
                    ptrees@,
                    root as int,
                    lists,
                    out@,
                ),
                Err(fault) => res matches Err(msg) && msg@ == self.fault_text(fault),
            },
        decreases climb::MAX_WALKER_RECURSION - level, 1int,
    {
        let ghost chart = ptrees@;
        let ghost i = root as int;
        let ghost known = self.known();
        let mut seen = explored;
        if level >= climb::MAX_WALKER_RECURSION {
            return Err(self.too_deep(true));
        }
        proof {
            assert(chart.item_ok(i));
        }
        let source = &ptrees.spans[root].sources;
        if source.len() == 0 {
            let ghost none = Seq::<Tree>::empty();
            proof {
                assert(derivation::derives(chart, i, none));
                assert(trees::passed(Seq::<ASTNode>::empty(), Seq::<ASTNode>::empty(), true));
                assert(self.carries(none, Seq::<ASTNode>::empty()));
            }
            return match self.finish(ptrees, root, Vec::new(), Ghost(none)) {
                Ok(tree) => {
                    let mut out: Vec<Vec<ASTNode>> = Vec::new();
                    out.push(tree);
                    Ok(out)
                },
                Err(e) => Err(e),
            };
        }
        let mut trees: Vec<Vec<ASTNode>> = Vec::new();
        let ghost mut lists: Seq<Seq<Tree>> = Seq::empty();
        let ghost whole = climb::climb_all(
            chart,
            known,
            i,
            level as int,
            spans::source_views(explored@),
        );
        let mut k: usize = 0;
        while k < source.len()
            invariant
                ptrees.wf(),
                self.evaluable(chart, true),
                chart == ptrees@,
                known == self.known(),
                i == root as int,
                root < chart.items.len(),
                level < climb::MAX_WALKER_RECURSION,
                source == ptrees.spans@[i].sources,
                k <= source@.len(),
                whole == climb::climb_all(
                    chart,
                    known,
                    i,
                    level as int,
                    spans::source_views(explored@),
                ),
                whole == (match climb::climb_from(
                    chart,
                    known,
                    i,
                    level as int,
                    spans::source_views(seen@),
                    k as int,
                ) {
                    Err(fault) => Err::<Seq<Seq<Tree>>, Fault>(fault),
                    Ok(more) => Ok::<Seq<Seq<Tree>>, Fault>(lists + more),
                }),
                self.hands_up_all(chart, i, lists, trees@),
            decreases source.len() - k,
        {
            let backpointer = &source[k];
            proof {
                assert(chart.items[i].sources[k as int] == backpointer@);
                assert(chart.items[i].sources.len() == source@.len());
            }
            // Track backpointers we've already explored to avoid looping
            if !spans::holds_source(&seen, backpointer) {
                let ghost before = seen@;
                seen.push(backpointer.duplicate());
                proof {
                    assert(spans::source_views(seen@) =~= spans::source_views(before).push(
                        backpointer@,
                    ));
                }
                let ghost earlier = trees@;
                match self.join_all(ptrees, root, k, level, &seen) {
                    Ok(out) => {
                        let ghost new = out@;
                        let mut out = out;
                        trees.append(&mut out);
                        proof {
                            let here = climb::climb_here(
                                chart,
                                known,
                                i,
                                level as int,
                                spans::source_views(seen@),
                                k as int,
                            )->Ok_0;
                            self.lemma_hands_up_both(chart, i, lists, here, earlier, new);
                            if let Ok(more) = climb::climb_from(
                                chart,
                                known,
                                i,
                                level as int,
                                spans::source_views(seen@),
                                k + 1,
                            ) {
                                assert(lists + (here + more) =~= (lists + here) + more);
                            }
                            lists = lists + here;
                        }
                    },
                    Err(e) => {
                        proof {
                            let views = spans::source_views(before);
                            assert(!views.contains(chart.items[i].sources[k as int]));
                            let taken = views.push(chart.items[i].sources[k as int]);
                            assert(climb::climb_here(chart, known, i, level as int, taken, k as int)
                                is Err);
                            assert(climb::climb_from(chart, known, i, level as int, views, k as int)
                                is Err);
                        }
                        return Err(e);
                    },
                }
            }
            k = k + 1;
        }
        proof {
            assert(lists + Seq::<Seq<Tree>>::empty() =~= lists);
        }
        Ok(trees)
    }

    /// `res` is what comes of all trees that a walk by recursion finds: a value for each, or the
    /// message.
    pub open spec fn found_by_recursion(
        self,
        chart: Chart,
        res: Result<Vec<ASTNode>, String>,
    ) -> bool {
        match climb::climb_roots(chart, self.known(), chart.roots.len() as int) {
            Ok(trees) => res matches Ok(values) && self.produces_all(trees, values@, true),
            Err(fault) => res matches Err(msg) && msg@ == self.fault_text(fault),
        }
    }

    /// The values of a tree depend on the terminal parser and the actions alone.
    proof fn lemma_same_values(self, other: Self, tree: Tree, v: ASTNode, copied: bool)
        requires
            self.action_map() == other.action_map(),
            self.lift() == other.lift(),
            self.produces(tree, v, copied),
        ensures
            other.produces(tree, v, copied),
        decreases tree,
    {
        if let Tree::Node { rule, children } = tree {
            let action = self.action_map()[rule.text()];
            let (raw, args) = choose|raw: Seq<ASTNode>, args: Vec<ASTNode>|
                {
                    &&& #[trigger] trees::passed(raw, args@, copied)
                    &&& raw.len() == children.len()
                    &&& forall|k: int|
                        #![trigger children[k]]
                        0 <= k < children.len() ==> self.produces(children[k], raw[k], copied)
                    &&& call_ensures(action, (args,), v)
                };
            assert forall|k: int|
                #![trigger children[k]]
                0 <= k < children.len() implies other.produces(children[k], raw[k], copied) by {
                self.lemma_same_values(other, children[k], raw[k], copied);
            }
            assert(trees::passed(raw, args@, copied));
        }
    }

    /// Neither priorities nor the cap on steps have a part in evaluation by recursion: forests
    /// with the same terminal parser and the same actions can give the same results.
    pub proof fn law_recursion_ignores_priorities_and_cap(
        self,
        other: Self,
        chart: Chart,
        res: Result<Vec<ASTNode>, String>,
    )
        requires
            self.action_map() == other.action_map(),
            self.lift() == other.lift(),
            self.found_by_recursion(chart, res),
        ensures
            other.found_by_recursion(chart, res),
    {
        let n = chart.roots.len() as int;
        match climb::climb_roots(chart, self.known(), n) {
            Ok(list) => {
                let values = res->Ok_0;
                assert forall|k: int|
                    #![trigger list[k]]
                    #![trigger values@[k]]
                    0 <= k < list.len() implies other.produces(list[k], values@[k], true) by {
                    self.lemma_same_values(other, list[k], values@[k], true);
                }
            },
            Err(fault) => {
                climb::lemma_roots_fault(chart, self.known(), n);
            },
        }
    }

    /// The values of all trees that a walk by recursion finds, root by root. A back-pointer is
    /// not taken twice on one way down.
    pub fn eval_all_recursive(&self, ptrees: &ParseTrees) -> (res: Result<Vec<ASTNode>, String>)
        requires
            ptrees.wf(),
            self.evaluable(ptrees@, true),
        ensures
            self.found_by_recursion(ptrees@, res),
            depth::all_known(ptrees@, self.known()) && depth::shallow_roots(ptrees@) ==> res is Ok,
    {
        let ghost chart = ptrees@;
        let ghost known = self.known();
        proof {
            if depth::all_known(chart, known) && depth::shallow_roots(chart) {
                depth::law_full_recursion_succeeds_where_it_can(
                    chart,
                    known,
                    chart.roots.len() as int,
                );
            }
        }
        let mut trees: Vec<ASTNode> = Vec::new();
        let ghost mut found: Seq<Tree> = Seq::empty();
        let mut r: usize = 0;
        while r < ptrees.roots.len()
            invariant
                ptrees.wf(),
                self.evaluable(chart, true),
                chart == ptrees@,
                known == self.known(),
                r <= chart.roots.len(),
                climb::climb_roots(chart, known, r as int) == Ok::<Seq<Tree>, Fault>(found),
                self.produces_all(found, trees@, true),
                depth::all_known(chart, known) && depth::shallow_roots(chart)
                    ==> climb::climb_roots(chart, known, chart.roots.len() as int) is Ok,
            decreases ptrees.roots.len() - r,
        {
            let root = ptrees.roots[r];
            let ghost i = root as int;
            proof {
                assert(chart.roots[r as int] == i);
                climb::lemma_climb_all(chart, known, i, 0, Seq::empty());
                climb::lemma_roots_step(chart, known, r as int, chart.roots.len() as int);
            }
            let none: Vec<SpanSource> = Vec::new();
            proof {
                assert(spans::source_views(none@) =~= Seq::<Source>::empty());
            }
            let lists = match self.walker_all(ptrees, root, 0, none) {
                Ok(lists) => lists,
                Err(e) => {
                    return Err(e);
                },
            };
            let ghost tree_lists = climb::climb_all(chart, known, i, 0, Seq::empty())->Ok_0;
            let ghost base = found;
            proof {
                assert(base =~= base + tree_lists.take(0).map_values(|l: Seq<Tree>| l[0]));
            }
            for treevec in it: lists
                invariant
                    chart.items[i].complete(),
                    climb::all_handed_up(chart, i, tree_lists),
                    self.hands_up_all(chart, i, tree_lists, it.seq()),
                    found == base + tree_lists.take(it.index()).map_values(|l: Seq<Tree>| l[0]),
                    self.produces_all(found, trees@, true),
            {
                let ghost a = it.index();
                let ghost before = trees@;
                proof {
                    assert(self.hands_up(chart, i, tree_lists[a], treevec@));
                    assert(climb::handed_up(chart, i, tree_lists[a]));
                    assert(self.produces(tree_lists[a][0], treevec@[0], true));
                }
                let mut treevec = treevec;
                trees.push(treevec.swap_remove(0));
                proof {
                    let earlier = found;
                    found = found.push(tree_lists[a][0]);
                    assert(tree_lists.take(a + 1) =~= tree_lists.take(a).push(tree_lists[a]));
                    assert(found =~= base + tree_lists.take(a + 1).map_values(
                        |l: Seq<Tree>| l[0],
                    ));
                    assert forall|n: int|
                        #![trigger found[n]]
                        #![trigger trees@[n]]
                        0 <= n < found.len() implies self.produces(found[n], trees@[n], true) by {
                        if n < earlier.len() {
                            assert(found[n] == earlier[n] && trees@[n] == before[n]);
                        }
                    }
                }
            }
            proof {
                assert(tree_lists.take(tree_lists.len() as int) =~= tree_lists);
            }
            r = r + 1;
        }
        Ok(trees)
    }
}

} // verus!
