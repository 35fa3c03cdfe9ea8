use vstd::prelude::*;
use std::collections::HashMap;

verus! {

broadcast use vstd::std_specs::hash::group_hash_axioms;

/// A configuration of the system under verification. Its view is the
/// logical value that identifies it: two states with equal views are the
/// same state to the explorer.
pub trait ModelState: View + Sized {
    /// The 64-bit digest of a logical state.
    spec fn fingerprint_of(v: Self::V) -> u64;

    fn fingerprint(&self) -> (r: u64)
        ensures
            r == Self::fingerprint_of(self@),
    ;

    fn same(&self, other: &Self) -> (r: bool)
        ensures
            r == (self@ == other@),
    ;

    fn duplicate(&self) -> (r: Self)
        ensures
            r@ == self@,
    ;
}

/// One round of the fingerprint digest: multiply by 31, add the word,
/// both modulo 2^64.
pub open spec fn mix(h: u64, w: u64) -> u64 {
    vstd::wrapping::u64_specs::wrapping_add(vstd::wrapping::u64_specs::wrapping_mul(h, 31), w)
}

/// The 64-bit digest of a sequence of words, folded from the left.
pub open spec fn digest(words: Seq<u64>) -> u64
    decreases words.len(),
{
    if words.len() == 0 {
        0
    } else {
        mix(digest(words.drop_last()), words.last())
    }
}

/// Folds the words of a state's canonical encoding into a fingerprint.
pub fn hash(words: &Vec<u64>) -> (r: u64)
    ensures
        r == digest(words@),
{
    let mut h: u64 = 0;
    let mut i: usize = 0;
    while i < words.len()
        invariant
            0 <= i <= words@.len(),
            h == digest(words@.subrange(0, i as int)),
        decreases words@.len() - i,
    {
        assert(words@.subrange(0, i + 1).drop_last() =~= words@.subrange(0, i as int));
        h = h.wrapping_mul(31).wrapping_add(words[i]);
        i = i + 1;
    }
    assert(words@.subrange(0, words@.len() as int) =~= words@);
    h
}

/// A rule that turns the current state and one candidate value into a
/// successor, used by `Successors::there_exists`.
pub trait Branch<S: View, V> {
    /// The rule is defined on state `s` and candidate `v`.
    spec fn admits(&self, s: S::V, v: V) -> bool;

    spec fn outcome(&self, s: S::V, v: V) -> S::V;

    fn apply(&self, s: &mut S, v: V)
        requires
            self.admits(old(s)@, v),
        ensures
            final(s)@ == self.outcome(old(s)@, v),
    ;
}

/// A named nondeterministic transition. One application on a state yields
/// the states proposed through the branching context, followed by the
/// state that the action left in place. An action that is not defined on a
/// state (it reads a key the state lacks, or leaves the range of its
/// numbers) says so by returning `false`: a fault of the specification.
pub trait Transition<S: View> {
    spec fn enabled(&self, s: S::V) -> bool;

    spec fn successors(&self, s: S::V) -> Seq<S::V>;

    fn apply(&self, ctx: &mut Successors<S>, s: &mut S) -> (ok: bool)
        requires
            old(ctx).current_view() == old(s)@,
            old(ctx).found_views().len() == 0,
        ensures
            ok == self.enabled(old(s)@),
            ok ==> final(ctx).found_views().push(final(s)@) == self.successors(old(s)@),
    ;
}

/// A named safety predicate.
pub trait Predicate<S: View> {
    spec fn holds(&self, s: S::V) -> bool;

    fn check(&self, s: &S) -> (r: bool)
        ensures
            r == self.holds(s@),
    ;
}

/// The context handed to an action: the state that was current when the
/// step began, and the successors proposed so far.
pub struct Successors<S> {
    current: S,
    found: Vec<S>,
}

pub open spec fn views_of<S: View>(xs: Seq<S>) -> Seq<S::V> {
    xs.map_values(|x: S| x@)
}

impl<S: View> Successors<S> {
    pub closed spec fn current_view(&self) -> S::V {
        self.current@
    }

    pub closed spec fn found_views(&self) -> Seq<S::V> {
        views_of(self.found@)
    }

    /// The successors proposed so far, in order.
    pub fn proposed(&self) -> (r: &Vec<S>)
        ensures
            views_of(r@) == self.found_views(),
    {
        &self.found
    }

    pub fn new(current: S) -> (r: Self)
        ensures
            r.current_view() == current@,
            r.found_views().len() == 0,
    {
        Successors { current, found: Vec::new() }
    }

    /// Existential branching: for every candidate, in order, the rule is
    /// applied to a fresh copy of the current state and the result is
    /// proposed as a successor.
    pub fn there_exists<V: Copy, R: Branch<S, V>>(&mut self, xs: Vec<V>, rule: &R)
        where S: ModelState,
        requires
            forall|i: int| 0 <= i < xs@.len() ==> rule.admits(old(self).current_view(), #[trigger] xs@[i]),
        ensures
            final(self).current_view() == old(self).current_view(),
            final(self).found_views() == old(self).found_views() + Seq::new(
                xs@.len(),
                |i: int| rule.outcome(old(self).current_view(), xs@[i]),
            ),
    {
        let ghost start = views_of(self.found@);
        let mut i: usize = 0;
        while i < xs.len()
            invariant
                i <= xs@.len(),
                self.current@ == old(self).current@,
                forall|j: int| 0 <= j < xs@.len() ==> rule.admits(old(self).current_view(), #[trigger] xs@[j]),
                views_of(self.found@) == start + Seq::new(
                    i as nat,
                    |j: int| rule.outcome(old(self).current@, xs@[j]),
                ),
            decreases xs@.len() - i,
        {
            let mut t = self.current.duplicate();
            rule.apply(&mut t, xs[i]);
            let ghost before = self.found@;
            self.found.push(t);
            assert(views_of(self.found@) =~= views_of(before).push(t@));
            assert(views_of(self.found@) =~= start + Seq::new(
                (i + 1) as nat,
                |j: int| rule.outcome(old(self).current@, xs@[j]),
            ));
            i = i + 1;
        }
    }
}


/// A registered action: its name and its transition.
pub struct Action<A> {
    pub name: String,
    pub f: A,
}

/// A registered invariant: its name and its predicate.
pub struct Invariant<I> {
    pub name: String,
    pub f: I,
}

/// One discovered state: the action that produced it, the index of the
/// node it was produced from (none for the initial state), and the state.
pub struct Pending<S> {
    pub generated_by_action: String,
    pub previous: Option<usize>,
    pub current: S,
}

/// What an exploration ends with.
pub enum Outcome<S> {
    /// Every reachable state was explored and satisfies every invariant.
    Exhausted,
    /// The named invariant fails on the last state of the trace, which
    /// runs from the initial state through the actions that led there.
    Violation { violated: String, trace: Vec<(String, S)> },
    /// The named action is not defined on the last state of the path, which
    /// runs from the initial state: the specification is at fault, and
    /// exploration stops there.
    Fault { action: String, path: Vec<(String, S)> },
}

/// Breadth-first explicit-state explorer. `explored` is the arena of
/// discovered states in discovery order; the nodes from the current
/// position on form the worklist. `seen` holds the fingerprint of each
/// node, position for position, and `buckets` the positions of the nodes
/// under each fingerprint; `depths`, `via` and `slot` record, for the
/// proofs, the number of actions from the initial state to each node, the
/// index of the action that produced it, and its position among that
/// action's successors.
pub struct ModelChecker<S, A, I> {
    pub actions: Vec<Action<A>>,
    pub invariants: Vec<Invariant<I>>,
    pub explored: Vec<Pending<S>>,
    pub seen: Vec<u64>,
    pub buckets: HashMap<u64, Vec<usize>>,
    pub depths: Ghost<Seq<nat>>,
    pub via: Ghost<Seq<int>>,
    pub slot: Ghost<Seq<int>>,
}

/// Successor `k1` of action `a1` of node `i1` is produced before successor
/// `k2` of action `a2` of node `i2`: nodes are expanded in order, actions
/// in registration order, successors in the order the action yields them.
pub open spec fn triple_before(i1: int, a1: int, k1: int, i2: int, a2: int, k2: int) -> bool {
    i1 < i2 || (i1 == i2 && (a1 < a2 || (a1 == a2 && k1 < k2)))
}

/// The label of the initial state in a trace.
pub open spec fn root_label() -> Seq<char> {
    seq!['I', 'n', 'i', 't']
}

impl<S: ModelState, A: Transition<S>, I: Predicate<S>> ModelChecker<S, A, I> {
    /// The states that action `a` yields from `s`.
    pub open spec fn succ(&self, a: int, s: S::V) -> Seq<S::V> {
        self.actions@[a].f.successors(s)
    }

    /// `t` is one step away from `s`.
    pub open spec fn next(&self, s: S::V, t: S::V) -> bool {
        exists|a: int, k: int|
            0 <= a < self.actions@.len() && 0 <= k < self.succ(a, s).len() && #[trigger] self.succ(
                a,
                s,
            )[k] == t
    }

    /// Every registered invariant holds of `s`.
    pub open spec fn safe(&self, s: S::V) -> bool {
        forall|i: int| 0 <= i < self.invariants@.len() ==> #[trigger] self.invariants@[i].f.holds(s)
    }

    pub open spec fn linked(&self, p: Seq<S::V>, k: int) -> bool {
        self.next(p[k], p[k + 1])
    }

    /// `p` is a sequence of states that starts at `init` and follows the
    /// actions; it has `p.len() - 1` steps.
    pub open spec fn is_run(&self, init: S::V, p: Seq<S::V>) -> bool {
        &&& p.len() >= 1
        &&& p[0] == init
        &&& forall|k: int| 0 <= k < p.len() - 1 ==> #[trigger] self.linked(p, k)
    }

    /// `to` is produced from `from` by the action that `to` is labelled with.
    pub open spec fn labelled_step(&self, from: (String, S), to: (String, S)) -> bool {
        exists|a: int|
            0 <= a < self.actions@.len() && #[trigger] self.actions@[a].name@ == to.0@ && self.succ(
                a,
                from.1@,
            ).contains(to.1@)
    }

    pub open spec fn trace_linked(&self, tr: Seq<(String, S)>, k: int) -> bool {
        self.labelled_step(tr[k], tr[k + 1])
    }

    /// `tr` starts with the initial state under the root label, and each
    /// later entry is produced from the one before by the action it names.
    pub open spec fn is_trace(&self, init: S::V, tr: Seq<(String, S)>) -> bool {
        &&& tr.len() >= 1
        &&& tr[0].0@ == root_label()
        &&& tr[0].1@ == init
        &&& forall|k: int| 0 <= k < tr.len() - 1 ==> #[trigger] self.trace_linked(tr, k)
    }

    /// No two explored nodes hold the same state.
    pub open spec fn explored_distinct(&self) -> bool {
        forall|i: int, j: int|
            0 <= i < j < self.explored@.len() ==> #[trigger] self.explored@[i].current@
                != #[trigger] self.explored@[j].current@
    }

    pub open spec fn back_linked(&self, tr: Seq<(String, S)>, m: int) -> bool {
        self.labelled_step(tr[m + 1], tr[m])
    }

    /// Every registered action is defined on `s`.
    pub open spec fn all_enabled(&self, s: S::V) -> bool {
        forall|b: int| 0 <= b < self.actions@.len() ==> #[trigger] self.actions@[b].f.enabled(s)
    }

    /// Action `a` is the first registered one that is not defined on `s`.
    pub open spec fn first_disabled(&self, a: int, s: S::V) -> bool {
        &&& 0 <= a < self.actions@.len()
        &&& !self.actions@[a].f.enabled(s)
        &&& forall|b: int| 0 <= b < a ==> #[trigger] self.actions@[b].f.enabled(s)
    }

    /// Invariant `i` is the first registered one that fails on `s`.
    pub open spec fn first_failing(&self, i: int, s: S::V) -> bool {
        &&& 0 <= i < self.invariants@.len()
        &&& !self.invariants@[i].f.holds(s)
        &&& forall|m: int| 0 <= m < i ==> #[trigger] self.invariants@[m].f.holds(s)
    }

    /// `t` is the last state of some run from `init`.
    pub open spec fn reachable(&self, init: S::V, t: S::V) -> bool {
        exists|p: Seq<S::V>| #[trigger] self.is_run(init, p) && p.last() == t
    }

    /// Every node is reached from the initial state by a run of as many
    /// steps as its depth.
    proof fn lemma_node_reachable(&self, init: S::V, head: int, j: int)
        requires
            self.links_ok(init, head),
            0 <= j < self.explored@.len(),
        ensures
            exists|p: Seq<S::V>|
                #[trigger] self.is_run(init, p) && p.last() == self.node(j) && p.len() == self.depths@[j] + 1,
        decreases j,
    {
        if j == 0 {
            let p = seq![init];
            assert(self.is_run(init, p));
        } else {
            assert(self.node_linked(j, head));
            let pj = self.parent(j);
            self.lemma_node_reachable(init, head, pj);
            let q = choose|q: Seq<S::V>|
                #[trigger] self.is_run(init, q) && q.last() == self.node(pj) && q.len() == self.depths@[pj] + 1;
            let p = q.push(self.node(j));
            let a = self.via@[j];
            let k = choose|k: int|
                0 <= k < self.succ(a, self.node(pj)).len() && self.succ(a, self.node(pj))[k] == self.node(j);
            assert forall|m: int| 0 <= m < p.len() - 1 implies #[trigger] self.linked(p, m) by {
                if m < q.len() - 1 {
                    assert(self.linked(q, m));
                } else {
                    assert(self.succ(a, p[m])[k] == p[m + 1]);
                }
            }
            assert(self.is_run(init, p));
        }
    }

    proof fn lemma_all_reachable(&self, init: S::V, head: int)
        requires
            self.links_ok(init, head),
        ensures
            forall|j: int|
                0 <= j < self.explored@.len() ==> self.reachable(init, #[trigger] self.explored@[j].current@),
    {
        assert forall|j: int| 0 <= j < self.explored@.len() implies self.reachable(
            init,
            #[trigger] self.explored@[j].current@,
        ) by {
            self.lemma_node_reachable(init, head, j);
        }
    }

    /// The node reached from node `j` by following `d` links to parents.
    pub open spec fn ancestor(&self, j: int, d: nat) -> int
        decreases d,
    {
        if d == 0 {
            j
        } else {
            self.parent(self.ancestor(j, (d - 1) as nat))
        }
    }

    /// `e` holds the label and the state of node `x`.
    pub open spec fn entry_is(&self, e: (String, S), x: int) -> bool {
        &&& 0 <= x < self.explored@.len()
        &&& e.0@ == self.explored@[x].generated_by_action@
        &&& e.1@ == self.node(x)
    }

    /// `tr` is the chain of node `h`'s ancestors, from the root down to `h`,
    /// each entry holding that node's label and state.
    pub open spec fn is_chain_of(&self, h: int, tr: Seq<(String, S)>) -> bool {
        &&& tr.len() >= 1
        &&& self.ancestor(h, (tr.len() - 1) as nat) == 0
        &&& forall|k: int|
            0 <= k < tr.len() ==> self.entry_is(#[trigger] tr[k], self.ancestor(h, (tr.len() - 1 - k) as nat))
    }

    /// Node `h` is the first explored node on which an invariant fails,
    /// every node before it has been expanded, and `tr` is its chain.
    pub open spec fn violation_at(&self, h: int, tr: Seq<(String, S)>) -> bool {
        &&& 0 <= h < self.explored@.len()
        &&& forall|i: int| 0 <= i < h ==> #[trigger] self.safe(self.node(i))
        &&& forall|i: int| 0 <= i < h ==> #[trigger] self.all_enabled(self.node(i))
        &&& !self.safe(self.node(h))
        &&& self.discovery_ordered(h, 0, 0)
        &&& forall|i: int, b: int, m: int|
            0 <= i < h && 0 <= b < self.actions@.len() && 0 <= m < self.succ(b, self.node(i)).len()
                ==> #[trigger] self.covered(i, b, m)
        &&& self.is_chain_of(h, tr)
    }

    /// Node `h` is the first explored node on which an action is not
    /// defined, action `a` the first such action on it; every node before it
    /// has been expanded, and `tr` is its chain.
    pub open spec fn fault_at(&self, h: int, a: int, tr: Seq<(String, S)>) -> bool {
        &&& 0 <= h < self.explored@.len()
        &&& forall|i: int| 0 <= i < h ==> #[trigger] self.safe(self.node(i))
        &&& forall|i: int| 0 <= i < h ==> #[trigger] self.all_enabled(self.node(i))
        &&& self.safe(self.node(h))
        &&& self.first_disabled(a, self.node(h))
        &&& self.discovery_ordered(h, a, 0)
        &&& forall|i: int, b: int, m: int|
            0 <= i < self.explored@.len() && 0 <= b < self.actions@.len() && 0 <= m < self.succ(
                b,
                self.node(i),
            ).len() && (i < h || (i == h && b < a)) ==> #[trigger] self.covered(i, b, m)
        &&& self.is_chain_of(h, tr)
    }

    /// What `run` from `init` promises of its result `r`.
    pub open spec fn outcome_ok(&self, init: S::V, r: Outcome<S>) -> bool {
        &&& r is Exhausted ==> forall|p: Seq<S::V>| #[trigger]
            self.is_run(init, p) ==> self.safe(p.last())
        &&& r is Exhausted ==> forall|p: Seq<S::V>| #[trigger]
            self.is_run(init, p) ==> exists|j: int|
                0 <= j < self.explored@.len() && #[trigger] self.explored@[j].current@ == p.last()
        &&& r is Exhausted ==> forall|p: Seq<S::V>| #[trigger]
            self.is_run(init, p) ==> self.all_enabled(p.last())
        &&& r is Fault ==> self.is_trace(init, r->path@)
        &&& r is Fault ==> exists|a: int|
            #[trigger] self.first_disabled(a, r->path@.last().1@) && r->action@
                == self.actions@[a].name@
        &&& r is Violation ==> self.is_trace(init, r->trace@)
        &&& r is Violation ==> exists|i: int|
            #[trigger] self.first_failing(i, r->trace@.last().1@) && r->violated@
                == self.invariants@[i].name@
        &&& r is Violation ==> forall|p: Seq<S::V>| #[trigger]
            self.is_run(init, p) && !self.safe(p.last()) ==> p.len() >= r->trace@.len()
    }

    /// The states of a trace, without their labels.
    pub open spec fn trace_states(tr: Seq<(String, S)>) -> Seq<S::V> {
        tr.map_values(|e: (String, S)| e.1@)
    }

    /// The states of a trace form a run of as many steps.
    pub proof fn lemma_trace_is_run(&self, init: S::V, tr: Seq<(String, S)>)
        requires
            self.is_trace(init, tr),
        ensures
            self.is_run(init, Self::trace_states(tr)),
            Self::trace_states(tr).len() == tr.len(),
            Self::trace_states(tr).last() == tr.last().1@,
    {
        let p = Self::trace_states(tr);
        assert forall|k: int| 0 <= k < p.len() - 1 implies #[trigger] self.linked(p, k) by {
            assert(self.trace_linked(tr, k));
            let a = choose|a: int|
                0 <= a < self.actions@.len() && #[trigger] self.actions@[a].name@ == tr[k + 1].0@
                    && self.succ(a, tr[k].1@).contains(tr[k + 1].1@);
            let m = choose|m: int|
                0 <= m < self.succ(a, tr[k].1@).len() && self.succ(a, tr[k].1@)[m] == tr[k + 1].1@;
            assert(self.succ(a, p[k])[m] == p[k + 1]);
        }
    }

    /// Determinism of the outcome: of two explorations of the same
    /// specification from the same initial state, both are exhaustive or
    /// neither is, and two reported violations have traces of the same
    /// length.
    pub proof fn lemma_outcome_determined(&self, init: S::V, r1: Outcome<S>, r2: Outcome<S>)
        requires
            self.outcome_ok(init, r1),
            self.outcome_ok(init, r2),
        ensures
            r1 is Exhausted <==> r2 is Exhausted,
            r1 is Violation && r2 is Violation ==> r1->trace@.len() == r2->trace@.len(),
    {
        if r1 is Violation {
            self.lemma_trace_is_run(init, r1->trace@);
            let i = choose|i: int|
                #[trigger] self.first_failing(i, r1->trace@.last().1@) && r1->violated@
                    == self.invariants@[i].name@;
            assert(!self.safe(Self::trace_states(r1->trace@).last()));
        }
        if r2 is Violation {
            self.lemma_trace_is_run(init, r2->trace@);
            let i = choose|i: int|
                #[trigger] self.first_failing(i, r2->trace@.last().1@) && r2->violated@
                    == self.invariants@[i].name@;
            assert(!self.safe(Self::trace_states(r2->trace@).last()));
        }
        if r1 is Fault {
            self.lemma_trace_is_run(init, r1->path@);
            let a = choose|a: int|
                #[trigger] self.first_disabled(a, r1->path@.last().1@) && r1->action@
                    == self.actions@[a].name@;
            assert(!self.all_enabled(Self::trace_states(r1->path@).last()));
        }
        if r2 is Fault {
            self.lemma_trace_is_run(init, r2->path@);
            let a = choose|a: int|
                #[trigger] self.first_disabled(a, r2->path@.last().1@) && r2->action@
                    == self.actions@[a].name@;
            assert(!self.all_enabled(Self::trace_states(r2->path@).last()));
        }
    }

    /// The state of node `j`.
    pub open spec fn node(&self, j: int) -> S::V {
        self.explored@[j].current@
    }

    /// The index of the node that node `j` was produced from.
    pub open spec fn parent(&self, j: int) -> int {
        self.explored@[j].previous.unwrap() as int
    }

    spec fn node_linked(&self, j: int, head: int) -> bool {
        let p = self.parent(j);
        let a = self.via@[j];
        &&& self.explored@[j].previous is Some
        &&& 0 <= p < j
        &&& p <= head
        &&& self.depths@[j] == self.depths@[p] + 1
        &&& 0 <= a < self.actions@.len()
        &&& self.actions@[a].name@ == self.explored@[j].generated_by_action@
        &&& self.succ(a, self.node(p)).contains(self.node(j))
        &&& 0 <= self.slot@[j] < self.succ(a, self.node(p)).len()
        &&& self.succ(a, self.node(p))[self.slot@[j]] == self.node(j)
    }

    /// Node `j` is listed under fingerprint `f`.
    pub open spec fn in_bucket(&self, f: u64, j: int) -> bool {
        &&& self.buckets@.contains_key(f)
        &&& exists|x: int| 0 <= x < self.buckets@[f]@.len() && self.buckets@[f]@[x] as int == j
    }

    spec fn links_ok(&self, init: S::V, head: int) -> bool {
        let n = self.explored@;
        &&& n.len() >= 1
        &&& self.depths@.len() == n.len()
        &&& self.via@.len() == n.len()
        &&& self.slot@.len() == n.len()
        &&& self.seen@.len() == n.len()
        &&& forall|j: int| 0 <= j < n.len() ==> #[trigger] self.seen@[j] == S::fingerprint_of(
            n[j].current@,
        )
        &&& forall|j: int|
            0 <= j < n.len() ==> self.in_bucket(#[trigger] self.seen@[j], j)
        &&& forall|f: u64, x: int|
            #![trigger self.buckets@[f]@[x]]
            self.buckets@.contains_key(f) && 0 <= x < self.buckets@[f]@.len() ==> self.buckets@[f]@[x] < n.len()
        &&& n[0].previous is None
        &&& n[0].current@ == init
        &&& n[0].generated_by_action@ == root_label()
        &&& self.depths@[0] == 0
        &&& forall|j: int| 0 < j < n.len() ==> #[trigger] self.node_linked(j, head)
    }

    /// Successor `k` of action `a` of node `i` is held by an explored node.
    pub open spec fn covered(&self, i: int, a: int, k: int) -> bool {
        exists|j: int|
            0 <= j < self.explored@.len() && #[trigger] self.node(j) == self.succ(a, self.node(i))[k]
                && self.depths@[j] <= self.depths@[i] + 1
    }

    /// The order of discovery, when successor `k` of action `a` of node
    /// `head` is next: every node but the root was produced, by the
    /// successor it records, before that point and after the nodes before
    /// it; and no successor produced before it yields its state.
    pub open spec fn discovery_ordered(&self, head: int, a: int, k: int) -> bool {
        let n = self.explored@;
        &&& forall|x: int, y: int|
            #![trigger self.parent(x), self.parent(y)]
            0 < x < y < n.len() ==> triple_before(
                self.parent(x),
                self.via@[x],
                self.slot@[x],
                self.parent(y),
                self.via@[y],
                self.slot@[y],
            )
        &&& forall|y: int|
            0 < y < n.len() ==> triple_before(
                #[trigger] self.parent(y),
                self.via@[y],
                self.slot@[y],
                head,
                a,
                k,
            )
        &&& forall|y: int, i: int, b: int, m: int|
            #![trigger self.succ(b, self.node(i))[m], self.node(y)]
            0 < y < n.len() && 0 <= i < n.len() && 0 <= b < self.actions@.len() && 0 <= m
                < self.succ(b, self.node(i)).len() && triple_before(
                i,
                b,
                m,
                self.parent(y),
                self.via@[y],
                self.slot@[y],
            ) ==> self.succ(b, self.node(i))[m] != self.node(y)
    }

    /// The search state when node `head` is being expanded and every
    /// successor before successor `k` of action `a` of it has been handled.
    spec fn search_inv(&self, init: S::V, head: int, a: int, k: int) -> bool {
        let n = self.explored@;
        &&& self.links_ok(init, head)
        &&& self.discovery_ordered(head, a, k)
        &&& 0 <= head <= n.len()
        &&& self.explored_distinct()
        &&& forall|i: int| 0 <= i < head ==> #[trigger] self.safe(self.node(i))
        &&& forall|i: int| 0 <= i < head ==> #[trigger] self.all_enabled(self.node(i))
        &&& forall|i: int, b: int, m: int|
            0 <= i < n.len() && 0 <= b < self.actions@.len() && 0 <= m < self.succ(
                b,
                self.node(i),
            ).len() && (i < head || (i == head && (b < a || (b == a && m < k))))
                ==> #[trigger] self.covered(i, b, m)
        &&& forall|i: int, j: int|
            0 <= i <= j < n.len() ==> #[trigger] self.depths@[i] <= #[trigger] self.depths@[j]
        &&& forall|i: int, j: int|
            head <= i < n.len() && 0 <= j < n.len() ==> #[trigger] self.depths@[j] <= #[trigger] self.depths@[i] + 1
    }

    pub fn new() -> (r: Self)
        ensures
            r.actions@.len() == 0,
            r.invariants@.len() == 0,
            r.explored@.len() == 0,
            r.seen@.len() == 0,
            r.buckets@ == Map::<u64, Vec<usize>>::empty(),
    {
        ModelChecker {
            actions: Vec::new(),
            invariants: Vec::new(),
            explored: Vec::new(),
            seen: Vec::new(),
            buckets: HashMap::new(),
            depths: Ghost(Seq::empty()),
            via: Ghost(Seq::empty()),
            slot: Ghost(Seq::empty()),
        }
    }

    /// Registers an action after those already registered.
    pub fn action(&mut self, name: &str, f: A)
        ensures
            final(self).actions@.len() == old(self).actions@.len() + 1,
            forall|i: int|
                0 <= i < old(self).actions@.len() ==> #[trigger] final(self).actions@[i]
                    == old(self).actions@[i],
            final(self).actions@.last().name@ == name@,
            final(self).actions@.last().f == f,
            final(self).invariants == old(self).invariants,
            final(self).explored == old(self).explored,
            final(self).seen == old(self).seen,
            final(self).buckets == old(self).buckets,
    {
        self.actions.push(Action { name: name.to_string(), f });
    }

    /// Registers an invariant after those already registered.
    pub fn add_invariant(&mut self, name: &str, f: I)
        ensures
            final(self).invariants@.len() == old(self).invariants@.len() + 1,
            forall|i: int|
                0 <= i < old(self).invariants@.len() ==> #[trigger] final(self).invariants@[i]
                    == old(self).invariants@[i],
            final(self).invariants@.last().name@ == name@,
            final(self).invariants@.last().f == f,
            final(self).actions == old(self).actions,
            final(self).explored == old(self).explored,
            final(self).seen == old(self).seen,
            final(self).buckets == old(self).buckets,
    {
        self.invariants.push(Invariant { name: name.to_string(), f });
    }

    /// Handles successor `k` of action `a` of node `head`: the state is
    /// appended as a new node unless an explored node already holds it.
    fn discover(&mut self, c: S, head: usize, a: usize, Ghost(k): Ghost<int>, Ghost(init): Ghost<S::V>)
        requires
            old(self).search_inv(init, head as int, a as int, k),
            head < old(self).explored@.len(),
            a < old(self).actions@.len(),
            0 <= k < old(self).succ(a as int, old(self).node(head as int)).len(),
            c@ == old(self).succ(a as int, old(self).node(head as int))[k],
        ensures
            final(self).search_inv(init, head as int, a as int, k + 1),
            final(self).actions == old(self).actions,
            final(self).invariants == old(self).invariants,
            final(self).explored@.len() >= old(self).explored@.len(),
            forall|j: int|
                0 <= j < old(self).explored@.len() ==> #[trigger] final(self).explored@[j]
                    == old(self).explored@[j],
            old(self).explored@.len() <= final(self).explored@.len(),
            final(self).explored@.subrange(0, old(self).explored@.len() as int) =~= old(self).explored@,
            final(self).seen@.subrange(0, old(self).seen@.len() as int) =~= old(self).seen@,
            final(self).depths@.subrange(0, old(self).depths@.len() as int) =~= old(self).depths@,
            forall|j: int|
                old(self).explored@.len() <= j < final(self).explored@.len() ==> {
                    &&& #[trigger] final(self).explored@[j].previous == Some(head)
                    &&& final(self).depths@[j] == final(self).depths@[head as int] + 1
                },
            (exists|j: int| 0 <= j < old(self).explored@.len() && #[trigger] old(self).node(j) == c@)
                ==> final(self).explored@ == old(self).explored@,
            !(exists|j: int| 0 <= j < old(self).explored@.len() && #[trigger] old(self).node(j) == c@)
                ==> {
                &&& final(self).explored@.len() == old(self).explored@.len() + 1
                &&& final(self).explored@.last().current@ == c@
                &&& final(self).explored@.last().previous == Some(head)
                &&& final(self).explored@.last().generated_by_action == old(self).actions@[a as int].name
            },
    {
        let fp = c.fingerprint();
        let mut bucket: Vec<usize> = Vec::new();
        match self.buckets.get(&fp) {
            Some(b) => {
                let mut i: usize = 0;
                while i < b.len()
                    invariant
                        0 <= i <= b@.len(),
                        *self == *old(self),
                        self.search_inv(init, head as int, a as int, k),
                        head < self.explored@.len(),
                        a < self.actions@.len(),
                        0 <= k < self.succ(a as int, self.node(head as int)).len(),
                        c@ == self.succ(a as int, self.node(head as int))[k],
                        fp == S::fingerprint_of(c@),
                        self.buckets@.contains_key(fp),
                        b@ == self.buckets@[fp]@,
                        bucket@ == b@.subrange(0, i as int),
                        forall|m: int| 0 <= m < i ==> self.node(#[trigger] b@[m] as int) != c@,
                    decreases b@.len() - i,
                {
                    let x = b[i];
                    assert(self.buckets@[fp]@[i as int] < self.explored@.len());
                    if self.explored[x].current.same(&c) {
                        proof {
                            assert(self.node(x as int) == self.succ(a as int, self.node(head as int))[k]);
                            assert(self.covered(head as int, a as int, k));
                        }
                        return;
                    }
                    bucket.push(x);
                    i = i + 1;
                    assert(bucket@ =~= b@.subrange(0, i as int));
                }
                assert(bucket@ =~= b@);
                proof {
                    assert forall|m: int| 0 <= m < self.explored@.len() implies #[trigger] self.node(m) != c@ by {
                        if self.node(m) == c@ {
                            assert(self.seen@[m] == fp);
                            assert(self.in_bucket(fp, m));
                            let x = choose|x: int| 0 <= x < b@.len() && b@[x] as int == m;
                            assert(self.node(b@[x] as int) != c@);
                        }
                    }
                }
            },
            None => {
                proof {
                    assert forall|m: int| 0 <= m < self.explored@.len() implies #[trigger] self.node(m) != c@ by {
                        if self.node(m) == c@ {
                            assert(self.seen@[m] == fp);
                        }
                    }
                }
            },
        }
        let ghost prior = if self.buckets@.contains_key(fp) { self.buckets@[fp]@ } else { Seq::empty() };
        assert(bucket@ == prior);
        let ghost pre = *self;
        let ghost len = self.explored@.len() as int;
        let name = self.actions[a].name.clone();
        self.explored.push(Pending { generated_by_action: name, previous: Some(head), current: c });
        self.seen.push(fp);
        bucket.push(self.explored.len() - 1);
        self.buckets.insert(fp, bucket);
        self.depths = Ghost(self.depths@.push(self.depths@[head as int] + 1));
        self.via = Ghost(self.via@.push(a as int));
        self.slot = Ghost(self.slot@.push(k));
        proof {
            assert forall|i: int| 0 <= i < len implies #[trigger] self.node(i) == pre.node(i) by {}
            assert(self.node(len) == self.succ(a as int, self.node(head as int))[k]);
            assert(self.node_linked(len, head as int));
            assert forall|j: int| 0 < j < self.explored@.len() implies #[trigger] self.node_linked(
                j,
                head as int,
            ) by {
                if j < len {
                    assert(pre.node_linked(j, head as int));
                }
            }
            assert forall|j: int| 0 <= j < self.explored@.len() implies #[trigger] self.seen@[j]
                == S::fingerprint_of(self.explored@[j].current@) by {
                if j < len {
                    assert(pre.seen@[j] == S::fingerprint_of(pre.explored@[j].current@));
                }
            }
            assert forall|j: int| 0 <= j < self.explored@.len() implies self.in_bucket(
                #[trigger] self.seen@[j],
                j,
            ) by {
                if j < len {
                    assert(pre.in_bucket(pre.seen@[j], j));
                    if pre.seen@[j] == fp {
                        let x = choose|x: int| 0 <= x < prior.len() && prior[x] as int == j;
                        assert(self.buckets@[fp]@[x] as int == j);
                    } else {
                        let x = choose|x: int|
                            0 <= x < pre.buckets@[pre.seen@[j]]@.len() && pre.buckets@[pre.seen@[j]]@[x] as int == j;
                        assert(self.buckets@[self.seen@[j]]@[x] as int == j);
                    }
                } else {
                    assert(self.buckets@[fp]@[prior.len() as int] as int == j);
                }
            }
            assert forall|f: u64, x: int|
                self.buckets@.contains_key(f) && 0 <= x < self.buckets@[f]@.len() implies #[trigger] self.buckets@[f]@[x]
                < self.explored@.len() by {
                if f == fp {
                    if x < prior.len() {
                        assert(pre.buckets@[f]@[x] < len);
                    }
                } else {
                    assert(pre.buckets@[f]@[x] < len);
                }
            }
            assert(self.links_ok(init, head as int));
            assert(pre.discovery_ordered(head as int, a as int, k));
            assert forall|x: int, y: int| 0 < x < y < self.explored@.len() implies triple_before(
                self.parent(x),
                self.via@[x],
                self.slot@[x],
                self.parent(y),
                self.via@[y],
                self.slot@[y],
            ) by {
                if y < len {
                    assert(pre.parent(x) == self.parent(x) && pre.parent(y) == self.parent(y));
                } else {
                    assert(pre.parent(x) == self.parent(x));
                }
            }
            assert forall|y: int| 0 < y < self.explored@.len() implies triple_before(
                #[trigger] self.parent(y),
                self.via@[y],
                self.slot@[y],
                head as int,
                a as int,
                k + 1,
            ) by {
                if y < len {
                    assert(pre.parent(y) == self.parent(y));
                }
            }
            assert forall|y: int, i: int, b: int, m: int|
                0 < y < self.explored@.len() && 0 <= i < self.explored@.len() && 0 <= b
                    < self.actions@.len() && 0 <= m < self.succ(b, self.node(i)).len()
                    && triple_before(i, b, m, self.parent(y), self.via@[y], self.slot@[y])
                implies #[trigger] self.succ(b, self.node(i))[m] != #[trigger] self.node(y) by {
                if y < len {
                    assert(pre.parent(y) == self.parent(y));
                    assert(pre.succ(b, pre.node(i))[m] != pre.node(y));
                } else {
                    assert(pre.covered(i, b, m));
                    let w = choose|w: int|
                        0 <= w < pre.explored@.len() && #[trigger] pre.node(w) == pre.succ(
                            b,
                            pre.node(i),
                        )[m] && pre.depths@[w] <= pre.depths@[i] + 1;
                    assert(pre.node(w) != c@);
                }
            }
            assert(self.discovery_ordered(head as int, a as int, k + 1));
            assert forall|i: int| 0 <= i < head implies #[trigger] self.safe(self.node(i)) by {
                assert(pre.safe(pre.node(i)));
            }
            assert forall|i: int| 0 <= i < head implies #[trigger] self.all_enabled(self.node(i)) by {
                assert(pre.all_enabled(pre.node(i)));
            }
            assert(self.explored_distinct()) by {
                assert forall|x: int, y: int| 0 <= x < y < self.explored@.len() implies #[trigger] self.explored@[x].current@
                    != #[trigger] self.explored@[y].current@ by {
                    if y == len {
                        assert(self.node(x) != c@);
                    } else {
                        assert(pre.explored@[x].current@ != pre.explored@[y].current@);
                    }
                }
            }
            assert forall|i: int, b: int, m: int|
                0 <= i < self.explored@.len() && 0 <= b < self.actions@.len() && 0 <= m
                    < self.succ(b, self.node(i)).len() && (i < head || (i == head && (b < a || (b
                    == a && m < k + 1)))) implies #[trigger] self.covered(i, b, m) by {
                if i == head && b == a && m == k {
                    assert(self.node(len) == self.succ(b, self.node(i))[m]);
                } else {
                    assert(pre.covered(i, b, m));
                    let w = choose|w: int|
                        0 <= w < pre.explored@.len() && #[trigger] pre.node(w) == pre.succ(
                            b,
                            pre.node(i),
                        )[m] && pre.depths@[w] <= pre.depths@[i] + 1;
                    assert(self.node(w) == self.succ(b, self.node(i))[m]);
                }
            }
            assert forall|x: int, y: int| 0 <= x <= y < self.explored@.len() implies #[trigger] self.depths@[x]
                <= #[trigger] self.depths@[y] by {
                if y == len && x < len {
                    assert(pre.depths@[x] <= pre.depths@[head as int] + 1);
                } else {
                    assert(pre.depths@[x] <= pre.depths@[y]);
                }
            }
            assert forall|x: int, y: int|
                head <= x < self.explored@.len() && 0 <= y < self.explored@.len() implies #[trigger] self.depths@[y]
                <= #[trigger] self.depths@[x] + 1 by {
                if x == len && y < len {
                    assert(pre.depths@[y] <= pre.depths@[head as int] + 1);
                } else if y == len && x < len {
                    assert(pre.depths@[head as int] <= pre.depths@[x]);
                } else if x < len && y < len {
                    assert(pre.depths@[y] <= pre.depths@[x] + 1);
                }
            }
        }
    }

    /// Expands the node at `head`: checks the invariants in registration
    /// order and returns the first that fails; otherwise applies every
    /// action in registration order and discovers what it yields.
    fn step(&mut self, head: usize, Ghost(init): Ghost<S::V>) -> (r: Option<(bool, usize)>)
        requires
            old(self).search_inv(init, head as int, 0, 0),
            head < old(self).explored@.len(),
        ensures
            final(self).actions == old(self).actions,
            final(self).invariants == old(self).invariants,
            match r {
                Some((true, i)) => {
                    &&& *final(self) == *old(self)
                    &&& final(self).first_failing(i as int, final(self).node(head as int))
                },
                Some((false, a)) => {
                    &&& final(self).safe(final(self).node(head as int))
                    &&& final(self).first_disabled(a as int, final(self).node(head as int))
                    &&& final(self).search_inv(init, head as int, a as int, 0)
                },
                None => final(self).search_inv(init, head as int + 1, 0, 0),
            },
            old(self).explored@.len() <= final(self).explored@.len(),
            final(self).explored@.subrange(0, old(self).explored@.len() as int) =~= old(self).explored@,
            final(self).seen@.subrange(0, old(self).seen@.len() as int) =~= old(self).seen@,
            final(self).depths@.subrange(0, old(self).depths@.len() as int) =~= old(self).depths@,
            forall|j: int|
                old(self).explored@.len() <= j < final(self).explored@.len() ==> {
                    &&& #[trigger] final(self).explored@[j].previous == Some(head)
                    &&& final(self).depths@[j] == final(self).depths@[head as int] + 1
                },

    {
        let mut i: usize = 0;
        while i < self.invariants.len()
            invariant
                0 <= i <= self.invariants@.len(),
                *self == *old(self),
                self.search_inv(init, head as int, 0, 0),
                head < self.explored@.len(),
                forall|m: int| 0 <= m < i ==> #[trigger] self.invariants@[m].f.holds(self.node(head as int)),
            decreases self.invariants@.len() - i,
        {
            if !self.invariants[i].f.check(&self.explored[head].current) {
                return Some((true, i));
            }
            i = i + 1;
        }
        let mut a: usize = 0;
        while a < self.actions.len()
            invariant
                0 <= a <= self.actions@.len(),
                head < self.explored@.len(),
                self.search_inv(init, head as int, a as int, 0),
                self.safe(self.node(head as int)),
                forall|b: int| 0 <= b < a ==> #[trigger] self.actions@[b].f.enabled(self.node(head as int)),
                self.actions == old(self).actions,
                self.invariants == old(self).invariants,
                old(self).seen@.len() == old(self).explored@.len(),
                old(self).depths@.len() == old(self).explored@.len(),
                old(self).explored@.len() <= self.explored@.len(),
            self.explored@.subrange(0, old(self).explored@.len() as int) =~= old(self).explored@,
                self.seen@.subrange(0, old(self).seen@.len() as int) =~= old(self).seen@,
                self.depths@.subrange(0, old(self).depths@.len() as int) =~= old(self).depths@,
                forall|j: int|
                    old(self).explored@.len() <= j < self.explored@.len() ==> {
                        &&& #[trigger] self.explored@[j].previous == Some(head)
                        &&& self.depths@[j] == self.depths@[head as int] + 1
                    },
            decreases self.actions@.len() - a,
        {
            let mut ctx = Successors::new(self.explored[head].current.duplicate());
            let mut t = self.explored[head].current.duplicate();
            let ok = self.actions[a].f.apply(&mut ctx, &mut t);
            if !ok {
                return Some((false, a));
            }
            let ghost proposed = ctx.found@;
            ctx.found.push(t);
            assert(views_of(ctx.found@) =~= views_of(proposed).push(t@));
            let ghost here = self.node(head as int);
            let mut k: usize = 0;
            while k < ctx.found.len()
                invariant
                    0 <= k <= ctx.found@.len(),
                    views_of(ctx.found@) == self.succ(a as int, self.node(head as int)),
                    head < self.explored@.len(),
                    a < self.actions@.len(),
                    self.node(head as int) == here,
                    self.search_inv(init, head as int, a as int, k as int),
                    self.safe(self.node(head as int)),
                    forall|b: int| 0 <= b <= a ==> #[trigger] self.actions@[b].f.enabled(self.node(head as int)),
                    self.actions == old(self).actions,
                    self.invariants == old(self).invariants,
            old(self).seen@.len() == old(self).explored@.len(),
                old(self).depths@.len() == old(self).explored@.len(),
                old(self).explored@.len() <= self.explored@.len(),
            self.explored@.subrange(0, old(self).explored@.len() as int) =~= old(self).explored@,
            self.seen@.subrange(0, old(self).seen@.len() as int) =~= old(self).seen@,
            self.depths@.subrange(0, old(self).depths@.len() as int) =~= old(self).depths@,
            forall|j: int|
                old(self).explored@.len() <= j < self.explored@.len() ==> {
                    &&& #[trigger] self.explored@[j].previous == Some(head)
                    &&& self.depths@[j] == self.depths@[head as int] + 1
                },
                decreases ctx.found@.len() - k,
            {
                let c = ctx.found[k].duplicate();
                let ghost before = *self;
                self.discover(c, head, a, Ghost(k as int), Ghost(init));
                proof {
                    let s0 = old(self).seen@.len() as int;
                    let s1 = before.seen@.len() as int;
                    let d0 = old(self).depths@.len() as int;
                    let d1 = before.depths@.len() as int;
                    assert(before.links_ok(init, head as int));
                    assert(self.links_ok(init, head as int));
                    assert(s0 <= s1 <= self.seen@.len());
                    assert(d0 <= d1 <= self.depths@.len());
                    assert forall|j: int| 0 <= j < s0 implies self.seen@[j] == old(self).seen@[j] by {
                        assert(self.seen@.subrange(0, s1)[j] == before.seen@[j]);
                        assert(before.seen@.subrange(0, s0)[j] == old(self).seen@[j]);
                    }
                    assert forall|j: int| 0 <= j < d0 implies self.depths@[j] == old(self).depths@[j] by {
                        assert(self.depths@.subrange(0, d1)[j] == before.depths@[j]);
                        assert(before.depths@.subrange(0, d0)[j] == old(self).depths@[j]);
                    }
                    assert(self.seen@.subrange(0, s0) =~= old(self).seen@);
                    assert(self.depths@.subrange(0, d0) =~= old(self).depths@);
                }
                k = k + 1;
            }
            a = a + 1;
        }
        proof {
            assert forall|j: int| 0 < j < self.explored@.len() implies #[trigger] self.node_linked(
                j,
                head as int + 1,
            ) by {
                assert(self.node_linked(j, head as int));
            }
        }
        None
    }

    /// Every state at the end of a run of at most `depths[head]` steps (of
    /// any run, once the worklist is empty) has been discovered, at a depth
    /// no greater than the run's number of steps.
    proof fn lemma_runs_explored(&self, init: S::V, head: int, p: Seq<S::V>)
        requires
            self.search_inv(init, head, 0, 0),
            self.is_run(init, p),
            head == self.explored@.len() || p.len() - 1 <= self.depths@[head],
        ensures
            exists|j: int|
                0 <= j < self.explored@.len() && #[trigger] self.node(j) == p.last() && self.depths@[j]
                    <= p.len() - 1,
        decreases p.len(),
    {
        if p.len() == 1 {
            assert(self.node(0) == p.last());
        } else {
            let q = p.drop_last();
            assert forall|k: int| 0 <= k < q.len() - 1 implies #[trigger] self.linked(q, k) by {
                assert(self.linked(p, k));
            }
            self.lemma_runs_explored(init, head, q);
            let j0 = choose|j: int|
                0 <= j < self.explored@.len() && #[trigger] self.node(j) == q.last() && self.depths@[j]
                    <= q.len() - 1;
            if head < self.explored@.len() && j0 >= head {
                assert(self.depths@[head] <= self.depths@[j0]);
            }
            assert(self.linked(p, p.len() - 2));
            let (a, k) = choose|a: int, k: int|
                0 <= a < self.actions@.len() && 0 <= k < self.succ(a, p[p.len() - 2]).len()
                    && #[trigger] self.succ(a, p[p.len() - 2])[k] == p[p.len() - 1];
            assert(self.covered(j0, a, k));
            let j = choose|j: int|
                0 <= j < self.explored@.len() && #[trigger] self.node(j) == self.succ(
                    a,
                    self.node(j0),
                )[k] && self.depths@[j] <= self.depths@[j0] + 1;
            assert(self.node(j) == p.last());
        }
    }

    /// The chain of nodes from the initial state to node `h`, each entry
    /// labelled with the action that produced it.
    fn build_behavior(&self, h: usize, Ghost(init): Ghost<S::V>, Ghost(head): Ghost<int>) -> (tr: Vec<
        (String, S),
    >)
        requires
            self.links_ok(init, head),
            h < self.explored@.len(),
        ensures
            self.is_trace(init, tr@),
            tr@.len() == self.depths@[h as int] + 1,
            tr@.last().1@ == self.node(h as int),
            self.is_chain_of(h as int, tr@),
    {
        let mut rev: Vec<(String, S)> = Vec::new();
        rev.push((self.explored[h].generated_by_action.clone(), self.explored[h].current.duplicate()));
        let mut j: usize = h;
        while j > 0
            invariant
                self.links_ok(init, head),
                j < self.explored@.len(),
                h < self.explored@.len(),
                rev@.len() >= 1,
                rev@.len() == self.depths@[h as int] - self.depths@[j as int] + 1,
                rev@.last().0@ == self.explored@[j as int].generated_by_action@,
                rev@.last().1@ == self.node(j as int),
                rev@[0].1@ == self.node(h as int),
                forall|m: int| 0 <= m < rev@.len() - 1 ==> #[trigger] self.back_linked(rev@, m),
                j as int == self.ancestor(h as int, (rev@.len() - 1) as nat),
                forall|m: int|
                    0 <= m < rev@.len() ==> self.entry_is(#[trigger] rev@[m], self.ancestor(h as int, m as nat)),
            decreases j,
        {
            proof {
                assert(self.node_linked(j as int, head));
            }
            let p: usize = match self.explored[j].previous {
                Some(p) => p,
                None => 0,
            };
            let e = (self.explored[p].generated_by_action.clone(), self.explored[p].current.duplicate());
            let ghost pre = rev@;
            rev.push(e);
            proof {
                let a = self.via@[j as int];
                assert(self.actions@[a].name@ == rev@[pre.len() - 1].0@);
                assert(self.back_linked(rev@, pre.len() - 1));
                assert forall|m: int| 0 <= m < rev@.len() - 1 implies #[trigger] self.back_linked(rev@, m) by {
                    if m < pre.len() - 1 {
                        assert(self.back_linked(pre, m));
                    }
                }
                assert(self.ancestor(h as int, pre.len() as nat) == self.parent(
                    self.ancestor(h as int, (pre.len() - 1) as nat),
                ));
                assert(p as int == self.parent(j as int));
                assert(self.entry_is(rev@[pre.len() as int], p as int));
                assert forall|m: int| 0 <= m < rev@.len() implies self.entry_is(
                    #[trigger] rev@[m],
                    self.ancestor(h as int, m as nat),
                ) by {
                    if m < pre.len() {
                        assert(rev@[m] == pre[m]);
                    }
                }
            }
            j = p;
        }
        let ghost orig = rev@;
        let mut tr: Vec<(String, S)> = Vec::new();
        while rev.len() > 0
            invariant
                rev@.len() + tr@.len() == orig.len(),
                rev@ == orig.subrange(0, rev@.len() as int),
                forall|m: int| 0 <= m < tr@.len() ==> #[trigger] tr@[m] == orig[orig.len() - 1 - m],
            decreases rev@.len(),
        {
            match rev.pop() {
                Some(e) => {
                    tr.push(e);
                },
                None => {},
            }
        }
        proof {
            assert(tr@[0] == orig[orig.len() - 1]);
            assert forall|k: int| 0 <= k < tr@.len() - 1 implies #[trigger] self.trace_linked(tr@, k) by {
                assert(self.back_linked(orig, orig.len() - 2 - k));
                assert(tr@[k] == orig[orig.len() - 1 - k]);
                assert(tr@[k + 1] == orig[orig.len() - 2 - k]);
            }
            assert(tr@.last() == orig[0]);
            assert forall|k: int| 0 <= k < tr@.len() implies self.entry_is(
                #[trigger] tr@[k],
                self.ancestor(h as int, (tr@.len() - 1 - k) as nat),
            ) by {
                assert(tr@[k] == orig[orig.len() - 1 - k]);
                assert(self.entry_is(orig[orig.len() - 1 - k], self.ancestor(h as int, (orig.len() - 1 - k) as nat)));
            }
        }
        tr
    }

    /// Explores, breadth first, every state reachable from `initial_state`,
    /// checking every invariant on each state as it leaves the worklist.
    /// Ends with `Exhausted` when every reachable state was explored
    /// without a violation, or at the first violation with a trace of the
    /// fewest actions that lead to a violating state.
    pub fn run(&mut self, initial_state: S) -> (r: Outcome<S>)
        ensures
            final(self).actions == old(self).actions,
            final(self).invariants == old(self).invariants,
            final(self).explored_distinct(),
            final(self).outcome_ok(initial_state@, r),
            final(self).explored@.len() >= 1,
            final(self).explored@[0].current@ == initial_state@,
            final(self).explored@[0].previous is None,
            final(self).explored@[0].generated_by_action@ == root_label(),
            final(self).seen@.len() == final(self).explored@.len(),
            forall|j: int|
                0 <= j < final(self).seen@.len() ==> #[trigger] final(self).seen@[j]
                    == S::fingerprint_of(final(self).explored@[j].current@),
            forall|j: int|
                0 <= j < final(self).seen@.len() ==> final(self).in_bucket(#[trigger] final(self).seen@[j], j),
            r is Exhausted ==> final(self).discovery_ordered(final(self).explored@.len() as int, 0, 0),
            r is Violation ==> exists|h: int| #[trigger] final(self).violation_at(h, r->trace@),
            r is Fault ==> exists|h: int, a: int| #[trigger] final(self).fault_at(h, a, r->path@),
            forall|j: int|
                0 <= j < final(self).explored@.len() ==> final(self).reachable(
                    initial_state@,
                    #[trigger] final(self).explored@[j].current@,
                ),
    {
        let ghost init = initial_state@;
        let fp = initial_state.fingerprint();
        let label = "Init".to_string();
        proof {
            reveal_strlit("Init");
            assert(label@ =~= root_label());
        }
        self.explored = Vec::new();
        self.seen = Vec::new();
        self.explored.push(Pending { generated_by_action: label, previous: None, current: initial_state });
        self.seen.push(fp);
        self.buckets = HashMap::new();
        let first: Vec<usize> = vec![0];
        assert(first@ =~= seq![0usize]);
        self.buckets.insert(fp, first);
        self.depths = Ghost(Seq::empty().push(0nat));
        self.via = Ghost(Seq::empty().push(0int));
        self.slot = Ghost(Seq::empty().push(0int));
        let mut head: usize = 0;
        assert(self.buckets@[fp]@[0] as int == 0);
        assert(self.in_bucket(self.seen@[0], 0));
        assert(self.search_inv(init, 0, 0, 0));
        while head < self.explored.len()
            invariant
                self.search_inv(init, head as int, 0, 0),
                init == initial_state@,
                self.actions == old(self).actions,
                self.invariants == old(self).invariants,
            decreases usize::MAX - head,
        {
            match self.step(head, Ghost(init)) {
                Some((false, a)) => {
                    let trace = self.build_behavior(head, Ghost(init), Ghost(head as int));
                    let action = self.actions[a].name.clone();
                    proof {
                        self.lemma_all_reachable(init, head as int);
                    }
                    let r = Outcome::Fault { action, path: trace };
                    assert(self.first_disabled(a as int, r->path@.last().1@));
                    assert(self.fault_at(head as int, a as int, r->path@));
                    return r;
                },
                Some((true, i)) => {
                    let trace = self.build_behavior(head, Ghost(init), Ghost(head as int));
                    let violated = self.invariants[i].name.clone();
                    proof {
                        assert forall|p: Seq<S::V>|
                            self.is_run(init, p) && !self.safe(p.last()) implies p.len() >= trace@.len() by {
                            if p.len() < trace@.len() {
                                self.lemma_runs_explored(init, head as int, p);
                                let j = choose|j: int|
                                    0 <= j < self.explored@.len() && #[trigger] self.node(j) == p.last()
                                        && self.depths@[j] <= p.len() - 1;
                                if j >= head {
                                    assert(self.depths@[head as int] <= self.depths@[j]);
                                }
                                assert(self.safe(self.node(j)));
                            }
                        }
                        self.lemma_all_reachable(init, head as int);
                    }
                    let r = Outcome::Violation { violated, trace };
                    assert(self.first_failing(i as int, r->trace@.last().1@));
                    assert(self.violation_at(head as int, r->trace@));
                    return r;
                },
                None => {},
            }
            head = head + 1;
        }
        proof {
            assert forall|p: Seq<S::V>| #[trigger] self.is_run(init, p) implies self.safe(p.last()) && exists|j: int|
                0 <= j < self.explored@.len() && #[trigger] self.explored@[j].current@ == p.last() by {
                self.lemma_runs_explored(init, head as int, p);
                let j = choose|j: int|
                    0 <= j < self.explored@.len() && #[trigger] self.node(j) == p.last() && self.depths@[j]
                        <= p.len() - 1;
                assert(self.safe(self.node(j)));
                assert(self.all_enabled(self.node(j)));
                assert(self.explored@[j].current@ == p.last());
            }
            assert forall|p: Seq<S::V>| #[trigger] self.is_run(init, p) implies self.all_enabled(p.last()) by {
                self.lemma_runs_explored(init, head as int, p);
                let j = choose|j: int|
                    0 <= j < self.explored@.len() && #[trigger] self.node(j) == p.last() && self.depths@[j]
                        <= p.len() - 1;
                assert(self.all_enabled(self.node(j)));
            }
        }
        proof {
            self.lemma_all_reachable(init, head as int);
        }
        Outcome::Exhausted
    }
}

} // verus!
