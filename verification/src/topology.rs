//! The shape of an audio graph as far as scheduling is concerned: numbered
//! node slots, each occupied slot listing the nodes it reads its inputs from,
//! and a flag for nodes that run whether or not the output needs them.
//!
//! Two questions are answered here for every graph that exposes this shape:
//! which nodes must run to produce a given node's output, and in which order
//! they run so that each node runs after all of its inputs.

use crate::bitset::{
    bitset_contains, bitset_len, bitset_ones, bitset_ones_ascending, bitset_put, bitset_with_capacity,
};
use fixedbitset::FixedBitSet;
use vstd::prelude::*;
use vstd::set_lib::*;

verus! {

/// What the scheduler reads of a graph.
pub trait Topology {
    /// The number of node slots.
    spec fn slot_count(&self) -> nat;

    /// Whether slot `i` holds a node.
    spec fn occupied(&self, i: usize) -> bool;

    /// The nodes that node `i` reads from.
    spec fn inputs(&self, i: usize) -> Seq<usize>;

    /// Whether node `i` runs on every tick.
    spec fn always_runs(&self, i: usize) -> bool;

    fn num_slots(&self) -> (n: usize)
        ensures
            n == self.slot_count(),
    ;

    fn is_occupied(&self, i: usize) -> (b: bool)
        requires
            i < self.slot_count(),
        ensures
            b == self.occupied(i),
    ;

    fn num_inputs(&self, i: usize) -> (n: usize)
        requires
            self.occupied(i),
        ensures
            n == self.inputs(i).len(),
    ;

    fn input(&self, i: usize, j: usize) -> (r: usize)
        requires
            self.occupied(i),
            j < self.inputs(i).len(),
        ensures
            r == self.inputs(i)[j as int],
    ;

    fn is_always_run(&self, i: usize) -> (b: bool)
        requires
            self.occupied(i),
        ensures
            b == self.always_runs(i),
    ;

    /// Where node `i` stands in the order in which nodes that may run are
    /// taken: of two such nodes, the one with the lower rank runs first.
    spec fn rank(&self, i: usize) -> usize;

    fn node_rank(&self, i: usize) -> (r: usize)
        ensures
            r == self.rank(i),
    ;

    /// No two nodes share a rank.
    proof fn lemma_rank_injective(&self, a: usize, b: usize)
        requires
            self.rank(a) == self.rank(b),
        ensures
            a == b,
    ;
}

/// Every occupied slot lies below the slot count and every input names an
/// occupied slot.
pub open spec fn well_formed<G: Topology>(g: &G) -> bool {
    &&& forall|i: usize| #[trigger] g.occupied(i) ==> i < g.slot_count()
    &&& forall|i: usize, j: int|
        g.occupied(i) && 0 <= j < g.inputs(i).len() ==> g.occupied(#[trigger] g.inputs(i)[j])
}

/// Every occupied slot lies below the slot count.
pub open spec fn slots_in_range<G: Topology>(g: &G) -> bool {
    forall|i: usize| #[trigger] g.occupied(i) ==> i < g.slot_count()
}

/// Every node that a run for `start` needs is a node of the graph; nodes
/// the run does not need may name inputs that are missing.
pub open spec fn needed_nodes_present<G: Topology>(g: &G, start: usize) -> bool {
    &&& slots_in_range(g)
    &&& forall|n: usize| #[trigger] reachable(g, start, n) ==> g.occupied(n)
}

/// The nodes a run for `start` begins from: `start` itself and every node
/// that always runs.
pub open spec fn is_root<G: Topology>(g: &G, start: usize, n: usize) -> bool {
    n == start || (g.occupied(n) && g.always_runs(n))
}

/// `p` walks from node to input: each element is an input of the one before.
pub open spec fn is_input_path<G: Topology>(g: &G, p: Seq<usize>) -> bool
    decreases p.len(),
{
    if p.len() <= 1 {
        p.len() == 1
    } else {
        is_input_path(g, p.drop_last()) && g.inputs(p[p.len() - 2]).contains(p.last())
    }
}

/// Node `n` is needed by a run for `start`: some input path leads to it from
/// `start` or from a node that always runs.
pub open spec fn reachable<G: Topology>(g: &G, start: usize, n: usize) -> bool {
    exists|p: Seq<usize>| #[trigger]
        is_input_path(g, p) && is_root(g, start, p[0]) && p.last() == n
}

/// All nodes needed by a run for `start`.
pub open spec fn reachable_set<G: Topology>(g: &G, start: usize) -> Set<usize> {
    Set::new(|n: usize| reachable(g, start, n))
}

/// Extending an input path by an input of its last node gives an input path
/// with the same first node.
pub proof fn lemma_path_push<G: Topology>(g: &G, p: Seq<usize>, x: usize)
    requires
        is_input_path(g, p),
        g.inputs(p.last()).contains(x),
    ensures
        is_input_path(g, p.push(x)),
        p.push(x)[0] == p[0],
        p.push(x).last() == x,
{
    assert(p.push(x).drop_last() =~= p);
}

/// A set that holds the first node of an input path and, with every node,
/// all of that node's inputs, holds the path's last node.
pub proof fn lemma_closed_set_holds_path_end<G: Topology>(g: &G, s: Set<usize>, p: Seq<usize>)
    requires
        is_input_path(g, p),
        s.contains(p[0]),
        forall|v: usize, j: int|
            s.contains(v) && 0 <= j < g.inputs(v).len() ==> s.contains(#[trigger] g.inputs(v)[j]),
    ensures
        s.contains(p.last()),
    decreases p.len(),
{
    if p.len() > 1 {
        let q = p.drop_last();
        lemma_closed_set_holds_path_end(g, s, q);
        assert(q.last() == p[p.len() - 2]);
        let j = choose|j: int| 0 <= j < g.inputs(q.last()).len() && g.inputs(q.last())[j] == p.last();
        assert(s.contains(g.inputs(q.last())[j]));
    }
}

/// A reachable node's inputs are reachable.
pub proof fn lemma_input_of_reachable<G: Topology>(g: &G, start: usize, n: usize, j: int)
    requires
        reachable(g, start, n),
        0 <= j < g.inputs(n).len(),
    ensures
        reachable(g, start, g.inputs(n)[j]),
{
    let p = choose|p: Seq<usize>| #[trigger]
        is_input_path(g, p) && is_root(g, start, p[0]) && p.last() == n;
    let x = g.inputs(n)[j];
    assert(g.inputs(p.last()).contains(x));
    lemma_path_push(g, p, x);
    assert(is_input_path(g, p.push(x)) && is_root(g, start, p.push(x)[0]) && p.push(x).last()
        == x);
}

/// Roots are reachable.
pub proof fn lemma_root_reachable<G: Topology>(g: &G, start: usize, n: usize)
    requires
        is_root(g, start, n),
    ensures
        reachable(g, start, n),
{
    let p = seq![n];
    assert(is_input_path(g, p));
}

/// The nodes that a run for `start` needs: `start`, every node that always
/// runs, and every node that one of those reads from, directly or through
/// other nodes; `None` when one of them is not a node of the graph.
pub fn reachable_nodes_checked<G: Topology>(g: &G, start: usize) -> (reached: Option<FixedBitSet>)
    requires
        slots_in_range(g),
    ensures
        reached is None <==> !needed_nodes_present(g, start),
        reached matches Some(r) ==> bitset_ones(r) == reachable_set(g, start) && bitset_len(r)
            == g.slot_count(),
{
    broadcast use vstd::seq_lib::lemma_seq_contains_after_push;

    let n = g.num_slots();
    let mut reached = bitset_with_capacity(n);
    let mut stack: Vec<usize> = Vec::with_capacity(n);

    let mut i: usize = 0;
    while i < n
        invariant
            slots_in_range(g),
            n == g.slot_count(),
            0 <= i <= n,
            bitset_ones(reached) == Set::<usize>::empty(),
            bitset_len(reached) == n,
            forall|k: int| 0 <= k < stack@.len() ==> reachable(g, start, #[trigger] stack@[k]),
            forall|r: usize| r < i && g.occupied(r) && g.always_runs(r) ==> stack@.contains(r),
        decreases n - i,
    {
        if g.is_occupied(i) && g.is_always_run(i) {
            proof {
                lemma_root_reachable(g, start, i);
            }
            let ghost prev = stack@;
            stack.push(i);
            proof {
                assert(stack@[stack@.len() - 1] == i);
                assert forall|r: usize| prev.contains(r) implies stack@.contains(r) by {
                    let k = choose|k: int| 0 <= k < prev.len() && prev[k] == r;
                    assert(stack@[k] == r);
                }
            }
        }
        i += 1;
    }
    proof {
        lemma_root_reachable(g, start, start);
    }
    stack.push(start);

    proof {
        <usize as FiniteRange>::range_properties(0, n);
        assert(stack@[stack@.len() - 1] == start);
    }

    while stack.len() > 0
        invariant
            slots_in_range(g),
            n == g.slot_count(),
            bitset_len(reached) == n,
            bitset_ones(reached).finite(),
            bitset_ones(reached).subset_of(Set::<usize>::range(0, n)),
            Set::<usize>::range(0, n).finite(),
            Set::<usize>::range(0, n).len() == n,
            forall|k: int| 0 <= k < stack@.len() ==> reachable(g, start, #[trigger] stack@[k]),
            forall|x: usize| #[trigger]
                bitset_ones(reached).contains(x) ==> g.occupied(x) && reachable(g, start, x),
            forall|x: usize, j: int|
                bitset_ones(reached).contains(x) && 0 <= j < g.inputs(x).len() ==> (bitset_ones(
                    reached,
                ).contains(#[trigger] g.inputs(x)[j]) || stack@.contains(g.inputs(x)[j])),
            forall|r: usize|
                is_root(g, start, r) ==> bitset_ones(reached).contains(r) || stack@.contains(r),
        decreases n - bitset_ones(reached).len(), stack@.len(),
    {
        proof {
            lemma_len_subset(bitset_ones(reached), Set::<usize>::range(0, n));
        }
        let ghost before = stack@;
        let node = stack.pop().unwrap();
        proof {
            assert(before =~= stack@.push(node));
            assert(reachable(g, start, before[before.len() - 1]));
        }
        if !(node < n && g.is_occupied(node)) {
            return None;
        }
        if !bitset_contains(&reached, node) {
            let ghost ones_before = bitset_ones(reached);
            bitset_put(&mut reached, node);
            proof {
                assert(bitset_ones(reached).len() == ones_before.len() + 1);
                lemma_len_subset(bitset_ones(reached), Set::<usize>::range(0, n));
            }
            let count = g.num_inputs(node);
            let mut j: usize = 0;
            while j < count
                invariant
                    g.occupied(node),
                    reachable(g, start, node),
                    count == g.inputs(node).len(),
                    0 <= j <= count,
                    forall|k: int| 0 <= k < j ==> stack@.contains(#[trigger] g.inputs(node)[k]),
                    forall|k: int| 0 <= k < stack@.len() ==> reachable(g, start, #[trigger] stack@[k]),
                    forall|v: usize| before.contains(v) && v != node ==> stack@.contains(v),
                decreases count - j,
            {
                let input = g.input(node, j);
                proof {
                    lemma_input_of_reachable(g, start, node, j as int);
                }
                let ghost prev = stack@;
                stack.push(input);
                proof {
                    assert forall|v: usize| prev.contains(v) implies stack@.contains(v) by {
                        let k = choose|k: int| 0 <= k < prev.len() && prev[k] == v;
                        assert(stack@[k] == v);
                    }
                    assert(stack@[stack@.len() - 1] == input);
                }
                j += 1;
            }
        } else {
            proof {
                assert forall|v: usize| before.contains(v) && v != node implies stack@.contains(
                    v,
                ) by {
                    let k = choose|k: int| 0 <= k < before.len() && before[k] == v;
                    assert(k < before.len() - 1);
                    assert(stack@[k] == v);
                }
            }
        }
    }

    proof {
        let s = bitset_ones(reached);
        assert forall|x: usize| #[trigger] reachable(g, start, x) implies s.contains(x) by {
            let p = choose|p: Seq<usize>| #[trigger]
                is_input_path(g, p) && is_root(g, start, p[0]) && p.last() == x;
            lemma_closed_set_holds_path_end(g, s, p);
        }
        assert(s =~= reachable_set(g, start));
        assert forall|x: usize| #[trigger] reachable(g, start, x) implies g.occupied(x) by {
            assert(s.contains(x));
        }
    }
    Some(reached)
}

/// The nodes that a run for `start` needs, when all of them are nodes of
/// the graph.
pub fn reachable_nodes<G: Topology>(g: &G, start: usize) -> (reached: FixedBitSet)
    requires
        needed_nodes_present(g, start),
    ensures
        bitset_ones(reached) == reachable_set(g, start),
        bitset_len(reached) == g.slot_count(),
{
    reachable_nodes_checked(g, start).unwrap()
}

/// In a well-formed graph every node a run for a node of the graph needs is
/// present.
pub proof fn lemma_well_formed_needed_nodes_present<G: Topology>(g: &G, start: usize)
    requires
        well_formed(g),
        g.occupied(start),
    ensures
        needed_nodes_present(g, start),
{
    assert forall|n: usize| #[trigger] reachable(g, start, n) implies g.occupied(n) by {
        let p = choose|p: Seq<usize>| #[trigger]
            is_input_path(g, p) && is_root(g, start, p[0]) && p.last() == n;
        let s = Set::new(|v: usize| g.occupied(v));
        lemma_closed_set_holds_path_end(g, s, p);
    }
}



/// How many times `x` occurs in `s`.
pub open spec fn occurrences(s: Seq<usize>, x: usize) -> nat
    decreases s.len(),
{
    if s.len() == 0 {
        0
    } else {
        occurrences(s.drop_last(), x) + if s.last() == x {
            1nat
        } else {
            0nat
        }
    }
}

/// How many entries of `s` are not yet in `done`.
pub open spec fn unresolved(s: Seq<usize>, done: Set<usize>) -> nat
    decreases s.len(),
{
    if s.len() == 0 {
        0
    } else {
        unresolved(s.drop_last(), done) + if done.contains(s.last()) {
            0nat
        } else {
            1nat
        }
    }
}

pub proof fn lemma_occurrences_push(s: Seq<usize>, y: usize, x: usize)
    ensures
        occurrences(s.push(y), x) == occurrences(s, x) + if y == x {
            1nat
        } else {
            0nat
        },
{
    assert(s.push(y).drop_last() =~= s);
}

pub proof fn lemma_occurrences_take_step(s: Seq<usize>, k: int, x: usize)
    requires
        0 <= k < s.len(),
    ensures
        occurrences(s.take(k + 1), x) == occurrences(s.take(k), x) + if s[k] == x {
            1nat
        } else {
            0nat
        },
{
    assert(s.take(k + 1) =~= s.take(k).push(s[k]));
    lemma_occurrences_push(s.take(k), s[k], x);
}

pub proof fn lemma_occurrences_take_le(s: Seq<usize>, k: int, x: usize)
    requires
        0 <= k <= s.len(),
    ensures
        occurrences(s.take(k), x) <= occurrences(s, x),
    decreases s.len(),
{
    if k == s.len() {
        assert(s.take(k) =~= s);
    } else {
        assert(s.take(k) =~= s.drop_last().take(k));
        lemma_occurrences_take_le(s.drop_last(), k, x);
    }
}

pub proof fn lemma_occurrences_positive(s: Seq<usize>, x: usize)
    ensures
        occurrences(s, x) > 0 <==> s.contains(x),
    decreases s.len(),
{
    if s.len() > 0 {
        lemma_occurrences_positive(s.drop_last(), x);
        if s.drop_last().contains(x) {
            let k = choose|k: int| 0 <= k < s.drop_last().len() && s.drop_last()[k] == x;
            assert(s[k] == x);
        }
        if s.contains(x) && s.last() != x {
            let k = choose|k: int| 0 <= k < s.len() && s[k] == x;
            assert(s.drop_last()[k] == x);
        }
    }
}

pub proof fn lemma_unresolved_insert(s: Seq<usize>, done: Set<usize>, m: usize)
    requires
        !done.contains(m),
    ensures
        unresolved(s, done.insert(m)) + occurrences(s, m) == unresolved(s, done),
    decreases s.len(),
{
    if s.len() > 0 {
        lemma_unresolved_insert(s.drop_last(), done, m);
    }
}

pub proof fn lemma_unresolved_zero(s: Seq<usize>, done: Set<usize>)
    ensures
        unresolved(s, done) == 0 <==> forall|j: int| 0 <= j < s.len() ==> done.contains(#[trigger] s[j]),
    decreases s.len(),
{
    if s.len() > 0 {
        lemma_unresolved_zero(s.drop_last(), done);
        if unresolved(s, done) == 0 {
            assert forall|j: int| 0 <= j < s.len() implies done.contains(#[trigger] s[j]) by {
                if j < s.len() - 1 {
                    assert(s.drop_last()[j] == s[j]);
                }
            }
        }
        if forall|j: int| 0 <= j < s.len() ==> done.contains(#[trigger] s[j]) {
            assert forall|j: int| 0 <= j < s.drop_last().len() implies done.contains(
                #[trigger] s.drop_last()[j],
            ) by {
                assert(s.drop_last()[j] == s[j]);
            }
            assert(done.contains(s[s.len() - 1]));
        }
    }
}

pub proof fn lemma_unresolved_none_done(s: Seq<usize>)
    ensures
        unresolved(s, Set::<usize>::empty()) == s.len(),
    decreases s.len(),
{
    if s.len() > 0 {
        lemma_unresolved_none_done(s.drop_last());
    }
}


/// Node `n` may run once the nodes in `done` have run: it is needed, has not
/// run yet, and every node it reads from has run.
pub open spec fn ready_to_run<G: Topology>(g: &G, start: usize, done: Set<usize>, n: usize) -> bool {
    &&& reachable(g, start, n)
    &&& !done.contains(n)
    &&& forall|j: int| 0 <= j < g.inputs(n).len() ==> done.contains(#[trigger] g.inputs(n)[j])
}

/// `order` is the order in which a run for `start` processes the graph: at
/// each step the node of lowest rank that may run, until no node may run.
pub open spec fn is_processing_order<G: Topology>(g: &G, start: usize, order: Seq<usize>) -> bool {
    &&& forall|k: int|
        0 <= k < order.len() ==> ready_to_run(g, start, order.take(k).to_set(), #[trigger] order[k])
    &&& forall|k: int, m: usize|
        #![trigger ready_to_run(g, start, order.take(k).to_set(), m), order[k]]
        0 <= k < order.len() && ready_to_run(g, start, order.take(k).to_set(), m) ==> g.rank(order[k])
            <= g.rank(m)
    &&& forall|m: usize| !ready_to_run(g, start, order.to_set(), m)
}

/// For the nodes listed in `nodes`, counts how many inputs each has and lists,
/// for every node, the listed nodes that read from it (once per reading).
fn collect_dependents<G: Topology>(g: &G, nodes: &Vec<usize>, n: usize) -> (result: (
    Vec<usize>,
    Vec<Vec<usize>>,
    Vec<usize>,
))
    requires
        slots_in_range(g),
        n == g.slot_count(),
        forall|k: int| 0 <= k < nodes@.len() ==> g.occupied(#[trigger] nodes@[k]),
        forall|x: usize, j: int|
            nodes@.contains(x) && 0 <= j < g.inputs(x).len() ==> g.occupied(#[trigger] g.inputs(x)[j]),
        forall|a: int, b: int| 0 <= a < b < nodes@.len() ==> nodes@[a] < nodes@[b],
    ensures
        result.0@.len() == n,
        result.1@.len() == n,
        forall|m: usize, x: usize|
            m < n ==> #[trigger] occurrences(result.1@[m as int]@, x) == if nodes@.contains(x) {
                occurrences(g.inputs(x), m)
            } else {
                0
            },
        forall|x: usize| nodes@.contains(x) ==> #[trigger] result.0@[x as int] == g.inputs(x).len(),
        forall|x: usize|
            #[trigger] result.2@.contains(x) <==> nodes@.contains(x) && g.inputs(x).len() == 0,
        result.2@.no_duplicates(),
{
    let mut incoming: Vec<usize> = Vec::with_capacity(n);
    let mut outputs: Vec<Vec<usize>> = Vec::with_capacity(n);
    let mut i: usize = 0;
    while i < n
        invariant
            0 <= i <= n,
            incoming@.len() == i,
            outputs@.len() == i,
            forall|m: int| 0 <= m < i ==> (#[trigger] outputs@[m])@ == Seq::<usize>::empty(),
        decreases n - i,
    {
        incoming.push(0);
        outputs.push(Vec::new());
        i += 1;
    }
    proof {
        assert forall|m: usize, x: usize| m < n implies #[trigger] occurrences(outputs@[m as int]@, x)
            == 0 by {
            assert(outputs@[m as int]@ == Seq::<usize>::empty());
        }
    }

    let mut ready: Vec<usize> = Vec::new();
    let mut i: usize = 0;
    while i < nodes.len()
        invariant
            slots_in_range(g),
            n == g.slot_count(),
            forall|k: int| 0 <= k < nodes@.len() ==> g.occupied(#[trigger] nodes@[k]),
            forall|x: usize, j: int|
                nodes@.contains(x) && 0 <= j < g.inputs(x).len() ==> g.occupied(#[trigger] g.inputs(x)[j]),
            forall|a: int, b: int| 0 <= a < b < nodes@.len() ==> nodes@[a] < nodes@[b],
            0 <= i <= nodes@.len(),
            incoming@.len() == n,
            outputs@.len() == n,
            forall|m: usize, x: usize|
                m < n ==> #[trigger] occurrences(outputs@[m as int]@, x) == if nodes@.take(
                    i as int,
                ).contains(x) {
                    occurrences(g.inputs(x), m)
                } else {
                    0
                },
            forall|x: usize|
                nodes@.take(i as int).contains(x) ==> #[trigger] incoming@[x as int] == g.inputs(
                    x,
                ).len(),
            forall|x: usize|
                #[trigger] ready@.contains(x) <==> nodes@.take(i as int).contains(x) && g.inputs(
                    x,
                ).len() == 0,
            ready@.no_duplicates(),
        decreases nodes@.len() - i,
    {
        let id = nodes[i];
        let ghost done = nodes@.take(i as int);
        proof {
            assert(!done.contains(id)) by {
                if done.contains(id) {
                    let k = choose|k: int| 0 <= k < done.len() && done[k] == id;
                    assert(nodes@[k] < nodes@[i as int]);
                }
            }
            assert(g.occupied(nodes@[i as int]));
            assert(id < n);
            assert(nodes@.contains(id));
        }
        let count = g.num_inputs(id);
        let mut j: usize = 0;
        while j < count
            invariant
                slots_in_range(g),
                n == g.slot_count(),
                g.occupied(id),
                forall|k: int| 0 <= k < count ==> g.occupied(#[trigger] g.inputs(id)[k]),
                id < n,
                !done.contains(id),
                count == g.inputs(id).len(),
                0 <= j <= count,
                outputs@.len() == n,
                forall|m: usize, x: usize|
                    m < n ==> #[trigger] occurrences(outputs@[m as int]@, x) == (if done.contains(
                        x,
                    ) {
                        occurrences(g.inputs(x), m)
                    } else {
                        0
                    }) + (if x == id {
                        occurrences(g.inputs(id).take(j as int), m)
                    } else {
                        0
                    }),
            decreases count - j,
        {
            let input = g.input(id, j);
            proof {
                assert(g.occupied(g.inputs(id)[j as int]));
            }
            let ghost before = outputs@;
            let mut list = Vec::new();
            std::mem::swap(&mut list, &mut outputs[input]);
            list.push(id);
            std::mem::swap(&mut list, &mut outputs[input]);
            proof {
                assert forall|m: usize, x: usize| m < n implies #[trigger] occurrences(outputs@[m as int]@,
                    x,
                ) == (if done.contains(x) {
                    occurrences(g.inputs(x), m)
                } else {
                    0
                }) + (if x == id {
                    occurrences(g.inputs(id).take(j + 1), m)
                } else {
                    0
                }) by {
                    lemma_occurrences_take_step(g.inputs(id), j as int, m);
                    if m == input {
                        lemma_occurrences_push(before[m as int]@, id, x);
                    } else {
                        assert(outputs@[m as int] == before[m as int]);
                    }
                }
            }
            j += 1;
        }
        proof {
            assert(g.inputs(id).take(count as int) =~= g.inputs(id));
            assert(nodes@.take(i + 1) =~= done.push(id));
        }
        incoming.set(id, count);
        let ghost ready_before = ready@;
        if count == 0 {
            ready.push(id);
        }
        proof {
            assert(!ready_before.contains(id));
            assert forall|x: usize| #[trigger] ready@.contains(x) <==> ready_before.contains(x) || (
            count == 0 && x == id) by {
                if ready_before.contains(x) {
                    let k = choose|k: int| 0 <= k < ready_before.len() && ready_before[k] == x;
                    assert(ready@[k] == x);
                }
                if count == 0 && x == id {
                    assert(ready@[ready@.len() - 1] == x);
                }
                if ready@.contains(x) && !(count == 0 && x == id) {
                    let k = choose|k: int| 0 <= k < ready@.len() && ready@[k] == x;
                    if count == 0 {
                        assert(k < ready_before.len());
                    }
                    assert(ready_before[k] == x);
                }
            }
            if count == 0 {
                assert forall|a: int, b: int|
                    0 <= a < ready@.len() && 0 <= b < ready@.len() && a != b implies ready@[a]
                    != ready@[b] by {
                    if a == ready_before.len() as int {
                        assert(ready@[b] == ready_before[b]);
                        assert(ready_before.contains(ready_before[b]));
                    } else if b == ready_before.len() as int {
                        assert(ready@[a] == ready_before[a]);
                        assert(ready_before.contains(ready_before[a]));
                    } else {
                        assert(ready@[a] == ready_before[a]);
                        assert(ready@[b] == ready_before[b]);
                    }
                }
            }
        }
        proof {
            assert forall|x: usize| #[trigger] nodes@.take(i + 1).contains(x) <==> done.contains(x)
                || x == id by {
                if done.contains(x) {
                    let k = choose|k: int| 0 <= k < done.len() && done[k] == x;
                    assert(nodes@.take(i + 1)[k] == x);
                }
                if x == id {
                    assert(nodes@.take(i + 1)[i as int] == x);
                }
                let grown = nodes@.take(i + 1);
                if grown.contains(x) && x != id {
                    let k = choose|k: int| 0 <= k < grown.len() && grown[k] == x;
                    assert(done[k] == x);
                }
            }
        }
        i += 1;
    }
    proof {
        assert(nodes@.take(nodes@.len() as int) =~= nodes@);
    }
    (incoming, outputs, ready)
}


/// Counts down the pending inputs of every node listed in `dependents` (once
/// per listing) and queues each node whose count reaches zero.
fn release_dependents(incoming: &mut Vec<usize>, ready: &mut Vec<usize>, dependents: &Vec<usize>)
    requires
        forall|k: int| 0 <= k < dependents@.len() ==> #[trigger] dependents@[k] < old(incoming)@.len(),
        forall|x: usize|
            x < old(incoming)@.len() ==> #[trigger] occurrences(dependents@, x) <= old(
                incoming,
            )@[x as int],
        forall|k: int|
            0 <= k < old(ready)@.len() ==> #[trigger] old(ready)@[k] < old(incoming)@.len() && old(
                incoming,
            )@[old(ready)@[k] as int] == 0,
        old(ready)@.no_duplicates(),
    ensures
        final(incoming)@.len() == old(incoming)@.len(),
        forall|x: usize|
            x < old(incoming)@.len() ==> #[trigger] final(incoming)@[x as int] == old(
                incoming,
            )@[x as int] - occurrences(dependents@, x),
        forall|x: usize| #[trigger]
            final(ready)@.contains(x) <==> old(ready)@.contains(x) || (x < old(incoming)@.len()
                && old(incoming)@[x as int] > 0 && final(incoming)@[x as int] == 0),
        final(ready)@.no_duplicates(),
{
    let ghost incoming0 = incoming@;
    let ghost ready0 = ready@;
    let len = dependents.len();
    let mut k: usize = 0;
    while k < len
        invariant
            len == dependents@.len(),
            0 <= k <= len,
            incoming@.len() == incoming0.len(),
            forall|i: int| 0 <= i < dependents@.len() ==> #[trigger] dependents@[i] < incoming0.len(),
            forall|x: usize|
                x < incoming0.len() ==> #[trigger] occurrences(dependents@, x) <= incoming0[x as int],
            forall|x: usize|
                x < incoming0.len() ==> #[trigger] incoming@[x as int] == incoming0[x as int]
                    - occurrences(dependents@.take(k as int), x),
            forall|x: usize| #[trigger]
                ready@.contains(x) <==> ready0.contains(x) || (x < incoming0.len() && incoming0[x as int]
                    > 0 && incoming@[x as int] == 0),
            forall|i: int|
                0 <= i < ready@.len() ==> #[trigger] ready@[i] < incoming0.len() && incoming@[ready@[i] as int]
                    == 0,
            ready@.no_duplicates(),
        decreases len - k,
    {
        let x = dependents[k];
        proof {
            lemma_occurrences_take_step(dependents@, k as int, x);
            lemma_occurrences_take_le(dependents@, k + 1, x);
            assert(dependents@[k as int] < incoming0.len());
        }
        let left = incoming[x] - 1;
        let ghost incoming_before = incoming@;
        incoming.set(x, left);
        proof {
            assert forall|y: usize| y < incoming0.len() implies #[trigger] incoming@[y as int]
                == incoming0[y as int] - occurrences(dependents@.take(k + 1), y) by {
                lemma_occurrences_take_step(dependents@, k as int, y);
                lemma_occurrences_take_le(dependents@, k + 1, y);
            }
        }
        let ghost ready_before = ready@;
        if left == 0 {
            ready.push(x);
            proof {
                assert(!ready_before.contains(x)) by {
                    if ready_before.contains(x) {
                        let i = choose|i: int| 0 <= i < ready_before.len() && ready_before[i] == x;
                        assert(incoming_before[ready_before[i] as int] == 0);
                    }
                }
                assert forall|a: int, b: int|
                    0 <= a < ready@.len() && 0 <= b < ready@.len() && a != b implies ready@[a]
                    != ready@[b] by {
                    if a == ready_before.len() as int {
                        assert(ready@[b] == ready_before[b]);
                        assert(ready_before.contains(ready_before[b]));
                    } else if b == ready_before.len() as int {
                        assert(ready@[a] == ready_before[a]);
                        assert(ready_before.contains(ready_before[a]));
                    } else {
                        assert(ready@[a] == ready_before[a]);
                        assert(ready@[b] == ready_before[b]);
                    }
                }
                assert forall|y: usize| #[trigger]
                    ready@.contains(y) <==> ready0.contains(y) || (y < incoming0.len()
                        && incoming0[y as int] > 0 && incoming@[y as int] == 0) by {
                    if ready_before.contains(y) {
                        let i = choose|i: int| 0 <= i < ready_before.len() && ready_before[i] == y;
                        assert(ready@[i] == y);
                    }
                    if y == x {
                        assert(ready@[ready@.len() - 1] == y);
                    }
                    if ready@.contains(y) && y != x {
                        let i = choose|i: int| 0 <= i < ready@.len() && ready@[i] == y;
                        assert(ready_before[i] == y);
                    }
                }
                assert forall|i: int| 0 <= i < ready@.len() implies #[trigger] ready@[i]
                    < incoming0.len() && incoming@[ready@[i] as int] == 0 by {
                    if i < ready_before.len() {
                        assert(ready@[i] == ready_before[i]);
                    }
                }
            }
        } else {
            proof {
                assert forall|i: int| 0 <= i < ready@.len() implies #[trigger] ready@[i]
                    < incoming0.len() && incoming@[ready@[i] as int] == 0 by {
                    assert(ready@[i] != x);
                }
            }
        }
        k += 1;
    }
    proof {
        assert(dependents@.take(len as int) =~= dependents@);
    }
}

/// Removes and returns the entry of lowest rank of a non-empty list without
/// repeated entries.
fn take_first_ranked<G: Topology>(g: &G, ready: &mut Vec<usize>) -> (m: usize)
    requires
        old(ready)@.len() > 0,
        old(ready)@.no_duplicates(),
    ensures
        old(ready)@.contains(m),
        forall|k: int| 0 <= k < old(ready)@.len() ==> g.rank(m) <= g.rank(#[trigger] old(ready)@[k]),
        forall|x: usize| #[trigger] final(ready)@.contains(x) <==> old(ready)@.contains(x) && x != m,
        forall|k: int| 0 <= k < final(ready)@.len() ==> old(ready)@.contains(#[trigger] final(ready)@[k]),
        final(ready)@.no_duplicates(),
{
    let mut best: usize = 0;
    let mut best_rank = g.node_rank(ready[0]);
    let mut k: usize = 1;
    while k < ready.len()
        invariant
            0 < ready@.len(),
            0 <= best < ready@.len(),
            1 <= k <= ready@.len(),
            best < k,
            best_rank == g.rank(ready@[best as int]),
            forall|i: int| 0 <= i < k ==> best_rank <= g.rank(#[trigger] ready@[i]),
        decreases ready@.len() - k,
    {
        let r = g.node_rank(ready[k]);
        if r < best_rank {
            best = k;
            best_rank = r;
        }
        k += 1;
    }
    let ghost before = ready@;
    let m = ready.remove(best);
    proof {
        assert(before[best as int] == m);
        assert forall|x: usize| #[trigger] ready@.contains(x) <==> before.contains(x) && x != m by {
            if ready@.contains(x) {
                let i = choose|i: int| 0 <= i < ready@.len() && ready@[i] == x;
                if i < best {
                    assert(before[i] == x);
                } else {
                    assert(before[i + 1] == x);
                }
            }
            if before.contains(x) && x != m {
                let i = choose|i: int| 0 <= i < before.len() && before[i] == x;
                if i < best {
                    assert(ready@[i] == x);
                } else {
                    assert(i != best);
                    assert(ready@[i - 1] == x);
                }
            }
        }
        assert forall|k: int| 0 <= k < ready@.len() implies before.contains(#[trigger] ready@[k]) by {
            if k < best {
                assert(before[k] == ready@[k]);
            } else {
                assert(before[k + 1] == ready@[k]);
            }
        }
        assert forall|a: int, b: int|
            0 <= a < ready@.len() && 0 <= b < ready@.len() && a != b implies ready@[a] != ready@[b] by {
            let a1 = if a < best { a } else { a + 1 };
            let b1 = if b < best { b } else { b + 1 };
            assert(ready@[a] == before[a1]);
            assert(ready@[b] == before[b1]);
        }
    }
    m
}


/// Needed nodes are nodes of the graph.
pub proof fn lemma_reachable_occupied<G: Topology>(g: &G, start: usize, n: usize)
    requires
        needed_nodes_present(g, start),
        reachable(g, start, n),
    ensures
        g.occupied(n),
        n < g.slot_count(),
{
}

/// With pending-input counts kept for every needed node that has not run, a
/// needed node that has not run has no pending input exactly when it may run.
proof fn lemma_ready_iff<G: Topology>(
    g: &G,
    start: usize,
    reached: Set<usize>,
    done: Set<usize>,
    incoming: Seq<usize>,
    x: usize,
)
    requires
        reached == reachable_set(g, start),
        reached.contains(x) && !done.contains(x) ==> incoming[x as int] == unresolved(
            g.inputs(x),
            done,
        ),
    ensures
        (reached.contains(x) && !done.contains(x) && incoming[x as int] == 0) <==> ready_to_run(
            g,
            start,
            done,
            x,
        ),
{
    lemma_unresolved_zero(g.inputs(x), done);
}

/// The order in which a run for `start` processes the graph: at every step the
/// needed node of lowest rank all of whose inputs have run.  Nodes on a
/// cycle never become ready and are left out.
pub fn processing_order<G: Topology>(g: &G, start: usize) -> (order: Vec<usize>)
    requires
        needed_nodes_present(g, start),
    ensures
        is_processing_order(g, start, order@),
{
    let n = g.num_slots();
    let reached = reachable_nodes(g, start);
    let nodes = bitset_ones_ascending(&reached);
    let ghost rset = reachable_set(g, start);
    proof {
        <usize as FiniteRange>::range_properties(0, n);
        assert forall|x: usize| rset.contains(x) implies g.occupied(x) && x < n by {
            lemma_reachable_occupied(g, start, x);
        }
        assert forall|k: int| 0 <= k < nodes@.len() implies g.occupied(#[trigger] nodes@[k]) by {
            assert(nodes@.to_set().contains(nodes@[k]));
        }
        assert forall|x: usize| #[trigger] nodes@.contains(x) <==> rset.contains(x) by {
            assert(nodes@.to_set().contains(x) <==> nodes@.contains(x));
        }
        assert forall|x: usize, j: int|
            nodes@.contains(x) && 0 <= j < g.inputs(x).len() implies g.occupied(#[trigger] g.inputs(x)[j]) by {
            lemma_input_of_reachable(g, start, x, j);
        }
    }
    let (mut incoming, outputs, mut ready) = collect_dependents(g, &nodes, n);
    let mut order: Vec<usize> = Vec::with_capacity(n);
    proof {
        assert forall|x: usize| rset.contains(x) && !order@.to_set().contains(x) implies #[trigger] incoming@[x as int]
            == unresolved(g.inputs(x), order@.to_set()) by {
            assert(order@.to_set() =~= Set::<usize>::empty());
            lemma_unresolved_none_done(g.inputs(x));
        }
        assert forall|x: usize| #[trigger]
            ready@.contains(x) <==> rset.contains(x) && !order@.to_set().contains(x)
                && incoming@[x as int] == 0 by {
        }
    }
    while ready.len() > 0
        invariant
            needed_nodes_present(g, start),
            n == g.slot_count(),
            rset == reachable_set(g, start),
            forall|x: usize| rset.contains(x) ==> g.occupied(x) && x < n,
            rset.subset_of(Set::<usize>::range(0, n)),
            Set::<usize>::range(0, n).finite(),
            Set::<usize>::range(0, n).len() == n,
            incoming@.len() == n,
            outputs@.len() == n,
            forall|m: usize, x: usize|
                m < n ==> #[trigger] occurrences(outputs@[m as int]@, x) == if rset.contains(x) {
                    occurrences(g.inputs(x), m)
                } else {
                    0
                },
            order@.no_duplicates(),
            order@.to_set().subset_of(rset),
            order@.len() <= n,
            forall|x: usize, j: int|
                order@.to_set().contains(x) && 0 <= j < g.inputs(x).len() ==> order@.to_set().contains(
                    #[trigger] g.inputs(x)[j],
                ),
            forall|x: usize|
                rset.contains(x) && !order@.to_set().contains(x) ==> #[trigger] incoming@[x as int]
                    == unresolved(g.inputs(x), order@.to_set()),
            forall|x: usize| #[trigger]
                ready@.contains(x) <==> rset.contains(x) && !order@.to_set().contains(x)
                    && incoming@[x as int] == 0,
            ready@.no_duplicates(),
            forall|k: int|
                0 <= k < order@.len() ==> ready_to_run(
                    g,
                    start,
                    order@.take(k).to_set(),
                    #[trigger] order@[k],
                ),
            forall|k: int, y: usize|
                #![trigger ready_to_run(g, start, order@.take(k).to_set(), y), order@[k]]
                0 <= k < order@.len() && ready_to_run(g, start, order@.take(k).to_set(), y)
                    ==> g.rank(order@[k]) <= g.rank(y),
        decreases n - order@.len(),
    {
        let ghost done = order@.to_set();
        let ghost ready0 = ready@;
        let ghost incoming0 = incoming@;
        let m = take_first_ranked(g, &mut ready);
        proof {
            lemma_ready_iff(g, start, rset, done, incoming0, m);
            assert(rset.contains(m) && !done.contains(m) && incoming0[m as int] == 0);
            assert(ready_to_run(g, start, done, m));
            assert forall|y: usize| ready_to_run(g, start, done, y) implies g.rank(m) <= g.rank(y) by {
                if rset.contains(y) && !done.contains(y) {
                    assert(incoming0[y as int] == unresolved(g.inputs(y), done));
                }
                lemma_ready_iff(g, start, rset, done, incoming0, y);
                assert(rset.contains(y));
                assert(incoming0[y as int] == 0);
                assert(ready0.contains(y));
                let i = choose|i: int| 0 <= i < ready0.len() && ready0[i] == y;
                assert(g.rank(m) <= g.rank(ready0[i]));
            }
            // Every node listed as reading from m is a needed node that has
            // not run and is not m itself.
            assert forall|x: usize| #[trigger] occurrences(outputs@[m as int]@, x) > 0 implies rset.contains(
                x,
            ) && !done.contains(x) && x != m by {
                if !rset.contains(x) {
                } else {
                    lemma_occurrences_positive(g.inputs(x), m);
                    let j = choose|j: int| 0 <= j < g.inputs(x).len() && g.inputs(x)[j] == m;
                    if done.contains(x) {
                        assert(done.contains(g.inputs(x)[j]));
                    }
                    if x == m {
                        assert(done.contains(g.inputs(m)[j]));
                    }
                }
            }
            assert forall|x: usize| x < n implies #[trigger] occurrences(outputs@[m as int]@, x)
                <= incoming@[x as int] by {
                if occurrences(outputs@[m as int]@, x) > 0 {
                    lemma_unresolved_insert(g.inputs(x), done, m);
                }
            }
            assert forall|k: int| 0 <= k < outputs@[m as int]@.len() implies #[trigger] outputs@[m as int]@[k]
                < incoming@.len() by {
                let x = outputs@[m as int]@[k];
                lemma_occurrences_positive(outputs@[m as int]@, x);
                assert(occurrences(outputs@[m as int]@, x) > 0);
            }
            assert forall|k: int| 0 <= k < ready@.len() implies #[trigger] ready@[k] < incoming@.len()
                && incoming@[ready@[k] as int] == 0 by {
                assert(ready0.contains(ready@[k]));
            }
        }
        let ghost order0 = order@;
        order.push(m);
        let ghost incoming1 = incoming@;
        let ghost ready1 = ready@;
        release_dependents(&mut incoming, &mut ready, &outputs[m]);
        proof {
            let done2 = order@.to_set();
            assert(done2 =~= done.insert(m)) by {
                assert forall|x: usize| done2.contains(x) <==> done.insert(m).contains(x) by {
                    if order0.contains(x) {
                        let i = choose|i: int| 0 <= i < order0.len() && order0[i] == x;
                        assert(order@[i] == x);
                    }
                    if x == m {
                        assert(order@[order0.len() as int] == x);
                    }
                    if order@.contains(x) && x != m {
                        let i = choose|i: int| 0 <= i < order@.len() && order@[i] == x;
                        assert(i < order0.len());
                        assert(order0[i] == x);
                    }
                }
            }
            assert forall|a: int, b: int|
                0 <= a < order@.len() && 0 <= b < order@.len() && a != b implies order@[a] != order@[b] by {
                if a == order0.len() as int {
                    assert(order0.contains(order0[b]));
                } else if b == order0.len() as int {
                    assert(order0.contains(order0[a]));
                }
            }
            order@.unique_seq_to_set();
            vstd::set_lib::lemma_len_subset(done2, Set::<usize>::range(0, n));
            assert forall|x: usize|
                rset.contains(x) && !done2.contains(x) implies #[trigger] incoming@[x as int]
                == unresolved(g.inputs(x), done2) by {
                lemma_unresolved_insert(g.inputs(x), done, m);
                if occurrences(outputs@[m as int]@, x) > 0 {
                } else {
                }
            }
            assert forall|x: usize| #[trigger]
                ready@.contains(x) <==> rset.contains(x) && !done2.contains(x) && incoming@[x as int]
                    == 0 by {
                if ready@.contains(x) {
                    if ready1.contains(x) {
                        assert(ready0.contains(x) && x != m);
                    } else {
                        assert(occurrences(outputs@[m as int]@, x) > 0);
                    }
                }
                if rset.contains(x) && !done2.contains(x) && incoming@[x as int] == 0 {
                    if incoming1[x as int] == 0 {
                        assert(ready0.contains(x));
                        assert(ready1.contains(x));
                    }
                }
            }
            assert forall|x: usize, j: int|
                done2.contains(x) && 0 <= j < g.inputs(x).len() implies done2.contains(
                #[trigger] g.inputs(x)[j],
            ) by {
                if x == m {
                    assert(done.contains(g.inputs(m)[j]));
                } else {
                    assert(done.contains(x));
                }
            }
            assert forall|k: int| 0 <= k < order@.len() implies ready_to_run(
                g,
                start,
                order@.take(k).to_set(),
                #[trigger] order@[k],
            ) by {
                if k < order0.len() {
                    assert(order@.take(k) =~= order0.take(k));
                    assert(order@[k] == order0[k]);
                } else {
                    assert(order@.take(k) =~= order0);
                }
            }
            assert forall|k: int, y: usize|
                #![trigger ready_to_run(g, start, order@.take(k).to_set(), y), order@[k]]
                0 <= k < order@.len() && ready_to_run(g, start, order@.take(k).to_set(), y) implies g.rank(
                order@[k],
            ) <= g.rank(y) by {
                if k < order0.len() {
                    assert(order@.take(k) =~= order0.take(k));
                    assert(order@[k] == order0[k]);
                } else {
                    assert(order@.take(k) =~= order0);
                }
            }
        }
    }
    proof {
        let done = order@.to_set();
        assert forall|y: usize| !ready_to_run(g, start, done, y) by {
            lemma_ready_iff(g, start, rset, done, incoming@, y);
            if ready_to_run(g, start, done, y) {
                assert(ready@.contains(y));
            }
        }
    }
    order
}


/// Every node in a processing order runs after all of the nodes it reads from.
pub proof fn lemma_order_runs_inputs_first<G: Topology>(g: &G, start: usize, order: Seq<usize>, k: int, j: int)
    requires
        is_processing_order(g, start, order),
        0 <= k < order.len(),
        0 <= j < g.inputs(order[k]).len(),
    ensures
        exists|i: int| 0 <= i < k && order[i] == g.inputs(order[k])[j],
{
    assert(ready_to_run(g, start, order.take(k).to_set(), order[k]));
    let x = g.inputs(order[k])[j];
    assert(order.take(k).to_set().contains(x));
    let i = choose|i: int| 0 <= i < order.take(k).len() && order.take(k)[i] == x;
    assert(order[i] == x);
}

/// A processing order runs each node at most once, and only nodes that the
/// run needs.
pub proof fn lemma_order_runs_needed_nodes_once<G: Topology>(g: &G, start: usize, order: Seq<usize>)
    requires
        is_processing_order(g, start, order),
    ensures
        order.no_duplicates(),
        forall|k: int| 0 <= k < order.len() ==> reachable(g, start, #[trigger] order[k]),
{
    assert forall|a: int, b: int| 0 <= a < order.len() && 0 <= b < order.len() && a != b implies order[a]
        != order[b] by {
        let (i, j) = if a < b { (a, b) } else { (b, a) };
        assert(ready_to_run(g, start, order.take(j).to_set(), order[j]));
        assert(order.take(j)[i] == order[i]);
        assert(order.take(j).to_set().contains(order[i]));
    }
    assert forall|k: int| 0 <= k < order.len() implies reachable(g, start, #[trigger] order[k]) by {
        assert(ready_to_run(g, start, order.take(k).to_set(), order[k]));
    }
}

proof fn lemma_ranked_nodes_run<G: Topology>(
    g: &G,
    start: usize,
    order: Seq<usize>,
    rank: spec_fn(usize) -> nat,
    r: nat,
)
    requires
        is_processing_order(g, start, order),
        forall|n: usize, j: int|
            reachable(g, start, n) && 0 <= j < g.inputs(n).len() ==> rank(#[trigger] g.inputs(n)[j])
                < rank(n),
    ensures
        forall|n: usize| reachable(g, start, n) && rank(n) <= r ==> #[trigger] order.contains(n),
    decreases r,
{
    if r > 0 {
        lemma_ranked_nodes_run(g, start, order, rank, (r - 1) as nat);
    }
    assert forall|n: usize| reachable(g, start, n) && rank(n) <= r implies #[trigger] order.contains(n) by {
        assert forall|j: int| 0 <= j < g.inputs(n).len() implies order.to_set().contains(
            #[trigger] g.inputs(n)[j],
        ) by {
            lemma_input_of_reachable(g, start, n, j);
            assert(order.contains(g.inputs(n)[j]));
        }
        if !order.contains(n) {
            assert(ready_to_run(g, start, order.to_set(), n));
        }
    }
}

/// When no needed node depends on itself through its inputs (witnessed by a
/// rank that strictly decreases from each node to each of its inputs), the
/// processing order runs every needed node.
pub proof fn lemma_acyclic_order_runs_every_needed_node<G: Topology>(
    g: &G,
    start: usize,
    order: Seq<usize>,
    rank: spec_fn(usize) -> nat,
)
    requires
        is_processing_order(g, start, order),
        forall|n: usize, j: int|
            reachable(g, start, n) && 0 <= j < g.inputs(n).len() ==> rank(#[trigger] g.inputs(n)[j])
                < rank(n),
    ensures
        forall|n: usize| reachable(g, start, n) ==> #[trigger] order.contains(n),
{
    assert forall|n: usize| reachable(g, start, n) implies #[trigger] order.contains(n) by {
        lemma_ranked_nodes_run(g, start, order, rank, rank(n));
    }
}

proof fn lemma_processing_prefixes_agree<G: Topology>(
    g: &G,
    start: usize,
    a: Seq<usize>,
    b: Seq<usize>,
    k: int,
)
    requires
        is_processing_order(g, start, a),
        is_processing_order(g, start, b),
        0 <= k <= a.len(),
        k <= b.len(),
    ensures
        a.take(k) == b.take(k),
    decreases k,
{
    if k > 0 {
        let i = k - 1;
        lemma_processing_prefixes_agree(g, start, a, b, i);
        assert(ready_to_run(g, start, a.take(i).to_set(), a[i]));
        assert(ready_to_run(g, start, b.take(i).to_set(), b[i]));
        assert(g.rank(a[i]) <= g.rank(b[i]));
        assert(g.rank(b[i]) <= g.rank(a[i]));
        g.lemma_rank_injective(a[i], b[i]);
        assert(a.take(k) =~= a.take(i).push(a[i]));
        assert(b.take(k) =~= b.take(i).push(b[i]));
    }
}

/// A graph has one processing order per start node: the schedule is
/// deterministic.
pub proof fn lemma_processing_order_unique<G: Topology>(
    g: &G,
    start: usize,
    a: Seq<usize>,
    b: Seq<usize>,
)
    requires
        is_processing_order(g, start, a),
        is_processing_order(g, start, b),
    ensures
        a == b,
{
    let k = if a.len() < b.len() { a.len() as int } else { b.len() as int };
    lemma_processing_prefixes_agree(g, start, a, b, k);
    if a.len() < b.len() {
        assert(a.take(k) =~= a);
        assert(ready_to_run(g, start, b.take(k).to_set(), b[k]));
    } else if b.len() < a.len() {
        assert(b.take(k) =~= b);
        assert(ready_to_run(g, start, a.take(k).to_set(), a[k]));
    } else {
        assert(a.take(k) =~= a);
        assert(b.take(k) =~= b);
    }
}

} // verus!
