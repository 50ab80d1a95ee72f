//! The audio thread's copy of the graph: the node descriptions it was last
//! sent, by entity, and the schedule it derives from them.  Also the event
//! buffers each node writes its output events into.

use crate::node::GraphNodeDesc;
use crate::topology::{
    needed_nodes_present, processing_order, reachable_nodes, reachable_nodes_checked, Topology, is_processing_order,
    reachable_set,
};
use crate::bitset::bitset_ones_ascending;
use std::collections::HashSet;
use vstd::prelude::*;

verus! {

/// The nodes the audio thread knows of, by entity.
pub struct Graph {
    pub nodes: Vec<Option<GraphNodeDesc>>,
}

/// `m` after applying `changed` in order, each entry replacing or adding the
/// description of its entity.
pub open spec fn with_changes(
    m: Map<usize, GraphNodeDesc>,
    changed: Seq<(usize, GraphNodeDesc)>,
) -> Map<usize, GraphNodeDesc>
    decreases changed.len(),
{
    if changed.len() == 0 {
        m
    } else {
        with_changes(m, changed.drop_last()).insert(changed.last().0, changed.last().1)
    }
}

impl Graph {
    /// The descriptions by entity.
    pub open spec fn view(&self) -> Map<usize, GraphNodeDesc> {
        Map::new(
            |e: usize| e < self.nodes@.len() && self.nodes@[e as int] is Some,
            |e: usize| self.nodes@[e as int].unwrap(),
        )
    }

    pub fn new() -> (g: Self)
        ensures
            g.view() == Map::<usize, GraphNodeDesc>::empty(),
    {
        let g = Graph { nodes: Vec::new() };
        proof {
            assert(g.view() =~= Map::<usize, GraphNodeDesc>::empty());
        }
        g
    }

    fn put(&mut self, entity: usize, desc: GraphNodeDesc)
        requires
            entity < usize::MAX,
        ensures
            final(self).view() == old(self).view().insert(entity, desc),
    {
        let ghost before = self.view();
        while self.nodes.len() <= entity
            invariant
                self.view() == before,
                entity < usize::MAX,
            decreases entity + 1 - self.nodes@.len(),
        {
            let ghost prev = self.nodes@;
            self.nodes.push(None);
            proof {
                assert forall|e: usize| #[trigger] self.view().contains_key(e) <==> before.contains_key(e) by {
                    if e < prev.len() {
                        assert(self.nodes@[e as int] == prev[e as int]);
                    }
                }
                assert(self.view() =~= before);
            }
        }
        self.nodes.set(entity, Some(desc));
        proof {
            assert(self.view() =~= before.insert(entity, desc));
        }
    }

    fn clear(&mut self, entity: usize)
        ensures
            final(self).view() == old(self).view().remove(entity),
    {
        if entity < self.nodes.len() {
            self.nodes.set(entity, None);
        }
        proof {
            assert(self.view() =~= old(self).view().remove(entity));
        }
    }

    /// Takes in the descriptions that changed since the last update, then
    /// forgets the entities that were removed.
    pub fn update(&mut self, changed: Vec<(usize, GraphNodeDesc)>, removed: Vec<usize>)
        requires
            forall|k: int| 0 <= k < changed@.len() ==> #[trigger] changed@[k].0 < usize::MAX,
        ensures
            final(self).view() == with_changes(old(self).view(), changed@).remove_keys(removed@.to_set()),
    {
        let ghost start = self.view();
        let mut changed = changed;
        let ghost all = changed@;
        let mut pending: Vec<(usize, GraphNodeDesc)> = Vec::new();
        let total = changed.len();
        while changed.len() > 0
            invariant
                total == all.len(),
                changed@ == all.take(changed@.len() as int),
                changed@.len() <= total,
                pending@.len() == total - changed@.len(),
                forall|i: int| 0 <= i < pending@.len() ==> #[trigger] pending@[i] == all[total - 1 - i],
            decreases changed@.len(),
        {
            let ghost c = changed@;
            let item = changed.pop().unwrap();
            proof {
                assert(changed@ =~= all.take(changed@.len() as int));
            }
            pending.push(item);
        }
        let mut k: usize = 0;
        let count = total;
        while k < count
            invariant
                count == all.len(),
                0 <= k <= count,
                pending@.len() == count - k,
                forall|i: int| 0 <= i < pending@.len() ==> #[trigger] pending@[i] == all[count - 1 - i],
                forall|i: int| 0 <= i < all.len() ==> #[trigger] all[i].0 < usize::MAX,
                self.view() == with_changes(start, all.take(k as int)),
            decreases count - k,
        {
            let ghost prefix = all.take(k as int);
            let ghost last = pending@[pending@.len() - 1];
            let (entity, desc) = pending.pop().unwrap();
            proof {
                assert(all[k as int] == (entity, desc));
                assert(all.take(k + 1) =~= prefix.push((entity, desc)));
                assert(all.take(k + 1).drop_last() =~= prefix);
            }
            self.put(entity, desc);
            k += 1;
        }
        proof {
            assert(all.take(count as int) =~= all);
        }
        let ghost after_changes = self.view();
        let mut j: usize = 0;
        while j < removed.len()
            invariant
                0 <= j <= removed@.len(),
                self.view() == after_changes.remove_keys(removed@.take(j as int).to_set()),
            decreases removed@.len() - j,
        {
            let e = removed[j];
            let ghost before = self.view();
            self.clear(e);
            proof {
                assert(removed@.take(j + 1) =~= removed@.take(j as int).push(e));
                assert(removed@.take(j + 1).to_set() =~= removed@.take(j as int).to_set().insert(e)) by {
                    assert forall|x: usize| removed@.take(j + 1).to_set().contains(x) <==> removed@.take(
                        j as int,
                    ).to_set().insert(e).contains(x) by {
                        let a = removed@.take(j + 1);
                        let b = removed@.take(j as int);
                        if a.contains(x) {
                            let i = choose|i: int| 0 <= i < a.len() && a[i] == x;
                            if i < j {
                                assert(b[i] == x);
                            }
                        }
                        if b.contains(x) {
                            let i = choose|i: int| 0 <= i < b.len() && b[i] == x;
                            assert(a[i] == x);
                        }
                        if x == e {
                            assert(a[j as int] == x);
                        }
                    }
                }
                assert(self.view() =~= after_changes.remove_keys(removed@.take(j + 1).to_set()));
            }
            j += 1;
        }
        proof {
            assert(removed@.take(removed@.len() as int) =~= removed@);
        }
    }

    /// The description of `entity`, if it is a node.
    pub fn get_node(&self, entity: usize) -> (d: Option<&GraphNodeDesc>)
        ensures
            d is Some <==> self.view().contains_key(entity),
            d matches Some(x) ==> *x == self.view()[entity],
    {
        if entity < self.nodes.len() {
            match &self.nodes[entity] {
                Some(d) => Some(d),
                None => None,
            }
        } else {
            None
        }
    }

    /// Whether a run for `start` can be scheduled: every node the run needs
    /// (`start`, the nodes that always run, and what they read from) is a
    /// node the audio thread holds.
    pub fn is_schedulable(&self, start: usize) -> (ok: bool)
        ensures
            ok == needed_nodes_present(self, start),
    {
        match reachable_nodes_checked(self, start) {
            Some(_) => true,
            None => false,
        }
    }

    /// The nodes a run for `start` needs.
    pub fn get_reachable_nodes(&self, start: usize) -> (reached: HashSet<usize>)
        requires
            needed_nodes_present(self, start),
        ensures
            reached@ == reachable_set(self, start),
    {
        broadcast use vstd::std_specs::hash::group_hash_axioms;
        let bits = reachable_nodes(self, start);
        let ones = bitset_ones_ascending(&bits);
        let mut reached: HashSet<usize> = HashSet::with_capacity(ones.len());
        let mut k: usize = 0;
        while k < ones.len()
            invariant
                0 <= k <= ones@.len(),
                reached@ == ones@.take(k as int).to_set(),
            decreases ones@.len() - k,
        {
            proof {
                assert(ones@.take(k + 1) =~= ones@.take(k as int).push(ones@[k as int]));
                ones@.take(k as int).lemma_push_to_set_commute(ones@[k as int]);
            }
            reached.insert(ones[k]);
            k += 1;
        }
        proof {
            assert(ones@.take(ones@.len() as int) =~= ones@);
        }
        reached
    }

    /// The order in which a run for `start` processes the nodes.
    pub fn build_breadth_first_traversal(&self, start: usize) -> (order: Vec<usize>)
        requires
            needed_nodes_present(self, start),
        ensures
            is_processing_order(self, start, order@),
    {
        processing_order(self, start)
    }
}

impl Topology for Graph {
    open spec fn slot_count(&self) -> nat {
        self.nodes@.len()
    }

    open spec fn occupied(&self, i: usize) -> bool {
        i < self.nodes@.len() && self.nodes@[i as int] is Some
    }

    open spec fn inputs(&self, i: usize) -> Seq<usize> {
        self.nodes@[i as int].unwrap().inputs@
    }

    open spec fn always_runs(&self, i: usize) -> bool {
        self.nodes@[i as int].unwrap().always_run
    }

    fn num_slots(&self) -> (n: usize) {
        self.nodes.len()
    }

    fn is_occupied(&self, i: usize) -> (b: bool) {
        self.nodes[i].is_some()
    }

    fn num_inputs(&self, i: usize) -> (n: usize) {
        match &self.nodes[i] {
            Some(d) => d.inputs.len(),
            None => 0,
        }
    }

    fn input(&self, i: usize, j: usize) -> (r: usize) {
        match &self.nodes[i] {
            Some(d) => d.inputs[j],
            None => 0,
        }
    }

    fn is_always_run(&self, i: usize) -> (b: bool) {
        match &self.nodes[i] {
            Some(d) => d.always_run,
            None => false,
        }
    }

    /// Nodes that may run are taken in the order of entities: the entity
    /// spawned last first.
    open spec fn rank(&self, i: usize) -> usize {
        (usize::MAX - i) as usize
    }

    fn node_rank(&self, i: usize) -> (r: usize) {
        usize::MAX - i
    }

    proof fn lemma_rank_injective(&self, a: usize, b: usize) {
    }
}

/// The event output ports of one node: one list of events per port.
pub struct EventBuffers<E> {
    pub ports: Vec<Vec<E>>,
}

impl<E> EventBuffers<E> {
    /// `num_ports` empty ports.
    pub fn new(num_ports: usize) -> (b: Self)
        ensures
            b.ports@.len() == num_ports,
            forall|k: int| 0 <= k < num_ports ==> (#[trigger] b.ports@[k])@ == Seq::<E>::empty(),
    {
        let mut ports: Vec<Vec<E>> = Vec::new();
        let mut k: usize = 0;
        while k < num_ports
            invariant
                0 <= k <= num_ports,
                ports@.len() == k,
                forall|i: int| 0 <= i < k ==> (#[trigger] ports@[i])@ == Seq::<E>::empty(),
            decreases num_ports - k,
        {
            ports.push(Vec::new());
            k += 1;
        }
        EventBuffers { ports }
    }

    /// The events of every port.
    pub fn get(&self) -> (ports: &Vec<Vec<E>>)
        ensures
            ports == &self.ports,
    {
        &self.ports
    }

    /// Empties every port, keeping the number of ports.
    pub fn prepare_for_processing(&mut self)
        ensures
            final(self).ports@.len() == old(self).ports@.len(),
            forall|k: int| 0 <= k < final(self).ports@.len() ==> (#[trigger] final(self).ports@[k])@ == Seq::<E>::empty(),
    {
        let count = self.ports.len();
        let mut k: usize = 0;
        while k < count
            invariant
                count == self.ports@.len(),
                0 <= k <= count,
                forall|i: int| 0 <= i < k ==> (#[trigger] self.ports@[i])@ == Seq::<E>::empty(),
            decreases count - k,
        {
            let mut port: Vec<E> = Vec::new();
            std::mem::swap(&mut port, &mut self.ports[k]);
            port.clear();
            std::mem::swap(&mut port, &mut self.ports[k]);
            k += 1;
        }
    }
}

} // verus!
