//! The graph nodes of the application's entity store, and the operations
//! that wire them together.  Entity `e` is a graph node when slot `e` holds
//! its description.

use crate::node::{
    connect_outcome, lists_in_order, not_from, remove_source, sources, without_source, GraphConnection,
    GraphError, GraphNodeDesc, GraphPorts,
};
use vstd::prelude::*;

verus! {

/// The descriptions of the entities that are graph nodes.
pub struct GraphWorld {
    pub nodes: Vec<Option<GraphNodeDesc>>,
}

/// Which side of a node a connection is made on.
#[derive(Clone, Copy, Debug, PartialEq, Eq, Structural)]
pub enum PortKind {
    Audio,
    Event,
}

impl GraphNodeDesc {
    pub open spec fn ports(&self, kind: PortKind) -> GraphPorts {
        match kind {
            PortKind::Audio => self.audio_channels,
            PortKind::Event => self.event_channels,
        }
    }
}

/// What connecting `c` into `dst` on the `kind` side gives, by the
/// descriptions before the call.
pub open spec fn connect_result(
    world: Seq<Option<GraphNodeDesc>>,
    dst: usize,
    c: GraphConnection,
    kind: PortKind,
) -> Result<Seq<GraphConnection>, GraphError> {
    if dst == c.src {
        Err(GraphError::DestEqualsSrc)
    } else if !(dst < world.len() && world[dst as int] is Some) {
        Err(GraphError::InvalidEntity(dst))
    } else if !(c.src < world.len() && world[c.src as int] is Some) {
        Err(GraphError::InvalidEntity(c.src))
    } else {
        let d = world[dst as int].unwrap();
        let s = world[c.src as int].unwrap();
        connect_outcome(d.ports(kind).connections@, d.ports(kind).num_inputs, s.ports(kind).num_outputs, c)
    }
}

/// The connections read from none of `removed`.
pub open spec fn without_sources(conns: Seq<GraphConnection>, removed: Set<usize>) -> Seq<
    GraphConnection,
> {
    conns.filter(not_from_any(removed))
}

/// Holds of the connections read from none of `removed`.
pub open spec fn not_from_any(removed: Set<usize>) -> spec_fn(GraphConnection) -> bool {
    |c: GraphConnection| !removed.contains(c.src)
}

/// Filtering by a predicate that holds everywhere keeps everything.
pub proof fn lemma_filter_keep_all<A>(s: Seq<A>, p: spec_fn(A) -> bool)
    requires
        forall|x: A| #[trigger] p(x),
    ensures
        s.filter(p) == s,
    decreases s.len(),
{
    if s.len() == 0 {
        reveal(Seq::filter);
        assert(s.filter(p) =~= s);
    } else {
        let t = s.drop_last();
        assert(s =~= t.push(s.last()));
        lemma_filter_keep_all(t, p);
        t.lemma_filter_push(s.last(), p);
    }
}

/// Filtering by `p` and then by `q` keeps what filtering by `pq` keeps when
/// `pq` holds exactly where both do.
pub proof fn lemma_filter_compose<A>(
    s: Seq<A>,
    p: spec_fn(A) -> bool,
    q: spec_fn(A) -> bool,
    pq: spec_fn(A) -> bool,
)
    requires
        forall|x: A| #[trigger] pq(x) == (p(x) && q(x)),
    ensures
        s.filter(p).filter(q) == s.filter(pq),
    decreases s.len(),
{
    if s.len() == 0 {
        reveal(Seq::filter);
        assert(s.filter(p) =~= s);
        assert(s.filter(pq) =~= s);
        assert(s.filter(p).filter(q) =~= s);
    } else {
        let t = s.drop_last();
        let x = s.last();
        assert(s =~= t.push(x));
        lemma_filter_compose(t, p, q, pq);
        t.lemma_filter_push(x, p);
        t.lemma_filter_push(x, pq);
        if p(x) {
            t.filter(p).lemma_filter_push(x, q);
        }
    }
}

/// Node `d` reads from one of `removed`, by its list of input nodes.
pub open spec fn reads_from_any(d: GraphNodeDesc, removed: Set<usize>) -> bool {
    exists|k: int| 0 <= k < d.inputs@.len() && removed.contains(#[trigger] d.inputs@[k])
}

impl GraphWorld {
    pub open spec fn node(&self, e: usize) -> Option<GraphNodeDesc> {
        if e < self.nodes@.len() {
            self.nodes@[e as int]
        } else {
            None
        }
    }

    pub fn new() -> (w: Self)
        ensures
            w.nodes@ == Seq::<Option<GraphNodeDesc>>::empty(),
    {
        GraphWorld { nodes: Vec::new() }
    }

    /// Adds a node and returns its entity.
    pub fn spawn(&mut self, desc: GraphNodeDesc) -> (e: usize)
        requires
            old(self).nodes@.len() < usize::MAX,
        ensures
            e == old(self).nodes@.len(),
            final(self).nodes@ == old(self).nodes@.push(Some(desc)),
    {
        let e = self.nodes.len();
        self.nodes.push(Some(desc));
        e
    }

    /// Removes the node of entity `e`, if there is one.
    pub fn despawn(&mut self, e: usize)
        ensures
            final(self).nodes@ == if e < old(self).nodes@.len() {
                old(self).nodes@.update(e as int, None)
            } else {
                old(self).nodes@
            },
    {
        if e < self.nodes.len() {
            self.nodes.set(e, None);
        }
    }

    pub fn get(&self, e: usize) -> (d: Option<&GraphNodeDesc>)
        ensures
            d == match self.node(e) {
                Some(x) => Some(&x),
                None => None::<&GraphNodeDesc>,
            },
    {
        if e < self.nodes.len() {
            match &self.nodes[e] {
                Some(d) => Some(d),
                None => None,
            }
        } else {
            None
        }
    }

    fn take_node(&mut self, e: usize) -> (d: GraphNodeDesc)
        requires
            e < old(self).nodes@.len(),
            old(self).nodes@[e as int] is Some,
        ensures
            d == old(self).nodes@[e as int].unwrap(),
            final(self).nodes@ == old(self).nodes@.update(e as int, None),
    {
        let mut slot: Option<GraphNodeDesc> = None;
        std::mem::swap(&mut slot, &mut self.nodes[e]);
        slot.unwrap()
    }
}

/// Connects `connection.src` into node `dst` on the given side, then
/// recomputes `dst`'s input nodes.  Refused when `dst` is the source, when
/// either entity is not a node, or when a channel is out of range; a refused
/// call changes nothing.
pub fn connect_channels(world: &mut GraphWorld, dst: usize, connection: GraphConnection, kind: PortKind) -> (r: Result<
    (),
    GraphError,
>)
    ensures
        match connect_result(old(world).nodes@, dst, connection, kind) {
            Err(e) => r == Err::<(), GraphError>(e) && final(world).nodes@ == old(world).nodes@,
            Ok(conns) => {
                let before = old(world).nodes@[dst as int].unwrap();
                let after = final(world).nodes@[dst as int].unwrap();
                &&& r == Ok::<(), GraphError>(())
                &&& final(world).nodes@.len() == old(world).nodes@.len()
                &&& forall|e: int| 0 <= e < old(world).nodes@.len() && e != dst ==> #[trigger] final(world).nodes@[e] == old(world).nodes@[e]
                &&& final(world).nodes@[dst as int] is Some
                &&& after.ports(kind).connections@ == conns
                &&& after.ports(kind).num_inputs == before.ports(kind).num_inputs
                &&& after.ports(kind).num_outputs == before.ports(kind).num_outputs
                &&& match kind {
                    PortKind::Audio => after.event_channels == before.event_channels,
                    PortKind::Event => after.audio_channels == before.audio_channels,
                }
                &&& after.always_run == before.always_run
                &&& lists_in_order(after.inputs@, after.source_nodes())
            },
        },
{
    if dst == connection.src {
        return Err(GraphError::DestEqualsSrc);
    }
    if !(dst < world.nodes.len() && world.nodes[dst].is_some()) {
        return Err(GraphError::InvalidEntity(dst));
    }
    let src = connection.src;
    if !(src < world.nodes.len() && world.nodes[src].is_some()) {
        return Err(GraphError::InvalidEntity(src));
    }
    let src_outputs = match (&world.nodes[src], kind) {
        (Some(s), PortKind::Audio) => s.audio_channels.num_outputs,
        (Some(s), PortKind::Event) => s.event_channels.num_outputs,
        (None, _) => 0,
    };
    let ghost before = world.nodes@;
    let mut d = world.take_node(dst);
    let result = match kind {
        PortKind::Audio => d.audio_channels.connect(src_outputs, connection),
        PortKind::Event => d.event_channels.connect(src_outputs, connection),
    };
    match result {
        Ok(()) => {
            d.update_input_nodes();
        },
        Err(_) => {},
    }
    world.nodes.set(dst, Some(d));
    proof {
        assert(before.update(dst as int, None).update(dst as int, Some(d)) == before.update(dst as int, Some(d)));
        if result is Err {
            assert(world.nodes@ =~= before);
        }
    }
    result
}

/// Connects an audio output of `connection.src` into an audio input of `dst`.
pub fn graph_connect_audio(world: &mut GraphWorld, dst: usize, connection: GraphConnection) -> (r: Result<
    (),
    GraphError,
>)
    ensures
        connect_channels_post(*old(world), *final(world), dst, connection, PortKind::Audio, r),
{
    connect_channels(world, dst, connection, PortKind::Audio)
}

/// Connects an event output of `connection.src` into an event input of `dst`.
pub fn graph_connect_event(world: &mut GraphWorld, dst: usize, connection: GraphConnection) -> (r: Result<
    (),
    GraphError,
>)
    ensures
        connect_channels_post(*old(world), *final(world), dst, connection, PortKind::Event, r),
{
    connect_channels(world, dst, connection, PortKind::Event)
}

/// The contract of `connect_channels`, as a predicate.
pub open spec fn connect_channels_post(
    before_world: GraphWorld,
    after_world: GraphWorld,
    dst: usize,
    connection: GraphConnection,
    kind: PortKind,
    r: Result<(), GraphError>,
) -> bool {
    match connect_result(before_world.nodes@, dst, connection, kind) {
        Err(e) => r == Err::<(), GraphError>(e) && after_world.nodes@ == before_world.nodes@,
        Ok(conns) => {
            let before = before_world.nodes@[dst as int].unwrap();
            let after = after_world.nodes@[dst as int].unwrap();
            &&& r == Ok::<(), GraphError>(())
            &&& after_world.nodes@.len() == before_world.nodes@.len()
            &&& forall|e: int| 0 <= e < before_world.nodes@.len() && e != dst ==> #[trigger] after_world.nodes@[e] == before_world.nodes@[e]
            &&& after_world.nodes@[dst as int] is Some
            &&& after.ports(kind).connections@ == conns
            &&& after.ports(kind).num_inputs == before.ports(kind).num_inputs
            &&& after.ports(kind).num_outputs == before.ports(kind).num_outputs
            &&& match kind {
                PortKind::Audio => after.event_channels == before.event_channels,
                PortKind::Event => after.audio_channels == before.audio_channels,
            }
            &&& after.always_run == before.always_run
            &&& lists_in_order(after.inputs@, after.source_nodes())
        },
    }
}

/// Connecting what is already connected changes nothing: after a connection
/// is accepted, making it again is accepted and leaves the connections as
/// they are.
pub proof fn lemma_connect_twice_is_connect_once(
    before: GraphWorld,
    after: GraphWorld,
    dst: usize,
    connection: GraphConnection,
    kind: PortKind,
)
    requires
        connect_channels_post(before, after, dst, connection, kind, Ok(())),
    ensures
        connect_result(after.nodes@, dst, connection, kind) == Ok::<Seq<GraphConnection>, GraphError>(
            after.nodes@[dst as int].unwrap().ports(kind).connections@,
        ),
{
    let conns = connect_result(before.nodes@, dst, connection, kind)->Ok_0;
    let d = before.nodes@[dst as int].unwrap();
    assert(conns.contains(connection)) by {
        if !d.ports(kind).connections@.contains(connection) {
            assert(conns[conns.len() - 1] == connection);
        }
    }
    assert(after.nodes@[connection.src as int] == before.nodes@[connection.src as int]);
}

/// Drops the event connections of `node` that read from `input_node`.  The
/// node's list of input nodes is left as it was.
pub fn graph_disconnect_event_input(world: &mut GraphWorld, node: usize, input_node: usize) -> (r: Result<
    (),
    GraphError,
>)
    ensures
        match old(world).node(node) {
            None => r == Err::<(), GraphError>(GraphError::InvalidEntity(node)) && final(world).nodes@
                == old(world).nodes@,
            Some(d) => {
                let after = final(world).nodes@[node as int].unwrap();
                &&& r == Ok::<(), GraphError>(())
                &&& final(world).nodes@.len() == old(world).nodes@.len()
                &&& forall|e: int| 0 <= e < old(world).nodes@.len() && e != node ==> #[trigger] final(world).nodes@[e] == old(world).nodes@[e]
                &&& final(world).nodes@[node as int] is Some
                &&& after.event_channels.connections@ == without_source(d.event_channels.connections@, input_node)
                &&& after.event_channels.num_inputs == d.event_channels.num_inputs
                &&& after.event_channels.num_outputs == d.event_channels.num_outputs
                &&& after.audio_channels == d.audio_channels
                &&& after.inputs == d.inputs
                &&& after.always_run == d.always_run
            },
        },
{
    if !(node < world.nodes.len() && world.nodes[node].is_some()) {
        return Err(GraphError::InvalidEntity(node));
    }
    let mut d = world.take_node(node);
    remove_source(&mut d.event_channels.connections, input_node);
    world.nodes.set(node, Some(d));
    Ok(())
}


/// Removes, from every node that lists one of `removed` among its input
/// nodes, the connections read from any of `removed`, and recomputes that
/// node's input nodes.  Other nodes are left as they were.
pub fn detach_removed_nodes(world: &mut GraphWorld, removed: &Vec<usize>)
    ensures
        final(world).nodes@.len() == old(world).nodes@.len(),
        forall|e: int|
            0 <= e < old(world).nodes@.len() ==> #[trigger] detached(
                old(world).nodes@[e],
                final(world).nodes@[e],
                removed@.to_set(),
            ),
{
    let ghost start = world.nodes@;
    let ghost gone = removed@.to_set();
    let count = world.nodes.len();
    let mut e: usize = 0;
    while e < count
        invariant
            count == start.len(),
            world.nodes@.len() == start.len(),
            gone == removed@.to_set(),
            0 <= e <= count,
            forall|i: int| 0 <= i < e ==> #[trigger] detached(start[i], world.nodes@[i], gone),
            forall|i: int| e <= i < count ==> #[trigger] world.nodes@[i] == start[i],
        decreases count - e,
    {
        let affected = match &world.nodes[e] {
            Some(d) => any_listed(&d.inputs, removed),
            None => false,
        };
        if affected {
            let ghost before = world.nodes@;
            let mut d = world.take_node(e);
            let ghost d0 = d;
            proof {
                let none = removed@.take(0).to_set();
                assert forall|c: GraphConnection| #[trigger] not_from_any(none)(c) by {
                    if none.contains(c.src) {
                        assert(removed@.take(0).contains(c.src));
                    }
                }
                lemma_filter_keep_all(d0.audio_channels.connections@, not_from_any(none));
                lemma_filter_keep_all(d0.event_channels.connections@, not_from_any(none));
            }
            let mut j: usize = 0;
            while j < removed.len()
                invariant
                    0 <= j <= removed@.len(),
                    d.audio_channels.connections@ == without_sources(
                        d0.audio_channels.connections@,
                        removed@.take(j as int).to_set(),
                    ),
                    d.event_channels.connections@ == without_sources(
                        d0.event_channels.connections@,
                        removed@.take(j as int).to_set(),
                    ),
                    d.audio_channels.num_inputs == d0.audio_channels.num_inputs,
                    d.audio_channels.num_outputs == d0.audio_channels.num_outputs,
                    d.event_channels.num_inputs == d0.event_channels.num_inputs,
                    d.event_channels.num_outputs == d0.event_channels.num_outputs,
                    d.always_run == d0.always_run,
                    j > 0 ==> lists_in_order(d.inputs@, d.source_nodes()),
                decreases removed@.len() - j,
            {
                let r = removed[j];
                let ghost a0 = d.audio_channels.connections@;
                let ghost v0 = d.event_channels.connections@;
                d.disconnect_node(r);
                proof {
                    let before_set = removed@.take(j as int).to_set();
                    let after_set = removed@.take(j + 1).to_set();
                    assert(removed@.take(j + 1) =~= removed@.take(j as int).push(r));
                    assert forall|c: GraphConnection| #[trigger] not_from_any(after_set)(c) == (
                    not_from_any(before_set)(c) && not_from(r)(c)) by {
                        assert(after_set.contains(c.src) <==> before_set.contains(c.src) || c.src
                            == r) by {
                            let grown = removed@.take(j + 1);
                            if after_set.contains(c.src) {
                                let k = choose|k: int| 0 <= k < grown.len() && grown[k] == c.src;
                                if k < j {
                                    assert(removed@.take(j as int)[k] == c.src);
                                }
                            }
                            let shorter = removed@.take(j as int);
                            if before_set.contains(c.src) {
                                let k = choose|k: int| 0 <= k < shorter.len() && shorter[k] == c.src;
                                assert(removed@.take(j + 1)[k] == c.src);
                            }
                            if c.src == r {
                                assert(removed@.take(j + 1)[j as int] == c.src);
                            }
                        }
                    }
                    lemma_filter_compose(
                        d0.audio_channels.connections@,
                        not_from_any(before_set),
                        not_from(r),
                        not_from_any(after_set),
                    );
                    lemma_filter_compose(
                        d0.event_channels.connections@,
                        not_from_any(before_set),
                        not_from(r),
                        not_from_any(after_set),
                    );
                }
                j += 1;
            }
            proof {
                assert(removed@.take(removed@.len() as int) =~= removed@);
                if removed@.len() == 0 {
                    assert(!reads_from_any(d0, gone));
                }
            }
            world.nodes.set(e, Some(d));
            proof {
                assert forall|i: int| 0 <= i < e + 1 implies #[trigger] detached(start[i], world.nodes@[i], gone) by {
                    if i < e {
                        assert(world.nodes@[i] == before[i]);
                    }
                }
            }
        } else {
            proof {
                assert(detached(start[e as int], world.nodes@[e as int], gone));
            }
        }
        e += 1;
    }
}

/// What `detach_removed_nodes` makes of one slot.
pub open spec fn detached(
    before: Option<GraphNodeDesc>,
    after: Option<GraphNodeDesc>,
    removed: Set<usize>,
) -> bool {
    match before {
        None => after is None,
        Some(d) => if reads_from_any(d, removed) {
            &&& after is Some
            &&& after.unwrap().audio_channels.connections@ == without_sources(
                d.audio_channels.connections@,
                removed,
            )
            &&& after.unwrap().event_channels.connections@ == without_sources(
                d.event_channels.connections@,
                removed,
            )
            &&& after.unwrap().audio_channels.num_inputs == d.audio_channels.num_inputs
            &&& after.unwrap().audio_channels.num_outputs == d.audio_channels.num_outputs
            &&& after.unwrap().event_channels.num_inputs == d.event_channels.num_inputs
            &&& after.unwrap().event_channels.num_outputs == d.event_channels.num_outputs
            &&& after.unwrap().always_run == d.always_run
            &&& lists_in_order(after.unwrap().inputs@, after.unwrap().source_nodes())
        } else {
            after == before
        },
    }
}

/// Whether some entry of `list` is one of `wanted`.
pub fn any_listed(list: &Vec<usize>, wanted: &Vec<usize>) -> (found: bool)
    ensures
        found == exists|k: int| 0 <= k < list@.len() && wanted@.to_set().contains(#[trigger] list@[k]),
{
    let mut k: usize = 0;
    while k < list.len()
        invariant
            0 <= k <= list@.len(),
            forall|i: int| 0 <= i < k ==> !wanted@.contains(#[trigger] list@[i]),
        decreases list@.len() - k,
    {
        let mut j: usize = 0;
        while j < wanted.len()
            invariant
                0 <= j <= wanted@.len(),
                k < list@.len(),
                forall|i: int| 0 <= i < j ==> wanted@[i] != list@[k as int],
            decreases wanted@.len() - j,
        {
            if wanted[j] == list[k] {
                proof {
                    assert(wanted@.to_set().contains(list@[k as int]));
                }
                return true;
            }
            j += 1;
        }
        k += 1;
    }
    proof {
        assert forall|i: int| 0 <= i < list@.len() implies !wanted@.to_set().contains(#[trigger] list@[i]) by {
            assert(!wanted@.contains(list@[i]));
        }
    }
    false
}


/// Detaching removed nodes: a node that was there is still there, and
/// afterwards reads from none of the removed entities, neither through a
/// connection nor among its inputs; a node that read from none of them is
/// left as it was.  Stated of nodes whose inputs list the sources of their
/// connections, as every node the graph operations make does.
pub proof fn lemma_detached_reads_no_removed(
    before: GraphNodeDesc,
    after: Option<GraphNodeDesc>,
    removed: Set<usize>,
)
    requires
        lists_in_order(before.inputs@, before.source_nodes()),
        detached(Some(before), after, removed),
    ensures
        after is Some,
        forall|k: int|
            0 <= k < after.unwrap().audio_channels.connections@.len() ==> !removed.contains(
                #[trigger] after.unwrap().audio_channels.connections@[k].src,
            ),
        forall|k: int|
            0 <= k < after.unwrap().event_channels.connections@.len() ==> !removed.contains(
                #[trigger] after.unwrap().event_channels.connections@[k].src,
            ),
        forall|k: int|
            0 <= k < after.unwrap().inputs@.len() ==> !removed.contains(#[trigger] after.unwrap().inputs@[k]),
        !reads_from_any(before, removed) ==> after == Some(before),
{
    let a = after.unwrap();
    if reads_from_any(before, removed) {
        let p = not_from_any(removed);
        assert forall|k: int| 0 <= k < a.audio_channels.connections@.len() implies !removed.contains(
            #[trigger] a.audio_channels.connections@[k].src,
        ) by {
            before.audio_channels.connections@.lemma_filter_pred(p, k);
        }
        assert forall|k: int| 0 <= k < a.event_channels.connections@.len() implies !removed.contains(
            #[trigger] a.event_channels.connections@[k].src,
        ) by {
            before.event_channels.connections@.lemma_filter_pred(p, k);
        }
        assert forall|k: int| 0 <= k < a.inputs@.len() implies !removed.contains(#[trigger] a.inputs@[k]) by {
            let x = a.inputs@[k];
            assert(a.inputs@.to_set().contains(x));
            assert(a.source_nodes().contains(x));
            if sources(a.audio_channels.connections@).contains(x) {
                let j = choose|j: int| 0 <= j < a.audio_channels.connections@.len()
                    && #[trigger] a.audio_channels.connections@[j].src == x;
                before.audio_channels.connections@.lemma_filter_pred(p, j);
            } else {
                let j = choose|j: int| 0 <= j < a.event_channels.connections@.len()
                    && #[trigger] a.event_channels.connections@[j].src == x;
                before.event_channels.connections@.lemma_filter_pred(p, j);
            }
        }
    } else {
        assert forall|k: int| 0 <= k < a.inputs@.len() implies !removed.contains(#[trigger] a.inputs@[k]) by {
        }
        assert forall|k: int| 0 <= k < a.audio_channels.connections@.len() implies !removed.contains(
            #[trigger] a.audio_channels.connections@[k].src,
        ) by {
            let x = a.audio_channels.connections@[k].src;
            assert(sources(a.audio_channels.connections@).contains(x));
            assert(before.inputs@.to_set().contains(x));
            let i = choose|i: int| 0 <= i < before.inputs@.len() && before.inputs@[i] == x;
            assert(!removed.contains(before.inputs@[i]));
        }
        assert forall|k: int| 0 <= k < a.event_channels.connections@.len() implies !removed.contains(
            #[trigger] a.event_channels.connections@[k].src,
        ) by {
            let x = a.event_channels.connections@[k].src;
            assert(sources(a.event_channels.connections@).contains(x));
            assert(before.inputs@.to_set().contains(x));
            let i = choose|i: int| 0 <= i < before.inputs@.len() && before.inputs@[i] == x;
            assert(!removed.contains(before.inputs@[i]));
        }
    }
}

} // verus!
