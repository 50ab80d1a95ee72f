//! Per-node values (meter readings) handed from the audio thread to the user
//! interface through three buffers: the writer fills one, the reader shows
//! another, and the third waits in a shared exchange, either ready to be read
//! or ready to be written.
//!
//! The exchange is shared between the two threads behind a lock; the lock is
//! taken by the caller, and the functions here are what happens while it is
//! held.

use std::collections::HashMap;
use vstd::prelude::*;

verus! {

broadcast use vstd::std_specs::hash::group_hash_axioms;

/// The values of one tick, by entity.
pub struct GraphStateBuffer<V> {
    pub data: HashMap<usize, V>,
}

impl<V> GraphStateBuffer<V> {
    pub open spec fn view(&self) -> Map<usize, V> {
        self.data@
    }

    pub fn new() -> (b: Self)
        ensures
            b.view() == Map::<usize, V>::empty(),
    {
        GraphStateBuffer { data: HashMap::new() }
    }

    /// Records `value` for `key`, returning the value it replaces.
    pub fn insert(&mut self, key: usize, value: V) -> (previous: Option<V>)
        ensures
            final(self).view() == old(self).view().insert(key, value),
            previous == old(self).view().get(key),
    {
        let previous = self.data.insert(key, value);
        proof {
            if old(self).view().contains_key(key) {
                assert(previous == Some(old(self).view()[key]));
            }
        }
        previous
    }

    /// The value recorded for `key`.
    pub fn get(&self, key: &usize) -> (value: Option<&V>)
        ensures
            match value {
                Some(v) => self.view().get(*key) == Some(*v),
                None => self.view().get(*key) == None::<V>,
            },
    {
        self.data.get(key)
    }

    pub fn clear(&mut self)
        ensures
            final(self).view() == Map::<usize, V>::empty(),
    {
        self.data.clear();
    }
}

/// The shared middle buffer, waiting either to be read or to be written.
pub struct StateExchange<V> {
    pub ready_to_read_buffer: Option<GraphStateBuffer<V>>,
    pub ready_to_write_buffer: Option<GraphStateBuffer<V>>,
}

impl<V> StateExchange<V> {
    /// Exactly one of the two slots holds the middle buffer.
    pub open spec fn holds_one_buffer(&self) -> bool {
        self.ready_to_read_buffer is Some != self.ready_to_write_buffer is Some
    }
}

/// The reading side: the buffer the user interface shows.
pub struct GraphStateReader<V> {
    pub buffer: GraphStateBuffer<V>,
}

/// The writing side: the buffer the audio thread fills.
pub struct GraphStateWriter<V> {
    pub buffer: GraphStateBuffer<V>,
}

/// A fresh reader, writer and exchange; the middle buffer starts out ready to
/// be written and all three buffers are empty.
pub fn graph_state_tracker<V>() -> (parts: (GraphStateReader<V>, GraphStateWriter<V>, StateExchange<V>))
    ensures
        parts.0.buffer.view() == Map::<usize, V>::empty(),
        parts.1.buffer.view() == Map::<usize, V>::empty(),
        parts.2.ready_to_read_buffer is None,
        parts.2.ready_to_write_buffer matches Some(b) && b.view() == Map::<usize, V>::empty(),
{
    let reader = GraphStateReader { buffer: GraphStateBuffer::new() };
    let writer = GraphStateWriter { buffer: GraphStateBuffer::new() };
    let inner = StateExchange {
        ready_to_read_buffer: None,
        ready_to_write_buffer: Some(GraphStateBuffer::new()),
    };
    (reader, writer, inner)
}

/// The reader and exchange after the reader's swap.
pub open spec fn reader_swapped<V>(r: GraphStateReader<V>, x: StateExchange<V>) -> (
    GraphStateReader<V>,
    StateExchange<V>,
) {
    match x.ready_to_read_buffer {
        Some(b) => (
            GraphStateReader { buffer: b },
            StateExchange { ready_to_read_buffer: None, ready_to_write_buffer: Some(r.buffer) },
        ),
        None => (r, x),
    }
}

/// The writer and exchange after the writer's swap.
pub open spec fn writer_swapped<V>(w: GraphStateWriter<V>, x: StateExchange<V>) -> (
    GraphStateWriter<V>,
    StateExchange<V>,
) {
    match x.ready_to_read_buffer {
        Some(b) => (
            GraphStateWriter { buffer: b },
            StateExchange {
                ready_to_read_buffer: Some(w.buffer),
                ready_to_write_buffer: x.ready_to_write_buffer,
            },
        ),
        None => match x.ready_to_write_buffer {
            Some(b) => (
                GraphStateWriter { buffer: b },
                StateExchange { ready_to_read_buffer: Some(w.buffer), ready_to_write_buffer: None },
            ),
            None => (w, x),
        },
    }
}

impl<V> GraphStateReader<V> {
    /// Takes the buffer that is ready to be read, if there is one, and leaves
    /// the buffer read so far to be written.
    pub fn swap_buffers(&mut self, inner: &mut StateExchange<V>)
        requires
            old(inner).holds_one_buffer(),
        ensures
            (*final(self), *final(inner)) == reader_swapped(*old(self), *old(inner)),
    {
        let mut taken: Option<GraphStateBuffer<V>> = None;
        std::mem::swap(&mut taken, &mut inner.ready_to_read_buffer);
        match taken {
            Some(buffer) => {
                let mut buffer = buffer;
                std::mem::swap(&mut self.buffer, &mut buffer);
                inner.ready_to_write_buffer = Some(buffer);
            },
            None => {},
        }
    }

    /// The value shown for `key`.
    pub fn get(&self, key: &usize) -> (value: Option<&V>)
        ensures
            match value {
                Some(v) => self.buffer.view().get(*key) == Some(*v),
                None => self.buffer.view().get(*key) == None::<V>,
            },
    {
        self.buffer.get(key)
    }
}

impl<V> GraphStateWriter<V> {
    /// Hands the buffer written so far to the reader.  The writer continues
    /// with the buffer the reader has not taken yet, or else with the one the
    /// reader last gave back; when neither is there it keeps its own.
    pub fn swap_buffers(&mut self, inner: &mut StateExchange<V>)
        ensures
            (*final(self), *final(inner)) == writer_swapped(*old(self), *old(inner)),
    {
        let mut taken: Option<GraphStateBuffer<V>> = None;
        std::mem::swap(&mut taken, &mut inner.ready_to_read_buffer);
        match taken {
            Some(buffer) => {
                let mut buffer = buffer;
                std::mem::swap(&mut self.buffer, &mut buffer);
                inner.ready_to_read_buffer = Some(buffer);
            },
            None => {
                let mut spare: Option<GraphStateBuffer<V>> = None;
                std::mem::swap(&mut spare, &mut inner.ready_to_write_buffer);
                match spare {
                    Some(buffer) => {
                        let mut buffer = buffer;
                        std::mem::swap(&mut self.buffer, &mut buffer);
                        inner.ready_to_read_buffer = Some(buffer);
                    },
                    None => {},
                }
            },
        }
    }

    /// Records `value` for `key` in the buffer being written.
    pub fn insert(&mut self, key: usize, value: V) -> (previous: Option<V>)
        ensures
            final(self).buffer.view() == old(self).buffer.view().insert(key, value),
            previous == old(self).buffer.view().get(key),
    {
        self.buffer.insert(key, value)
    }

    /// The value recorded for `key` in the buffer being written.
    pub fn get(&self, key: &usize) -> (value: Option<&V>)
        ensures
            match value {
                Some(v) => self.buffer.view().get(*key) == Some(*v),
                None => self.buffer.view().get(*key) == None::<V>,
            },
    {
        self.buffer.get(key)
    }
}

/// Both swaps keep exactly one buffer in the exchange.
pub proof fn lemma_swaps_keep_one_buffer<V>(
    r: GraphStateReader<V>,
    w: GraphStateWriter<V>,
    x: StateExchange<V>,
)
    requires
        x.holds_one_buffer(),
    ensures
        reader_swapped(r, x).1.holds_one_buffer(),
        writer_swapped(w, x).1.holds_one_buffer(),
{
}

/// After the writer's swap and then the reader's, the reader shows exactly
/// what the writer had written before its swap.
pub proof fn lemma_reader_sees_written_values_after_swaps<V>(
    r: GraphStateReader<V>,
    w: GraphStateWriter<V>,
    x: StateExchange<V>,
)
    requires
        x.holds_one_buffer(),
    ensures
        ({
            let (w1, x1) = writer_swapped(w, x);
            let (r1, x2) = reader_swapped(r, x1);
            r1.buffer.view() == w.buffer.view() && x2.holds_one_buffer()
        }),
{
}

/// A reader's second swap with no writer's swap in between shows nothing
/// new.
pub proof fn lemma_reader_sees_nothing_new_without_writer_swap<V>(
    r: GraphStateReader<V>,
    x: StateExchange<V>,
)
    requires
        x.holds_one_buffer(),
    ensures
        ({
            let (r1, x1) = reader_swapped(r, x);
            let (r2, x2) = reader_swapped(r1, x1);
            r2 == r1 && x2 == x1
        }),
{
}

/// Of two writer's swaps before the reader's swap, the later one wins: the
/// reader shows what the writer had written before its second swap.
pub proof fn lemma_latest_write_wins_before_reader_swap<V>(
    r: GraphStateReader<V>,
    w: GraphStateWriter<V>,
    x: StateExchange<V>,
    written: GraphStateBuffer<V>,
)
    requires
        x.holds_one_buffer(),
    ensures
        ({
            let (w1, x1) = writer_swapped(w, x);
            let (w2, x2) = writer_swapped(GraphStateWriter { buffer: written }, x1);
            let (r1, x3) = reader_swapped(r, x2);
            r1.buffer.view() == written.view()
        }),
{
}

/// A fresh tracker: a reader that swaps before anything was written shows
/// nothing.
pub proof fn lemma_reader_starts_empty<V>(
    r: GraphStateReader<V>,
    x: StateExchange<V>,
)
    requires
        r.buffer.view() == Map::<usize, V>::empty(),
        x.ready_to_read_buffer is None,
        x.ready_to_write_buffer is Some,
    ensures
        reader_swapped(r, x).0.buffer.view() == Map::<usize, V>::empty(),
{
}

} // verus!
