//! Reordering the channel list: moving the channel at one position to a drop
//! position between channels, and the move that puts it back.

use vstd::prelude::*;

verus! {

/// Where an item taken from `from` lands when dropped before position `to`
/// of the list it was taken from.
pub open spec fn landing(from: int, to: int) -> int {
    if to > from {
        to - 1
    } else {
        to
    }
}

/// `s` with the item at `from` dropped before position `to`.
pub open spec fn moved<T>(s: Seq<T>, from: int, to: int) -> Seq<T> {
    s.remove(from).insert(landing(from, to), s[from])
}

/// The move that undoes moving `from` to `to`.
pub open spec fn undo_move(from: usize, to: usize) -> (usize, usize) {
    if from < to {
        ((to - 1) as usize, from)
    } else if from > to {
        (to, (from + 1) as usize)
    } else {
        (from, to)
    }
}

/// Takes the item at `index` out and drops it before position `destination`
/// of the list as it was.
pub fn move_item<T>(v: &mut Vec<T>, index: usize, destination: usize)
    requires
        index < old(v)@.len(),
        destination <= old(v)@.len(),
    ensures
        final(v)@ == moved(old(v)@, index as int, destination as int),
{
    let item = v.remove(index);
    let destination = if destination > index {
        destination - 1
    } else {
        destination
    };
    v.insert(destination, item);
}

/// Moving an item and then making the undoing move gives back the list.
pub proof fn lemma_move_then_undo<T>(s: Seq<T>, from: usize, to: usize)
    requires
        from < s.len(),
        to <= s.len(),
        s.len() <= usize::MAX,
    ensures
        undo_move(from, to).0 < s.len(),
        undo_move(from, to).1 <= s.len(),
        moved(moved(s, from as int, to as int), undo_move(from, to).0 as int, undo_move(from, to).1 as int)
            == s,
{
    let s1 = moved(s, from as int, to as int);
    let (uf, ut) = undo_move(from, to);
    let x = s[from as int];
    let r = s.remove(from as int);
    let l = landing(from as int, to as int);
    assert(s1[l] == x);
    assert(s1.remove(l) =~= r);
    if from < to {
        assert(uf as int == l && ut as int == from as int);
        assert(landing(uf as int, ut as int) == from as int);
    } else if from > to {
        assert(uf as int == l && ut as int == from + 1);
        assert(landing(uf as int, ut as int) == from as int);
    } else {
        assert(uf as int == l && ut as int == from as int);
        assert(landing(uf as int, ut as int) == from as int);
    }
    assert(r.insert(from as int, x) =~= s);
}

/// The order of the channels, by entity.
pub struct ChannelOrder {
    pub channel_order: Vec<u64>,
}

impl ChannelOrder {
    pub fn new() -> (o: Self)
        ensures
            o.channel_order@ == Seq::<u64>::empty(),
    {
        ChannelOrder { channel_order: Vec::new() }
    }

    /// Moves the channel at `index` so that it lands before the channel that
    /// was at `destination` (at the end when `destination` is the length).
    pub fn move_channel(&mut self, index: usize, destination: usize)
        requires
            index < old(self).channel_order@.len(),
            destination <= old(self).channel_order@.len(),
        ensures
            final(self).channel_order@ == moved(old(self).channel_order@, index as int, destination as int),
    {
        move_item(&mut self.channel_order, index, destination);
    }

    /// Puts `entity` into the order at `index`.
    pub fn insert_channel(&mut self, index: usize, entity: u64)
        requires
            index <= old(self).channel_order@.len(),
        ensures
            final(self).channel_order@ == old(self).channel_order@.insert(index as int, entity),
    {
        self.channel_order.insert(index, entity);
    }

    /// Keeps only the entities for which `alive` holds, in order.
    pub fn retain_alive(&mut self, alive: &Vec<u64>)
        ensures
            final(self).channel_order@ == old(self).channel_order@.filter(|e: u64| alive@.contains(e)),
    {
        let ghost initial = self.channel_order@;
        let ghost keep = |e: u64| alive@.contains(e);
        let mut kept: Vec<u64> = Vec::new();
        let mut k: usize = 0;
        while k < self.channel_order.len()
            invariant
                self.channel_order@ == initial,
                keep == (|e: u64| alive@.contains(e)),
                0 <= k <= initial.len(),
                kept@ == initial.take(k as int).filter(keep),
            decreases initial.len() - k,
        {
            let e = self.channel_order[k];
            proof {
                assert(initial.take(k + 1) =~= initial.take(k as int).push(e));
                initial.take(k as int).lemma_filter_push(e, keep);
            }
            if contains_entity(alive, e) {
                kept.push(e);
            }
            k += 1;
        }
        proof {
            assert(initial.take(initial.len() as int) =~= initial);
        }
        self.channel_order = kept;
    }
}

/// Holds for every entity but `e`.
pub open spec fn is_not(e: u64) -> spec_fn(u64) -> bool {
    |x: u64| x != e
}

impl ChannelOrder {
    /// Takes every occurrence of `entity` out of the order.
    pub fn remove_entity(&mut self, entity: u64)
        ensures
            final(self).channel_order@ == old(self).channel_order@.filter(is_not(entity)),
    {
        let ghost initial = self.channel_order@;
        let mut kept: Vec<u64> = Vec::new();
        let mut k: usize = 0;
        while k < self.channel_order.len()
            invariant
                self.channel_order@ == initial,
                0 <= k <= initial.len(),
                kept@ == initial.take(k as int).filter(is_not(entity)),
            decreases initial.len() - k,
        {
            let e = self.channel_order[k];
            proof {
                assert(initial.take(k + 1) =~= initial.take(k as int).push(e));
                initial.take(k as int).lemma_filter_push(e, is_not(entity));
            }
            if e != entity {
                kept.push(e);
            }
            k += 1;
        }
        proof {
            assert(initial.take(initial.len() as int) =~= initial);
        }
        self.channel_order = kept;
    }
}

/// Leaving out an entity that does not occur changes nothing.
pub proof fn lemma_filter_absent(s: Seq<u64>, e: u64)
    requires
        forall|i: int| 0 <= i < s.len() ==> s[i] != e,
    ensures
        s.filter(is_not(e)) == s,
    decreases s.len(),
{
    reveal(Seq::filter);
    if s.len() > 0 {
        lemma_filter_absent(s.drop_last(), e);
        assert(s.drop_last().push(s.last()) =~= s);
    }
}

/// Leaving out an entity that occurs once, at `i`, removes position `i`.
pub proof fn lemma_filter_once(s: Seq<u64>, i: int)
    requires
        0 <= i < s.len(),
        forall|a: int, b: int| 0 <= a < b < s.len() ==> s[a] != s[b],
    ensures
        s.filter(is_not(s[i])) == s.remove(i),
{
    let e = s[i];
    let front = s.take(i);
    let back = s.skip(i + 1);
    assert(s =~= front + seq![e] + back);
    assert forall|j: int| 0 <= j < front.len() implies front[j] != e by {
        assert(front[j] == s[j]);
    }
    assert forall|j: int| 0 <= j < back.len() implies back[j] != e by {
        assert(back[j] == s[i + 1 + j]);
    }
    lemma_filter_absent(front, e);
    lemma_filter_absent(back, e);
    Seq::filter_distributes_over_add(front + seq![e], back, is_not(e));
    Seq::filter_distributes_over_add(front, seq![e], is_not(e));
    reveal_with_fuel(Seq::filter, 2);
    assert(seq![e].drop_last() =~= Seq::<u64>::empty());
    assert(seq![e].filter(is_not(e)) =~= Seq::<u64>::empty());
    assert(s.remove(i) =~= front + back);
}

/// Putting an entity that does not occur into the order and leaving it out
/// again gives the order back.
pub proof fn lemma_filter_inserted(s: Seq<u64>, i: int, e: u64)
    requires
        0 <= i <= s.len(),
        forall|j: int| 0 <= j < s.len() ==> s[j] != e,
    ensures
        s.insert(i, e).filter(is_not(e)) == s,
{
    let front = s.take(i);
    let back = s.skip(i);
    assert(s.insert(i, e) =~= front + seq![e] + back);
    assert forall|j: int| 0 <= j < front.len() implies front[j] != e by {
        assert(front[j] == s[j]);
    }
    assert forall|j: int| 0 <= j < back.len() implies back[j] != e by {
        assert(back[j] == s[i + j]);
    }
    lemma_filter_absent(front, e);
    lemma_filter_absent(back, e);
    Seq::filter_distributes_over_add(front + seq![e], back, is_not(e));
    Seq::filter_distributes_over_add(front, seq![e], is_not(e));
    reveal_with_fuel(Seq::filter, 2);
    assert(seq![e].drop_last() =~= Seq::<u64>::empty());
    assert(seq![e].filter(is_not(e)) =~= Seq::<u64>::empty());
    assert(s =~= front + back);
}

/// Undoing the undoing move of a move that changes the order gives back the
/// move.
pub proof fn lemma_undo_move_twice(from: usize, to: usize)
    requires
        from < usize::MAX,
        to != from + 1,
    ensures
        undo_move(undo_move(from, to).0, undo_move(from, to).1) == (from, to),
{
}

/// Where in `s` the entry at position `j` of `moved(s, from, to)` was.
pub open spec fn moved_source(from: int, to: int, j: int) -> int {
    let l = landing(from, to);
    if j < l {
        if j < from { j } else { j + 1 }
    } else if j == l {
        from
    } else if j - 1 < from {
        j - 1
    } else {
        j
    }
}

/// A move only rearranges: each entry comes from one position of the list,
/// and no two entries from the same one.
pub proof fn lemma_moved_rearranges<T>(s: Seq<T>, from: int, to: int)
    requires
        0 <= from < s.len(),
        0 <= to <= s.len(),
    ensures
        moved(s, from, to).len() == s.len(),
        forall|j: int| 0 <= j < s.len() ==> 0 <= #[trigger] moved_source(from, to, j) < s.len(),
        forall|j: int| 0 <= j < s.len() ==> #[trigger] moved(s, from, to)[j] == s[moved_source(from, to, j)],
        forall|a: int, b: int|
            0 <= a < b < s.len() ==> #[trigger] moved_source(from, to, a) != #[trigger] moved_source(from, to, b),
{
}

/// Moving keeps the entries of a list distinct, and every entry is one of
/// the list.
pub proof fn lemma_moved_distinct(s: Seq<u64>, from: int, to: int)
    requires
        0 <= from < s.len(),
        0 <= to <= s.len(),
        forall|a: int, b: int| 0 <= a < b < s.len() ==> s[a] != s[b],
    ensures
        forall|a: int, b: int|
            0 <= a < b < moved(s, from, to).len() ==> moved(s, from, to)[a] != moved(s, from, to)[b],
        forall|j: int| 0 <= j < moved(s, from, to).len() ==> s.contains(#[trigger] moved(s, from, to)[j]),
{
    lemma_moved_rearranges(s, from, to);
    let m = moved(s, from, to);
    assert forall|a: int, b: int| 0 <= a < b < m.len() implies m[a] != m[b] by {
        let sa = moved_source(from, to, a);
        let sb = moved_source(from, to, b);
        assert(sa != sb);
        if sa < sb {
            assert(s[sa] != s[sb]);
        } else {
            assert(s[sb] != s[sa]);
        }
    }
    assert forall|j: int| 0 <= j < m.len() implies s.contains(#[trigger] m[j]) by {
        assert(s[moved_source(from, to, j)] == m[j]);
    }
}

/// Whether `list` holds `e`.
pub fn contains_entity(list: &Vec<u64>, e: u64) -> (found: bool)
    ensures
        found == list@.contains(e),
{
    let mut k: usize = 0;
    while k < list.len()
        invariant
            0 <= k <= list@.len(),
            forall|i: int| 0 <= i < k ==> list@[i] != e,
        decreases list@.len() - k,
    {
        if list[k] == e {
            return true;
        }
        k += 1;
    }
    false
}

} // verus!
