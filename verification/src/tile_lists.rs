//! Per-tile lists of values: which objects can affect a tile, and which
//! conflicts were registered on it.

use vstd::prelude::*;
use crate::grid::TilePos;
use crate::objects::ObjectId;

verus! {

broadcast use vstd::seq_lib::group_seq_properties;

/// `s` without any occurrence of `id`, in the same order.
pub open spec fn without(s: Seq<ObjectId>, id: ObjectId) -> Seq<ObjectId>
    decreases s.len(),
{
    if s.len() == 0 {
        s
    } else {
        let rest = without(s.drop_last(), id);
        if s.last() == id {
            rest
        } else {
            rest.push(s.last())
        }
    }
}

/// For each tile, a list of values, in the order they were added. Tiles that
/// were never given a value have the empty list.
pub struct TileLists<V> {
    entries: Vec<(TilePos, Vec<V>)>,
}

impl<V: Copy> TileLists<V> {
    /// Each tile has at most one entry.
    pub closed spec fn wf(self) -> bool {
        forall|i: int, j: int|
            0 <= i < j < self.entries@.len() ==> self.entries@[i].0 != self.entries@[j].0
    }

    /// The values recorded for tile `p`.
    pub closed spec fn spec_at(self, p: TilePos) -> Seq<V> {
        if exists|i: int| 0 <= i < self.entries@.len() && #[trigger] self.entries@[i].0 == p {
            self.entries@[choose|i: int| 0 <= i < self.entries@.len() && #[trigger] self.entries@[i].0 == p].1@
        } else {
            Seq::empty()
        }
    }

    /// The tiles that have an entry, in the order their first value was added.
    pub closed spec fn spec_keys(self) -> Seq<TilePos> {
        self.entries@.map_values(|e: (TilePos, Vec<V>)| e.0)
    }

    /// Tiles have at most one entry; a tile without one has the empty list.
    pub proof fn lemma_keys(self)
        requires
            self.wf(),
        ensures
            forall|i: int, j: int|
                0 <= i < j < self.spec_keys().len() ==> self.spec_keys()[i] != self.spec_keys()[j],
            forall|p: TilePos| !self.spec_keys().contains(p) ==> #[trigger] self.spec_at(p) == Seq::<V>::empty(),
    {
        assert forall|p: TilePos| !self.spec_keys().contains(p) implies #[trigger] self.spec_at(p) == Seq::<V>::empty() by {
            if exists|i: int| 0 <= i < self.entries@.len() && #[trigger] self.entries@[i].0 == p {
                let i = choose|i: int| 0 <= i < self.entries@.len() && #[trigger] self.entries@[i].0 == p;
                assert(self.spec_keys()[i] == p);
            }
        }
    }

    /// The number of tiles that have an entry.
    pub fn len(&self) -> (n: usize)
        ensures
            n == self.spec_keys().len(),
    {
        self.entries.len()
    }

    /// The `i`-th tile that has an entry.
    pub fn key(&self, i: usize) -> (p: TilePos)
        requires
            i < self.spec_keys().len(),
        ensures
            p == self.spec_keys()[i as int],
    {
        self.entries[i].0
    }

    /// Forgets every entry.
    pub fn clear(&mut self)
        ensures
            final(self).wf(),
            final(self).spec_keys() == Seq::<TilePos>::empty(),
            forall|p: TilePos| #[trigger] final(self).spec_at(p) == Seq::<V>::empty(),
    {
        self.entries = Vec::new();
        assert(self.spec_keys() =~= Seq::<TilePos>::empty());
    }

    /// Lists that record nothing.
    pub fn new() -> (r: TileLists<V>)
        ensures
            r.wf(),
            r.spec_keys() == Seq::<TilePos>::empty(),
            forall|p: TilePos| #[trigger] r.spec_at(p) == Seq::<V>::empty(),
    {
        let r = TileLists { entries: Vec::new() };
        assert(r.spec_keys() =~= Seq::<TilePos>::empty());
        r
    }

    fn find(&self, p: TilePos) -> (r: Option<usize>)
        requires
            self.wf(),
        ensures
            match r {
                Some(i) => i < self.entries@.len() && self.entries@[i as int].0 == p
                    && self.spec_at(p) == self.entries@[i as int].1@,
                None => forall|i: int| 0 <= i < self.entries@.len() ==> #[trigger] self.entries@[i].0 != p,
            },
    {
        let mut i: usize = 0;
        while i < self.entries.len()
            invariant
                self.wf(),
                i <= self.entries@.len(),
                forall|j: int| 0 <= j < i ==> #[trigger] self.entries@[j].0 != p,
            decreases self.entries@.len() - i,
        {
            if self.entries[i].0 == p {
                proof {
                    let c = choose|j: int| 0 <= j < self.entries@.len() && #[trigger] self.entries@[j].0 == p;
                    assert(c == i as int);
                }
                return Some(i);
            }
            i = i + 1;
        }
        None
    }

    /// The values recorded for tile `p`.
    pub fn get(&self, p: TilePos) -> (r: Vec<V>)
        requires
            self.wf(),
        ensures
            r@ == self.spec_at(p),
    {
        match self.find(p) {
            Some(i) => {
                let mut r: Vec<V> = Vec::new();
                let mut k: usize = 0;
                while k < self.entries[i].1.len()
                    invariant
                        i < self.entries@.len(),
                        k <= self.entries@[i as int].1@.len(),
                        r@ == self.entries@[i as int].1@.subrange(0, k as int),
                    decreases self.entries@[i as int].1@.len() - k,
                {
                    r.push(self.entries[i].1[k]);
                    k = k + 1;
                    assert(r@ =~= self.entries@[i as int].1@.subrange(0, k as int));
                }
                assert(r@ =~= self.entries@[i as int].1@);
                r
            },
            None => Vec::new(),
        }
    }

    /// Appends `id` to the list of tile `p`.
    pub fn add(&mut self, p: TilePos, id: V)
        requires
            old(self).wf(),
        ensures
            final(self).wf(),
            final(self).spec_at(p) == old(self).spec_at(p).push(id),
            forall|q: TilePos| q != p ==> #[trigger] final(self).spec_at(q) == old(self).spec_at(q),
            forall|q: TilePos| #[trigger] final(self).spec_keys().contains(q) ==> old(self).spec_keys().contains(q) || q == p,
    {
        match self.find(p) {
            Some(i) => {
                let ghost old_entries = self.entries@;
                self.entries[i].1.push(id);
                proof {
                    assert(self.entries@[i as int].0 == p);
                    assert forall|q: TilePos| q != p implies #[trigger] self.spec_at(q) == old(self).spec_at(q) by {
                        if exists|j: int| 0 <= j < old_entries.len() && #[trigger] old_entries[j].0 == q {
                            let c = choose|j: int| 0 <= j < old_entries.len() && #[trigger] old_entries[j].0 == q;
                            assert(self.entries@[c].0 == q);
                            let c2 = choose|j: int| 0 <= j < self.entries@.len() && #[trigger] self.entries@[j].0 == q;
                            assert(c == c2);
                        } else {
                            assert forall|j: int| 0 <= j < self.entries@.len() implies #[trigger] self.entries@[j].0 != q by {
                                assert(self.entries@[j].0 == old_entries[j].0);
                            }
                        }
                    }
                    let c2 = choose|j: int| 0 <= j < self.entries@.len() && #[trigger] self.entries@[j].0 == p;
                    assert(c2 == i as int);
                    assert forall|q: TilePos| #[trigger] self.spec_keys().contains(q) implies old(self).spec_keys().contains(q) by {
                        let k = choose|k: int| 0 <= k < self.spec_keys().len() && self.spec_keys()[k] == q;
                        assert(old_entries[k].0 == q);
                        assert(old(self).spec_keys()[k] == q);
                    }
                }
            },
            None => {
                let ghost old_entries = self.entries@;
                let mut v: Vec<V> = Vec::new();
                v.push(id);
                self.entries.push((p, v));
                proof {
                    let last = old_entries.len() as int;
                    assert(self.entries@[last].0 == p);
                    let c2 = choose|j: int| 0 <= j < self.entries@.len() && #[trigger] self.entries@[j].0 == p;
                    assert(c2 == last);
                    assert(self.entries@[last].1@ =~= seq![id]);
                    assert(old(self).spec_at(p) == Seq::<V>::empty());
                    assert forall|q: TilePos| #[trigger] self.spec_keys().contains(q) && q != p implies old(self).spec_keys().contains(q) by {
                        let k = choose|k: int| 0 <= k < self.spec_keys().len() && self.spec_keys()[k] == q;
                        assert(k < last);
                        assert(old_entries[k].0 == q);
                        assert(old(self).spec_keys()[k] == q);
                    }
                    assert forall|q: TilePos| q != p implies #[trigger] self.spec_at(q) == old(self).spec_at(q) by {
                        if exists|j: int| 0 <= j < old_entries.len() && #[trigger] old_entries[j].0 == q {
                            let c = choose|j: int| 0 <= j < old_entries.len() && #[trigger] old_entries[j].0 == q;
                            assert(self.entries@[c].0 == q);
                            let c3 = choose|j: int| 0 <= j < self.entries@.len() && #[trigger] self.entries@[j].0 == q;
                            assert(c == c3);
                        } else {
                            assert forall|j: int| 0 <= j < self.entries@.len() implies #[trigger] self.entries@[j].0 != q by {
                                if j < last {
                                    assert(self.entries@[j].0 == old_entries[j].0);
                                }
                            }
                        }
                    }
                }
            },
        }
    }
}

impl TileLists<ObjectId> {
    /// Forgets object `id` on tile `p`.
    pub fn remove(&mut self, p: TilePos, id: ObjectId)
        requires
            old(self).wf(),
        ensures
            final(self).wf(),
            final(self).spec_at(p) == without(old(self).spec_at(p), id),
            forall|q: TilePos| q != p ==> #[trigger] final(self).spec_at(q) == old(self).spec_at(q),
    {
        match self.find(p) {
            Some(i) => {
                let ghost old_entries = self.entries@;
                let ghost before = self.entries@[i as int].1@;
                let mut kept: Vec<ObjectId> = Vec::new();
                let mut k: usize = 0;
                while k < self.entries[i].1.len()
                    invariant
                        self.entries@ == old_entries,
                        i < self.entries@.len(),
                        before == self.entries@[i as int].1@,
                        k <= before.len(),
                        kept@ == without(before.subrange(0, k as int), id),
                    decreases before.len() - k,
                {
                    let o = self.entries[i].1[k];
                    if o != id {
                        kept.push(o);
                    }
                    k = k + 1;
                    assert(before.subrange(0, k as int).drop_last() =~= before.subrange(0, k - 1));
                }
                assert(before.subrange(0, k as int) =~= before);
                self.entries.set(i, (p, kept));
                proof {
                    assert forall|a: int, b: int| 0 <= a < b < self.entries@.len() implies self.entries@[a].0
                        != self.entries@[b].0 by {
                        assert(self.entries@[a].0 == old_entries[a].0);
                        assert(self.entries@[b].0 == old_entries[b].0);
                    }
                    assert(self.wf());
                    assert(self.entries@[i as int].0 == p);
                    assert forall|q: TilePos| q != p implies #[trigger] self.spec_at(q) == old(self).spec_at(q) by {
                        if exists|j: int| 0 <= j < old_entries.len() && #[trigger] old_entries[j].0 == q {
                            let c = choose|j: int| 0 <= j < old_entries.len() && #[trigger] old_entries[j].0 == q;
                            assert(self.entries@[c].0 == q);
                            let c2 = choose|j: int| 0 <= j < self.entries@.len() && #[trigger] self.entries@[j].0 == q;
                            assert(c == c2);
                        } else {
                            assert forall|j: int| 0 <= j < self.entries@.len() implies #[trigger] self.entries@[j].0 != q by {
                                assert(self.entries@[j].0 == old_entries[j].0);
                            }
                        }
                    }
                    let c2 = choose|j: int| 0 <= j < self.entries@.len() && #[trigger] self.entries@[j].0 == p;
                    assert(c2 == i as int);
                }
            },
            None => {
                assert(old(self).spec_at(p) == Seq::<ObjectId>::empty());
                assert(without(Seq::<ObjectId>::empty(), id) == Seq::<ObjectId>::empty());
            },
        }
    }
}


} // verus!
