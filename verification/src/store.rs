//! The store of wires, found by name and kept in order.

use vstd::prelude::*;
use vstd::hash_map::StringHashMap;
use crate::signal::Signal;
use crate::wire::Wire;
use crate::wire::WireView;
use crate::wire_id::WireId;
use crate::wire_id::id_lt;
use crate::wire_id::lemma_id_lt_total;
use crate::wire_id::lemma_id_lt_transitive;
use crate::wire_id::strictly_sorted;

verus! {

/// The names that a list of wire ids holds, in the same order.
pub open spec fn names(ids: Seq<WireId>) -> Seq<Seq<char>> {
    ids.map_values(|id: WireId| id@)
}

/// The wires of a list as plain values, in the same order.
pub open spec fn wire_views(wires: Seq<Wire>) -> Seq<WireView> {
    wires.map_values(|wire: Wire| wire@)
}

/// The names of the wires of a list, in the same order.
pub open spec fn wire_names(wires: Seq<Wire>) -> Seq<Seq<char>> {
    wires.map_values(|wire: Wire| wire@.id)
}

/// The wires named in `order`, as `wires` holds them, in that order.
pub open spec fn wires_in_order(wires: Map<Seq<char>, WireView>, order: Seq<Seq<char>>) -> Seq<
    WireView,
> {
    order.map_values(|name: Seq<char>| wires[name])
}

/// The order of the names that are left when `name` is taken out: the last
/// name takes its place.
pub open spec fn order_without(order: Seq<Seq<char>>, name: Seq<char>) -> Seq<Seq<char>> {
    order.update(order.index_of(name), order.last()).drop_last()
}

/// The wires of a circuit, found by name.
///
/// Its view is the map from each name to the wire of that name.
pub struct WireStore {
    wires: Vec<Wire>,
    index: StringHashMap<usize>,
}

impl View for WireStore {
    type V = Map<Seq<char>, WireView>;

    closed spec fn view(&self) -> Map<Seq<char>, WireView> {
        Map::new(
            |k: Seq<char>| self.index@.contains_key(k),
            |k: Seq<char>| self.wires@[self.index@[k] as int]@,
        )
    }
}

impl Clone for WireStore {
    /// A store that holds copies of the same wires in the same order.
    fn clone(&self) -> (copy: WireStore)
        ensures
            copy.wf(),
            self.wf() ==> copy@ == self@ && copy.order() == self.order(),
    {
        let mut copy = WireStore::new();
        let n = self.wires.len();
        let mut i: usize = 0;
        proof {
            assert(self.order().take(0) =~= Seq::<Seq<char>>::empty());
        }
        while i < n
            invariant
                i <= n,
                n == self.wires@.len(),
                copy.wf(),
                self.wf() ==> {
                    &&& copy.order() == self.order().take(i as int)
                    &&& forall|k: Seq<char>|
                        copy@.contains_key(k) <==> self.order().take(i as int).contains(k)
                    &&& forall|k: Seq<char>| #[trigger]
                        copy@.contains_key(k) ==> copy@[k] == self@[k]
                },
            decreases n - i,
        {
            let ghost before = copy;
            let wire = self.wires[i].clone();
            let added = copy.insert(wire);
            proof {
                if self.wf() {
                    self.lemma_wf();
                    let order = self.order();
                    let name = self.wires@[i as int]@.id;
                    let done = order.take(i as int);
                    let next = order.take(i + 1);
                    assert(order[i as int] == name);
                    assert(next =~= done.push(name));
                    if done.contains(name) {
                        let j = choose|j: int| 0 <= j < done.len() && done[j] == name;
                        assert(order[j] == order[i as int]);
                    }
                    assert(added);
                    assert(self.index@.contains_key(self.wires@[i as int]@.id));
                    assert(self@[name] == self.wires@[i as int]@);
                    assert forall|k: Seq<char>| copy@.contains_key(k) <==> next.contains(k) by {
                        if next.contains(k) {
                            let j = choose|j: int| 0 <= j < next.len() && next[j] == k;
                            if j < i {
                                assert(done[j] == k);
                            }
                        }
                        if before@.contains_key(k) {
                            let j = choose|j: int| 0 <= j < done.len() && done[j] == k;
                            assert(next[j] == k);
                        }
                        if k == name {
                            assert(next[i as int] == k);
                        }
                    }
                }
            }
            i = i + 1;
        }
        proof {
            if self.wf() {
                self.lemma_wf();
                assert(self.order().take(n as int) =~= self.order());
                assert(copy@ =~= self@);
            }
        }
        copy
    }
}

/// The ids of a list, copied.
pub fn clone_ids(ids: &Vec<WireId>) -> (copy: Vec<WireId>)
    ensures
        names(copy@) == names(ids@),
{
    let mut copy: Vec<WireId> = Vec::new();
    let n = ids.len();
    let mut i: usize = 0;
    while i < n
        invariant
            i <= n,
            n == ids@.len(),
            copy@.len() == i,
            forall|j: int| 0 <= j < i ==> #[trigger] copy@[j]@ == ids@[j]@,
        decreases n - i,
    {
        copy.push(ids[i].clone());
        i = i + 1;
    }
    proof {
        assert(names(copy@) =~= names(ids@));
    }
    copy
}

/// The names of the first `n` wires of a list.
spec fn names_upto(wires: Seq<Wire>, n: nat) -> Set<Seq<char>>
    decreases n,
{
    if n == 0 {
        Set::empty()
    } else {
        names_upto(wires, (n - 1) as nat).insert(wires[n - 1]@.id)
    }
}

proof fn lemma_names_upto(wires: Seq<Wire>, n: nat)
    requires
        n <= wires.len(),
    ensures
        names_upto(wires, n).finite(),
        names_upto(wires, n).len() <= n,
        forall|k: Seq<char>|
            names_upto(wires, n).contains(k) <==> exists|i: int|
                0 <= i < n && #[trigger] wires[i]@.id == k,
    decreases n,
{
    if n > 0 {
        lemma_names_upto(wires, (n - 1) as nat);
        let prev = names_upto(wires, (n - 1) as nat);
        assert forall|k: Seq<char>| names_upto(wires, n).contains(k) implies exists|i: int|
            0 <= i < n && #[trigger] wires[i]@.id == k by {
            if k == wires[n - 1]@.id {
                assert(wires[n - 1]@.id == k);
            } else {
                assert(prev.contains(k));
                let i = choose|i: int| 0 <= i < n - 1 && #[trigger] wires[i]@.id == k;
                assert(wires[i]@.id == k);
            }
        }
        assert forall|k: Seq<char>|
            (exists|i: int| 0 <= i < n && #[trigger] wires[i]@.id == k) implies names_upto(
            wires,
            n,
        ).contains(k) by {
            let i = choose|i: int| 0 <= i < n && #[trigger] wires[i]@.id == k;
            if i < n - 1 {
                assert(wires[i]@.id == k);
                assert(prev.contains(k));
            }
        }
    }
}

impl WireStore {
    /// Each wire is indexed under its own name, and every index entry leads
    /// to the wire of that name.
    pub closed spec fn wf(&self) -> bool {
        &&& forall|i: int|
            #![trigger self.wires@[i]]
            0 <= i < self.wires@.len() ==> {
                &&& self.index@.contains_key(self.wires@[i]@.id)
                &&& self.index@[self.wires@[i]@.id] == i
                &&& self.wires@[i]@.well_formed()
            }
        &&& forall|k: Seq<char>| #[trigger]
            self.index@.contains_key(k) ==> {
                &&& self.index@[k] < self.wires@.len()
                &&& self.wires@[self.index@[k] as int]@.id == k
            }
    }

    /// The names of the wires in the order in which the store keeps them.
    pub closed spec fn order(&self) -> Seq<Seq<char>> {
        wire_names(self.wires@)
    }

    /// A well-formed store holds finitely many wires, each under its own
    /// name and well formed, and keeps each name once.
    pub proof fn lemma_wf(&self)
        requires
            self.wf(),
        ensures
            self@.dom().finite(),
            forall|k: Seq<char>| #[trigger]
                self@.contains_key(k) ==> self@[k].id == k && self@[k].well_formed(),
            self.order().no_duplicates(),
            self.order().len() == self@.dom().len(),
            forall|k: Seq<char>| self.order().contains(k) <==> self@.contains_key(k),
    {
        self.lemma_len();
        let order = self.order();
        assert forall|a: int, b: int| 0 <= a < order.len() && 0 <= b < order.len() && a
            != b implies order[a] != order[b] by {
            assert(self.index@[self.wires@[a]@.id] == a);
            assert(self.index@[self.wires@[b]@.id] == b);
        }
        assert forall|k: Seq<char>| order.contains(k) <==> self@.contains_key(k) by {
            if order.contains(k) {
                let j = choose|j: int| 0 <= j < order.len() && order[j] == k;
                assert(self.index@.contains_key(self.wires@[j]@.id));
            }
            if self@.contains_key(k) {
                let j = self.index@[k] as int;
                assert(self.wires@[j]@.id == k);
                assert(order[j] == k);
            }
        }
    }

    /// A store without wires.
    pub fn new() -> (store: WireStore)
        ensures
            store.wf(),
            store@ == Map::<Seq<char>, WireView>::empty(),
            store.order() == Seq::<Seq<char>>::empty(),
    {
        let store = WireStore { wires: Vec::new(), index: StringHashMap::new() };
        assert(store@ =~= Map::<Seq<char>, WireView>::empty());
        assert(store.order() =~= Seq::<Seq<char>>::empty());
        store
    }

    /// How many wires the store holds.
    pub fn len(&self) -> (n: usize)
        requires
            self.wf(),
        ensures
            n == self@.dom().len(),
    {
        proof {
            self.lemma_len();
        }
        self.wires.len()
    }

    proof fn lemma_len(&self)
        requires
            self.wf(),
        ensures
            self@.dom().finite(),
            self@.dom().len() == self.wires@.len(),
    {
        let n = self.wires@.len();
        self.lemma_dom();
        assert forall|i: int, j: int| 0 <= i < j < n implies self.wires@[i]@.id
            != self.wires@[j]@.id by {
            assert(self.index@[self.wires@[i]@.id] == i);
            assert(self.index@[self.wires@[j]@.id] == j);
        }
        lemma_distinct_len(self.wires@, n);
    }

    /// The names in the store are the names of its wires.
    proof fn lemma_dom(&self)
        requires
            self.wf(),
        ensures
            self@.dom() == names_upto(self.wires@, self.wires@.len()),
            self@.dom().finite(),
    {
        let n = self.wires@.len();
        lemma_names_upto(self.wires@, n);
        assert(self@.dom() =~= names_upto(self.wires@, n)) by {
            assert forall|k: Seq<char>| self@.dom().contains(k) implies names_upto(
                self.wires@,
                n,
            ).contains(k) by {
                let i = self.index@[k] as int;
                assert(self.wires@[i]@.id == k);
            }
            assert forall|k: Seq<char>| names_upto(self.wires@, n).contains(k) implies self@.dom().contains(
                k,
            ) by {
                let i = choose|i: int| 0 <= i < n && #[trigger] self.wires@[i]@.id == k;
                assert(self.index@.contains_key(self.wires@[i]@.id));
            }
        }
    }

    /// Whether the store holds a wire named `id`.
    pub fn contains(&self, id: &WireId) -> (b: bool)
        ensures
            b == self@.contains_key(id@),
    {
        self.index.contains_key(id.as_str())
    }

    /// The wire named `id`, if the store holds one.
    pub fn get(&self, id: &WireId) -> (r: Option<&Wire>)
        requires
            self.wf(),
        ensures
            match r {
                Some(wire) => self@.contains_key(id@) && wire@ == self@[id@],
                None => !self@.contains_key(id@),
            },
    {
        match self.index.get(id.as_str()) {
            Some(i) => Some(&self.wires[*i]),
            None => None,
        }
    }

    /// The wires in the order in which the store keeps them.
    pub fn wires(&self) -> (wires: &Vec<Wire>)
        requires
            self.wf(),
        ensures
            wire_views(wires@) == wires_in_order(self@, self.order()),
            wires@.len() == self@.dom().len(),
            forall|i: int|
                0 <= i < wires@.len() ==> self@.contains_key(#[trigger] wires@[i]@.id)
                    && self@[wires@[i]@.id] == wires@[i]@,
            forall|k: Seq<char>| #[trigger]
                self@.contains_key(k) ==> exists|i: int|
                    0 <= i < wires@.len() && #[trigger] wires@[i]@.id == k,
    {
        proof {
            self.lemma_len();
            assert forall|i: int| 0 <= i < self.wires@.len() implies self@.contains_key(
                #[trigger] self.wires@[i]@.id,
            ) && self@[self.wires@[i]@.id] == self.wires@[i]@ by {
                assert(self.index@.contains_key(self.wires@[i]@.id));
            }
            assert forall|k: Seq<char>| #[trigger] self@.contains_key(k) implies exists|i: int|
                0 <= i < self.wires@.len() && #[trigger] self.wires@[i]@.id == k by {
                let i = self.index@[k] as int;
                assert(self.wires@[i]@.id == k);
            }
            assert(wire_views(self.wires@) =~= wires_in_order(self@, self.order())) by {
                assert forall|i: int| 0 <= i < self.wires@.len() implies wire_views(self.wires@)[i]
                    == wires_in_order(self@, self.order())[i] by {
                    assert(self.index@.contains_key(self.wires@[i]@.id));
                }
            }
        }
        &self.wires
    }

    /// Adds `wire` under its name, unless the name is taken; says whether it did.
    pub fn insert(&mut self, wire: Wire) -> (added: bool)
        requires
            old(self).wf(),
        ensures
            final(self).wf(),
            added == !old(self)@.contains_key(wire@.id),
            added ==> final(self)@ == old(self)@.insert(wire@.id, wire@),
            added ==> final(self).order() == old(self).order().push(wire@.id),
            !added ==> final(self)@ == old(self)@,
            !added ==> final(self).order() == old(self).order(),
    {
        if self.index.contains_key(wire.id().as_str()) {
            return false;
        }
        let ghost before = *self;
        let i = self.wires.len();
        let name = wire.id().to_string();
        self.wires.push(wire);
        self.index.insert(name, i);
        proof {
            assert(self.order() =~= before.order().push(wire@.id));
            assert forall|j: int| 0 <= j < self.wires@.len() implies {
                &&& self.index@.contains_key(#[trigger] self.wires@[j]@.id)
                &&& self.index@[self.wires@[j]@.id] == j
                &&& self.wires@[j]@.well_formed()
            } by {
                if j < i {
                    assert(self.wires@[j] == before.wires@[j]);
                    assert(before.index@.contains_key(before.wires@[j]@.id));
                }
            }
            assert forall|k: Seq<char>| #[trigger] self.index@.contains_key(k) implies {
                &&& self.index@[k] < self.wires@.len()
                &&& self.wires@[self.index@[k] as int]@.id == k
            } by {
                if k != wire@.id {
                    assert(before.index@.contains_key(k));
                    assert(self.wires@[before.index@[k] as int] == before.wires@[before.index@[k] as int]);
                }
            }
            assert(self@ =~= before@.insert(wire@.id, wire@)) by {
                assert forall|k: Seq<char>| self@.contains_key(k) implies #[trigger] self@[k]
                    == before@.insert(wire@.id, wire@)[k] by {
                    if k != wire@.id {
                        assert(before.index@.contains_key(k));
                        assert(self.wires@[before.index@[k] as int] == before.wires@[before.index@[k] as int]);
                    }
                }
            }
        }
        true
    }

    /// Takes the wire named `id` out of the store, if it holds one.
    pub fn remove(&mut self, id: &WireId) -> (r: Option<Wire>)
        requires
            old(self).wf(),
        ensures
            final(self).wf(),
            final(self)@ == old(self)@.remove(id@),
            match r {
                Some(wire) => old(self)@.contains_key(id@) && wire@ == old(self)@[id@] && final(self).order() == order_without(old(self).order(), id@),
                None => !old(self)@.contains_key(id@) && final(self).order() == old(self).order(),
            },
    {
        let ghost before = *self;
        let i = match self.index.get(id.as_str()) {
            Some(i) => *i,
            None => {
                assert(self@ =~= before@.remove(id@));
                return None;
            },
        };
        self.index.remove(id.as_str());
        let wire = self.wires.swap_remove(i);
        let ghost last = before.wires@.len() - 1;
        if i < self.wires.len() {
            let moved = self.wires[i].id().to_string();
            assert(self.wires@[i as int] == before.wires@[last]);
            assert(before.index@.contains_key(before.wires@[last]@.id));
            self.index.insert(moved, i);
        }
        proof {
            assert(before.wires@[i as int]@.id == id@);
            let order = before.order();
            assert(order[i as int] == id@);
            let at = order.index_of(id@);
            assert(0 <= at < order.len() && order[at] == id@);
            assert(before.index@[before.wires@[at]@.id] == at);
            assert(at == i);
            assert(self.order() =~= order_without(order, id@));
            assert forall|j: int| 0 <= j < self.wires@.len() implies {
                &&& self.index@.contains_key(#[trigger] self.wires@[j]@.id)
                &&& self.index@[self.wires@[j]@.id] == j
                &&& self.wires@[j]@.well_formed()
            } by {
                if j == i {
                    assert(self.wires@[j] == before.wires@[last]);
                } else {
                    assert(self.wires@[j] == before.wires@[j]);
                    assert(before.index@.contains_key(before.wires@[j]@.id));
                    assert(before.index@.contains_key(before.wires@[last]@.id));
                    assert(before.index@.contains_key(before.wires@[i as int]@.id));
                }
            }
            assert forall|k: Seq<char>| #[trigger] self.index@.contains_key(k) implies {
                &&& self.index@[k] < self.wires@.len()
                &&& self.wires@[self.index@[k] as int]@.id == k
            } by {
                assert(before.index@.contains_key(k));
                assert(before.index@.contains_key(before.wires@[last]@.id));
                if i < self.wires@.len() && k == before.wires@[last]@.id {
                } else {
                    let j = before.index@[k] as int;
                    assert(before.wires@[j]@.id == k);
                    assert(j != i);
                    assert(j != last);
                    assert(self.wires@[j] == before.wires@[j]);
                }
            }
            assert(self@ =~= before@.remove(id@)) by {
                assert forall|k: Seq<char>| self@.contains_key(k) implies #[trigger] self@[k]
                    == before@.remove(id@)[k] by {
                    assert(before.index@.contains_key(k));
                    assert(before.index@.contains_key(before.wires@[last]@.id));
                    if i < self.wires@.len() && k == before.wires@[last]@.id {
                    } else {
                        let j = before.index@[k] as int;
                        assert(before.wires@[j]@.id == k);
                        assert(j != i);
                        assert(j != last);
                        assert(self.wires@[j] == before.wires@[j]);
                    }
                }
            }
        }
        Some(wire)
    }

    /// Gives the wire named `id` the signal `signal`, if the store holds that
    /// wire; says whether it does.
    pub fn set_signal(&mut self, id: &WireId, signal: Signal) -> (found: bool)
        requires
            old(self).wf(),
        ensures
            final(self).wf(),
            found == old(self)@.contains_key(id@),
            found ==> final(self)@ == old(self)@.insert(
                id@,
                WireView { signal, ..old(self)@[id@] },
            ),
            !found ==> final(self)@ == old(self)@,
            final(self).order() == old(self).order(),
    {
        let ghost before = *self;
        let i = match self.index.get(id.as_str()) {
            Some(i) => *i,
            None => { return false; },
        };
        self.wires[i].set_signal(signal);
        proof {
            assert(before.wires@[i as int]@.id == id@);
            assert(self.order() =~= before.order()) by {
                assert forall|j: int| 0 <= j < self.wires@.len() implies self.order()[j]
                    == before.order()[j] by {
                    if j != i {
                        assert(self.wires@[j] == before.wires@[j]);
                    }
                }
            }
            assert forall|j: int| 0 <= j < self.wires@.len() implies {
                &&& self.index@.contains_key(#[trigger] self.wires@[j]@.id)
                &&& self.index@[self.wires@[j]@.id] == j
                &&& self.wires@[j]@.well_formed()
            } by {
                assert(self.wires@[j]@.id == before.wires@[j]@.id);
                assert(before.index@.contains_key(before.wires@[j]@.id));
            }
            assert forall|k: Seq<char>| #[trigger] self.index@.contains_key(k) implies {
                &&& self.index@[k] < self.wires@.len()
                &&& self.wires@[self.index@[k] as int]@.id == k
            } by {
                let j = before.index@[k] as int;
                assert(self.wires@[j]@.id == before.wires@[j]@.id);
            }
            assert(self@ =~= before@.insert(id@, WireView { signal, ..before@[id@] })) by {
                assert forall|k: Seq<char>| self@.contains_key(k) implies #[trigger] self@[k]
                    == before@.insert(id@, WireView { signal, ..before@[id@] })[k] by {
                    let j = before.index@[k] as int;
                    assert(before.wires@[j]@.id == k);
                    if k != id@ {
                        assert(j != i);
                        assert(self.wires@[j] == before.wires@[j]);
                    }
                }
            }
        }
        true
    }

    /// Makes every wire unresolved again.
    pub fn reset_signals(&mut self)
        requires
            old(self).wf(),
        ensures
            final(self).wf(),
            final(self)@.dom() == old(self)@.dom(),
            forall|k: Seq<char>| #[trigger]
                final(self)@.contains_key(k) ==> final(self)@[k] == (WireView {
                    signal: Signal::Uncomputed,
                    ..old(self)@[k]
                }),
            final(self).order() == old(self).order(),
    {
        let ghost before = *self;
        let n = self.wires.len();
        let mut i: usize = 0;
        while i < n
            invariant
                i <= n,
                n == self.wires@.len(),
                n == before.wires@.len(),
                self.index == before.index,
                forall|j: int|
                    0 <= j < i ==> #[trigger] self.wires@[j]@ == (WireView {
                        signal: Signal::Uncomputed,
                        ..before.wires@[j]@
                    }),
                forall|j: int| i <= j < n ==> #[trigger] self.wires@[j] == before.wires@[j],
            decreases n - i,
        {
            self.wires[i].set_signal(Signal::Uncomputed);
            i = i + 1;
        }
        proof {
            assert forall|j: int| 0 <= j < self.wires@.len() implies {
                &&& self.index@.contains_key(#[trigger] self.wires@[j]@.id)
                &&& self.index@[self.wires@[j]@.id] == j
                &&& self.wires@[j]@.well_formed()
            } by {
                assert(self.wires@[j]@.id == before.wires@[j]@.id);
                assert(before.index@.contains_key(before.wires@[j]@.id));
            }
            assert forall|k: Seq<char>| #[trigger] self.index@.contains_key(k) implies {
                &&& self.index@[k] < self.wires@.len()
                &&& self.wires@[self.index@[k] as int]@.id == k
            } by {
                let j = before.index@[k] as int;
                assert(self.wires@[j]@.id == before.wires@[j]@.id);
            }
            assert(self@.dom() =~= before@.dom());
            assert(self.order() =~= before.order()) by {
                assert forall|j: int| 0 <= j < self.wires@.len() implies self.order()[j]
                    == before.order()[j] by {
                    assert(self.wires@[j]@.id == before.wires@[j]@.id);
                }
            }
            assert forall|k: Seq<char>| #[trigger] self@.contains_key(k) implies self@[k] == (
            WireView { signal: Signal::Uncomputed, ..before@[k] }) by {
                let j = before.index@[k] as int;
                assert(self.wires@[j]@ == (WireView {
                    signal: Signal::Uncomputed,
                    ..before.wires@[j]@
                }));
            }
        }
    }

    /// The names of all wires, each once, in the order in which the store
    /// keeps the wires.
    pub fn ids(&self) -> (ids: Vec<WireId>)
        requires
            self.wf(),
        ensures
            names(ids@) == self.order(),
    {
        let mut ids: Vec<WireId> = Vec::new();
        let n = self.wires.len();
        let mut i: usize = 0;
        while i < n
            invariant
                i <= n,
                n == self.wires@.len(),
                self.wf(),
                ids@.len() == i,
                forall|j: int| 0 <= j < i ==> #[trigger] ids@[j]@ == self.wires@[j]@.id,
            decreases n - i,
        {
            ids.push(self.wires[i].id().clone());
            i = i + 1;
        }
        proof {
            assert(names(ids@) =~= self.order());
        }
        ids
    }
}

/// A list of wires with distinct names has as many names as wires.
proof fn lemma_distinct_len(wires: Seq<Wire>, n: nat)
    requires
        n <= wires.len(),
        forall|i: int, j: int| 0 <= i < j < wires.len() ==> wires[i]@.id != wires[j]@.id,
    ensures
        names_upto(wires, n).len() == n,
    decreases n,
{
    if n > 0 {
        lemma_distinct_len(wires, (n - 1) as nat);
        lemma_names_upto(wires, (n - 1) as nat);
        let prev = names_upto(wires, (n - 1) as nat);
        if prev.contains(wires[n - 1]@.id) {
            let i = choose|i: int| 0 <= i < n - 1 && #[trigger] wires[i]@.id == wires[n - 1]@.id;
            assert(false);
        }
    }
}

/// Adding a name to a list of ids adds it to the names of the list.
pub proof fn lemma_names_push(ids: Seq<WireId>, id: WireId)
    ensures
        names(ids.push(id)) == names(ids).push(id@),
{
    assert(names(ids.push(id)) =~= names(ids).push(id@));
}

/// The names of a shorter list of ids are the first names of the longer.
pub proof fn lemma_names_subrange(ids: Seq<WireId>, from: int, to: int)
    requires
        0 <= from <= to <= ids.len(),
    ensures
        names(ids.subrange(from, to)) == names(ids).subrange(from, to),
{
    assert(names(ids.subrange(from, to)) =~= names(ids).subrange(from, to));
}

/// The names of two lists of ids, one after the other.
pub proof fn lemma_names_add(a: Seq<WireId>, b: Seq<WireId>)
    ensures
        names(a + b) == names(a) + names(b),
{
    assert(names(a + b) =~= names(a) + names(b));
}

/// The ids of `ids` in order, each once.
pub fn sort_dedup(ids: Vec<WireId>) -> (sorted: Vec<WireId>)
    ensures
        strictly_sorted(names(sorted@)),
        forall|k: Seq<char>| names(sorted@).contains(k) <==> names(ids@).contains(k),
{
    let mut rest = ids;
    let mut sorted: Vec<WireId> = Vec::new();
    let ghost all = names(ids@);
    while rest.len() > 0
        invariant
            all == names(ids@),
            rest@.len() <= ids@.len(),
            rest@ == ids@.subrange(0, rest@.len() as int),
            strictly_sorted(names(sorted@)),
            forall|k: Seq<char>|
                names(sorted@).contains(k) <==> exists|j: int|
                    rest@.len() <= j < all.len() && #[trigger] all[j] == k,
        decreases rest@.len(),
    {
        let ghost before = names(sorted@);
        let ghost n = rest@.len() - 1;
        let id = match rest.pop() {
            Some(id) => id,
            None => unreached(),
        };
        assert(id@ == all[n]);
        let mut p: usize = 0;
        while p < sorted.len() && sorted[p].precedes(&id)
            invariant
                p <= sorted@.len(),
                before == names(sorted@),
                forall|q: int| 0 <= q < p ==> id_lt(#[trigger] before[q], id@),
            decreases sorted@.len() - p,
        {
            p = p + 1;
        }
        let present = p < sorted.len() && sorted[p].same_as(&id);
        if !present {
            proof {
                lemma_names_insert(sorted@, p as int, id);
                let after = before.insert(p as int, id@);
                if p < before.len() {
                    lemma_id_lt_total(id@, before[p as int]);
                }
                assert forall|i: int, j: int| 0 <= i < j < after.len() implies id_lt(
                    #[trigger] after[i],
                    #[trigger] after[j],
                ) by {
                    if j < p {
                        assert(after[i] == before[i] && after[j] == before[j]);
                    } else if j == p {
                        assert(after[i] == before[i]);
                    } else if i < p {
                        assert(after[i] == before[i] && after[j] == before[j - 1]);
                        if j - 1 == i {
                        }
                    } else if i == p {
                        assert(after[j] == before[j - 1]);
                        if j - 1 > p {
                            assert(id_lt(before[p as int], before[j - 1]));
                            lemma_id_lt_transitive(id@, before[p as int], before[j - 1]);
                        }
                    } else {
                        assert(after[i] == before[i - 1] && after[j] == before[j - 1]);
                    }
                }
                assert forall|k: Seq<char>|
                    after.contains(k) <==> exists|j: int|
                        n <= j < all.len() && #[trigger] all[j] == k by {
                    if after.contains(k) {
                        let x = choose|x: int| 0 <= x < after.len() && after[x] == k;
                        if x < p {
                            assert(before[x] == k);
                            assert(before.contains(k));
                        } else if x > p {
                            assert(before[x - 1] == k);
                            assert(before.contains(k));
                        } else {
                            assert(all[n] == k);
                        }
                    }
                    if exists|j: int| n <= j < all.len() && #[trigger] all[j] == k {
                        let j = choose|j: int| n <= j < all.len() && #[trigger] all[j] == k;
                        if j == n {
                            assert(after[p as int] == k);
                        } else {
                            assert(before.contains(k));
                            let x = choose|x: int| 0 <= x < before.len() && before[x] == k;
                            if x < p {
                                assert(after[x] == k);
                            } else {
                                assert(after[x + 1] == k);
                            }
                        }
                    }
                }
            }
            sorted.insert(p, id);
        } else {
            proof {
                assert forall|k: Seq<char>|
                    before.contains(k) <==> exists|j: int|
                        n <= j < all.len() && #[trigger] all[j] == k by {
                    if exists|j: int| n <= j < all.len() && #[trigger] all[j] == k {
                        let j = choose|j: int| n <= j < all.len() && #[trigger] all[j] == k;
                        if j == n {
                            assert(before[p as int] == k);
                        }
                    }
                    if before.contains(k) {
                        let j = choose|j: int| n + 1 <= j < all.len() && #[trigger] all[j] == k;
                        assert(all[j] == k);
                    }
                }
            }
        }
    }
    proof {
        assert forall|k: Seq<char>| names(sorted@).contains(k) <==> all.contains(k) by {
            if all.contains(k) {
                let j = choose|j: int| 0 <= j < all.len() && all[j] == k;
                assert(all[j] == k);
            }
        }
    }
    sorted
}

/// Putting an id into a list of ids puts its name into the names of the list.
pub proof fn lemma_names_insert(ids: Seq<WireId>, at: int, id: WireId)
    requires
        0 <= at <= ids.len(),
    ensures
        names(ids.insert(at, id)) == names(ids).insert(at, id@),
{
    assert(names(ids.insert(at, id)) =~= names(ids).insert(at, id@));
}

} // verus!
