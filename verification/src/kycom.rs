//! The local IPC server's table of endpoints waiting for their connection.
use std::collections::HashMap;
use vstd::prelude::*;
use vstd::set_lib::{lemma_int_range, lemma_len_subset, lemma_map_size_bound, set_int_range};

verus! {

/// The id that follows `id`, wrapping at 16 bits.
pub open spec fn next_id_of(id: u16) -> u16 {
    if id == u16::MAX {
        0
    } else {
        (id + 1) as u16
    }
}

/// The id `k` places after `start`, wrapping at 16 bits.
pub open spec fn id_after(start: u16, k: int) -> u16 {
    ((start + k) % 0x1_0000) as u16
}

/// The endpoints registered and not yet connected, each with the handle
/// that receives its connection, and the id to try first for the next one.
pub struct EndpointMap<S> {
    next_id: u16,
    map: HashMap<u16, S>,
}

/// A finite set that holds every 16-bit value has at least 65536 members.
proof fn lemma_all_ids(ids: Set<u16>)
    requires
        ids.finite(),
        forall|x: u16| ids.contains(x),
    ensures
        ids.len() >= 0x1_0000,
{
    let f = |x: u16| x as int;
    let t = ids.map(f);
    lemma_map_size_bound(ids, t, f);
    lemma_int_range(0, 0x1_0000);
    assert forall|i: int| set_int_range(0, 0x1_0000).contains(i) implies t.contains(i) by {
        let x = i as u16;
        assert(ids.contains(x));
        assert(f(x) == i);
    }
    assert(set_int_range(0, 0x1_0000).subset_of(t));
    lemma_len_subset(set_int_range(0, 0x1_0000), t);
}

impl<S> EndpointMap<S> {
    pub closed spec fn next(&self) -> u16 {
        self.next_id
    }

    pub closed spec fn pending(&self) -> Map<u16, S> {
        self.map@
    }

    pub fn new() -> (m: Self)
        ensures
            m.next() == 0,
            m.pending() == Map::<u16, S>::empty(),
    {
        EndpointMap { next_id: 0, map: HashMap::new() }
    }

    /// How many endpoints are waiting.
    pub fn len(&self) -> (n: usize)
        ensures
            n == self.pending().len(),
    {
        broadcast use vstd::std_specs::hash::group_hash_axioms;

        self.map.len()
    }

    /// Registers `tx` under the first free id at or after the next id to
    /// try, wrapping at 16 bits; the id after it is tried next. There must be
    /// a free id.
    pub fn register(&mut self, tx: S) -> (id: u16)
        requires
            old(self).pending().len() < 0x1_0000,
        ensures
            !old(self).pending().contains_key(id),
            final(self).pending() == old(self).pending().insert(id, tx),
            final(self).next() == next_id_of(id),
            exists|k: int|
                0 <= k < 0x1_0000 && id == id_after(old(self).next(), k) && forall|j: int|
                    0 <= j < k ==> old(self).pending().contains_key(id_after(old(self).next(), j)),
    {
        broadcast use vstd::std_specs::hash::group_hash_axioms;

        let ghost start = self.next_id;
        let ghost mut tries: int = 0;
        loop
            invariant
                self.map@ == old(self).pending(),
                old(self).pending().len() < 0x1_0000,
                0 <= tries < 0x1_0000,
                self.next_id == id_after(start, tries),
                start == old(self).next(),
                forall|j: int| 0 <= j < tries ==> self.map@.contains_key(id_after(start, j)),
            decreases 0x1_0000 - tries,
        {
            let id = self.next_id;
            self.next_id = self.next_id.wrapping_add(1);
            if !self.map.contains_key(&id) {
                self.map.insert(id, tx);
                return id;
            }
            proof {
                if tries + 1 >= 0x1_0000 {
                    assert forall|x: u16| self.map@.dom().contains(x) by {
                        let j = ((x - start) % 0x1_0000 + 0x1_0000) % 0x1_0000;
                        assert(0 <= j < 0x1_0000);
                        assert(id_after(start, j) == x);
                        if j < tries {
                            assert(self.map@.contains_key(id_after(start, j)));
                        } else {
                            assert(j == tries);
                        }
                    }
                    lemma_all_ids(self.map@.dom());
                    assert(false);
                }
                tries = tries + 1;
                assert(self.next_id == id_after(start, tries));
            }
        }
    }

    /// Takes the handle of endpoint `id`, if it is waiting.
    pub fn take(&mut self, id: u16) -> (r: Option<S>)
        ensures
            final(self).pending() == old(self).pending().remove(id),
            final(self).next() == old(self).next(),
            match r {
                Some(tx) => old(self).pending().contains_key(id) && tx == old(self).pending()[id],
                None => !old(self).pending().contains_key(id),
            },
    {
        broadcast use vstd::std_specs::hash::group_hash_axioms;

        self.map.remove(&id)
    }
}

} // verus!
