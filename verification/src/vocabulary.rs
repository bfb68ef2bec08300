//! The texts of a vocabulary by id.
//!
//! Only ids that have a text take room: an id says where a text belongs, and nothing about
//! how many there are.

use std::collections::HashMap;
use vstd::prelude::*;

verus! {

/// What a vocabulary says of an id.
pub struct Entry {
    pub text: String,
    /// A control token, which stands for no text of a document.
    pub special: bool,
    /// The text is stored verbatim rather than byte-level encoded.
    pub literal: bool,
}

/// The texts of a vocabulary by id. An id below `size` that was given none has the empty
/// text.
pub struct Listing {
    size: usize,
    slots: Vec<(u32, Entry)>,
    places: HashMap<u64, usize>,
}

impl Listing {
    /// What was given for an id.
    pub closed spec fn entry(self, id: int) -> Option<Entry> {
        if 0 <= id <= u32::MAX && self.places@.contains_key(id as u64) {
            Some(self.slots@[self.places@[id as u64] as int].1)
        } else {
            None
        }
    }

    /// One more than the largest id.
    pub closed spec fn bound(self) -> nat {
        self.size as nat
    }

    /// How many ids have an entry.
    pub closed spec fn count(self) -> nat {
        self.slots@.len()
    }

    /// The id of an entry.
    pub closed spec fn id_at(self, k: int) -> u32 {
        self.slots@[k].0
    }

    /// The texts by id.
    pub open spec fn texts(self) -> Seq<Seq<char>> {
        Seq::new(
            self.bound(),
            |i: int|
                match self.entry(i) {
                    Some(e) => e.text@,
                    None => Seq::empty(),
                },
        )
    }

    /// Which ids are control tokens.
    pub open spec fn specials(self) -> Seq<bool> {
        Seq::new(
            self.bound(),
            |i: int|
                match self.entry(i) {
                    Some(e) => e.special,
                    None => false,
                },
        )
    }

    /// Which ids hold their text verbatim.
    pub open spec fn literals(self) -> Seq<bool> {
        Seq::new(
            self.bound(),
            |i: int|
                match self.entry(i) {
                    Some(e) => e.literal,
                    None => false,
                },
        )
    }

    /// Every entry is found under its id, which is below the bound.
    pub closed spec fn valid(self) -> bool {
        &&& self.size <= u32::MAX + 1
        &&& forall|k: u64| #[trigger]
            self.places@.contains_key(k) ==> k < self.size && self.places@[k] < self.slots@.len()
                && self.slots@[self.places@[k] as int].0 == k
        &&& forall|j: int|
            0 <= j < self.slots@.len() ==> self.places@.contains_key((#[trigger] self.slots@[j]).0 as u64)
                && self.places@[self.slots@[j].0 as u64] == j
    }

    /// Ids are 32 bits wide, only ids below the bound have an entry, and every entry has an
    /// id.
    pub proof fn lemma_entries(self)
        requires
            self.valid(),
        ensures
            self.bound() <= u32::MAX + 1,
            forall|i: int| (#[trigger] self.entry(i)) is Some ==> 0 <= i < self.bound(),
            forall|i: int|
                (#[trigger] self.entry(i)) is Some ==> exists|k: int| 0 <= k < self.count() && #[trigger] self.id_at(k) == i,
            forall|k: int| 0 <= k < self.count() ==> self.entry(#[trigger] self.id_at(k) as int) is Some,
    {
        assert forall|i: int| (#[trigger] self.entry(i)) is Some implies exists|k: int|
            0 <= k < self.count() && #[trigger] self.id_at(k) == i by {
            let k = self.places@[i as u64] as int;
            assert(self.id_at(k) == i);
        }
    }

    /// A vocabulary in which no id has a text yet.
    pub fn new(size: usize) -> (r: Listing)
        requires
            size <= u32::MAX + 1,
        ensures
            r.valid(),
            r.bound() == size,
            forall|i: int| (#[trigger] r.entry(i)) is None,
    {
        Listing { size, slots: Vec::new(), places: HashMap::new() }
    }

    /// One more than the largest id.
    pub fn size(&self) -> (r: usize)
        ensures
            r == self.bound(),
    {
        self.size
    }

    /// How many ids have an entry.
    pub fn len(&self) -> (r: usize)
        ensures
            r == self.count(),
    {
        self.slots.len()
    }

    /// The id of an entry.
    pub fn id(&self, k: usize) -> (r: u32)
        requires
            k < self.count(),
        ensures
            r == self.id_at(k as int),
    {
        self.slots[k].0
    }

    /// What was given for an id.
    pub fn get(&self, id: u32) -> (r: Option<&Entry>)
        requires
            self.valid(),
        ensures
            match r {
                Some(e) => self.entry(id as int) == Some(*e),
                None => self.entry(id as int) is None,
            },
    {
        broadcast use vstd::std_specs::hash::group_hash_axioms;

        match self.places.get(&(id as u64)) {
            Some(k) => Some(&self.slots[*k].1),
            None => None,
        }
    }

    /// Give an id an entry, in place of any that it had.
    pub fn put(&mut self, id: u32, e: Entry)
        requires
            old(self).valid(),
            id < old(self).bound(),
        ensures
            final(self).valid(),
            final(self).bound() == old(self).bound(),
            final(self).entry(id as int) == Some(e),
            forall|i: int| i != id ==> #[trigger] final(self).entry(i) == old(self).entry(i),
            final(self).texts() == old(self).texts().update(id as int, e.text@),
            final(self).specials() == old(self).specials().update(id as int, e.special),
            final(self).literals() == old(self).literals().update(id as int, e.literal),
    {
        broadcast use vstd::std_specs::hash::group_hash_axioms;

        let ghost was = *self;
        let place: Option<usize> = match self.places.get(&(id as u64)) {
            Some(k) => Some(*k),
            None => None,
        };
        match place {
            Some(k) => {
                self.slots.set(k, (id, e));
            },
            None => {
                let n: usize = self.slots.len();
                self.slots.push((id, e));
                self.places.insert(id as u64, n);
            },
        }
        proof {
            assert forall|i: int| i != id implies #[trigger] self.entry(i) == was.entry(i) by {
                if was.entry(i) is Some {
                    assert(was.places@.contains_key(i as u64));
                }
            }
            assert(self.texts() =~= was.texts().update(id as int, e.text@));
            assert(self.specials() =~= was.specials().update(id as int, e.special));
            assert(self.literals() =~= was.literals().update(id as int, e.literal));
        }
    }
}

} // verus!
