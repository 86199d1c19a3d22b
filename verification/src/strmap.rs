//! Small association containers keyed by strings.
//!
//! The index and the stores need maps from page ids, tags and paths to other
//! data.  These are kept as parallel vectors with distinct keys; their views
//! are the mathematical `Map` and `Set` the rest of the crate's contracts
//! speak of.

use vstd::prelude::*;

verus! {

/// The views of a sequence of strings.
pub open spec fn views_of(keys: Seq<String>) -> Seq<Seq<char>> {
    keys.map_values(|s: String| s@)
}

/// A map from strings to values, with each key held once.
pub struct StrMap<V> {
    keys: Vec<String>,
    vals: Vec<V>,
}

/// The map a pair of key and value columns denotes; later entries win.
pub open spec fn kv_map<V>(keys: Seq<String>, vals: Seq<V>) -> Map<Seq<char>, V>
    decreases keys.len(),
{
    if keys.len() == 0 || vals.len() == 0 {
        Map::empty()
    } else {
        kv_map(keys.drop_last(), vals.drop_last()).insert(keys.last()@, vals.last())
    }
}

proof fn lemma_kv_props<V>(keys: Seq<String>, vals: Seq<V>)
    requires
        keys.len() == vals.len(),
        views_of(keys).no_duplicates(),
    ensures
        kv_map(keys, vals).dom() =~= views_of(keys).to_set(),
        forall|i: int|
            0 <= i < keys.len() ==> kv_map(keys, vals).contains_key(#[trigger] views_of(keys)[i])
                && kv_map(keys, vals)[views_of(keys)[i]] == vals[i],
        kv_map(keys, vals).dom().finite(),
    decreases keys.len(),
{
    if keys.len() > 0 {
        assert(views_of(keys.drop_last()) =~= views_of(keys).drop_last());
        lemma_kv_props(keys.drop_last(), vals.drop_last());
        let m = kv_map(keys, vals);
        let m0 = kv_map(keys.drop_last(), vals.drop_last());
        assert(m.dom() =~= views_of(keys).to_set()) by {
            assert forall|k: Seq<char>| m.dom().contains(k) implies views_of(keys).to_set()
                .contains(k) by {
                if k == keys.last()@ {
                    assert(views_of(keys)[keys.len() - 1] == k);
                } else {
                    assert(m0.dom().contains(k));
                    let i = choose|i: int|
                        0 <= i < views_of(keys.drop_last()).len() && views_of(keys.drop_last())[i]
                            == k;
                    assert(views_of(keys)[i] == k);
                }
            }
            assert forall|k: Seq<char>| views_of(keys).to_set().contains(k) implies m.dom()
                .contains(k) by {
                let i = choose|i: int| 0 <= i < views_of(keys).len() && views_of(keys)[i] == k;
                if i < keys.len() - 1 {
                    assert(views_of(keys.drop_last())[i] == k);
                }
            }
        }
        assert forall|i: int| 0 <= i < keys.len() implies m.contains_key(
            #[trigger] views_of(keys)[i],
        ) && m[views_of(keys)[i]] == vals[i] by {
            if i < keys.len() - 1 {
                assert(views_of(keys.drop_last())[i] == views_of(keys)[i]);
                assert(views_of(keys)[keys.len() - 1] == keys.last()@);
                assert(views_of(keys)[i] != keys.last()@);
            }
        }
    }
}

proof fn lemma_kv_remove<V>(keys: Seq<String>, vals: Seq<V>, i: int)
    requires
        keys.len() == vals.len(),
        views_of(keys).no_duplicates(),
        0 <= i < keys.len(),
    ensures
        kv_map(keys.remove(i), vals.remove(i)) =~= kv_map(keys, vals).remove(keys[i]@),
    decreases keys.len(),
{
    lemma_kv_props(keys, vals);
    assert(views_of(keys.drop_last()) =~= views_of(keys).drop_last());
    if i == keys.len() - 1 {
        assert(keys.remove(i) =~= keys.drop_last());
        assert(vals.remove(i) =~= vals.drop_last());
        lemma_kv_props(keys.drop_last(), vals.drop_last());
        assert(!kv_map(keys.drop_last(), vals.drop_last()).contains_key(keys[i]@)) by {
            if views_of(keys.drop_last()).to_set().contains(keys[i]@) {
                let j = choose|j: int|
                    0 <= j < keys.len() - 1 && views_of(keys.drop_last())[j] == keys[i]@;
                assert(views_of(keys)[j] == views_of(keys)[i]);
            }
        }
    } else {
        lemma_kv_remove(keys.drop_last(), vals.drop_last(), i);
        assert(keys.remove(i).drop_last() =~= keys.drop_last().remove(i));
        assert(vals.remove(i).drop_last() =~= vals.drop_last().remove(i));
        assert(views_of(keys.drop_last().remove(i)) =~= views_of(keys.drop_last()).remove(i));
        assert(keys.remove(i).last() == keys.last());
        assert(vals.remove(i).last() == vals.last());
        assert(keys[i]@ != keys.last()@) by {
            assert(views_of(keys)[i] == keys[i]@);
            assert(views_of(keys)[keys.len() - 1] == keys.last()@);
        }
        assert(kv_map(keys.remove(i), vals.remove(i)) =~= kv_map(
            keys.drop_last().remove(i),
            vals.drop_last().remove(i),
        ).insert(keys.last()@, vals.last()));
    }
}

impl<V> View for StrMap<V> {
    type V = Map<Seq<char>, V>;

    closed spec fn view(&self) -> Map<Seq<char>, V> {
        kv_map(self.keys@, self.vals@)
    }
}

impl<V> StrMap<V> {
    /// The keys, in the container's own order.
    pub closed spec fn keys_seq(&self) -> Seq<Seq<char>> {
        views_of(self.keys@)
    }

    /// The values, in the same order as `keys_seq`.
    pub closed spec fn vals_seq(&self) -> Seq<V> {
        self.vals@
    }

    /// Each key is held exactly once.
    pub closed spec fn wf(&self) -> bool {
        &&& self.keys@.len() == self.vals@.len()
        &&& self.keys_seq().no_duplicates()
    }

    /// How the entry columns and the map view line up.
    pub proof fn lemma_entries(&self)
        requires
            self.wf(),
        ensures
            self@.dom() =~= self.keys_seq().to_set(),
            self@.dom().finite(),
            self.keys_seq().len() == self.vals_seq().len(),
            self.keys_seq().no_duplicates(),
            forall|i: int|
                0 <= i < self.keys_seq().len() ==> self@.contains_key(
                    #[trigger] self.keys_seq()[i],
                ) && self@[self.keys_seq()[i]] == self.vals_seq()[i],
            self@.dom().len() == self.keys_seq().len(),
    {
        lemma_kv_props(self.keys@, self.vals@);
        self.keys_seq().unique_seq_to_set();
    }

    pub fn new() -> (r: Self)
        ensures
            r.wf(),
            r@ =~= Map::<Seq<char>, V>::empty(),
            r.keys_seq() =~= Seq::<Seq<char>>::empty(),
    {
        let r = StrMap { keys: Vec::new(), vals: Vec::new() };
        proof {
            assert(views_of(r.keys@) =~= Seq::<Seq<char>>::empty());
        }
        r
    }

    /// Where `k` sits among the keys, if it does.
    fn idx_of(&self, k: &String) -> (r: Option<usize>)
        ensures
            match r {
                Some(i) => i < self.keys_seq().len() && self.keys_seq()[i as int] == k@,
                None => forall|i: int| 0 <= i < self.keys_seq().len() ==> self.keys_seq()[i] != k@,
            },
    {
        let mut i: usize = 0;
        while i < self.keys.len()
            invariant
                i <= self.keys@.len(),
                forall|j: int| 0 <= j < i ==> self.keys_seq()[j] != k@,
            decreases self.keys@.len() - i,
        {
            if k.eq(&self.keys[i]) {
                assert(self.keys_seq()[i as int] == k@);
                return Some(i);
            }
            i += 1;
        }
        None
    }

    /// Whether `k` is present.
    pub fn contains(&self, k: &String) -> (r: bool)
        requires
            self.wf(),
        ensures
            r == self@.contains_key(k@),
    {
        proof {
            self.lemma_entries();
        }
        match self.idx_of(k) {
            Some(i) => {
                proof {
                    self.lemma_entries();
                }
                true
            },
            None => {
                proof {
                    if self@.contains_key(k@) {
                        self.lemma_entries();
                        let j = choose|j: int|
                            0 <= j < self.keys_seq().len() && self.keys_seq()[j] == k@;
                    }
                }
                false
            },
        }
    }

    /// The value under `k`, if `k` is present.
    pub fn get(&self, k: &String) -> (r: Option<&V>)
        requires
            self.wf(),
        ensures
            match r {
                Some(v) => self@.contains_key(k@) && *v == self@[k@],
                None => !self@.contains_key(k@),
            },
    {
        proof {
            self.lemma_entries();
        }
        match self.idx_of(k) {
            Some(i) => Some(&self.vals[i]),
            None => {
                proof {
                    if self@.contains_key(k@) {
                        let j = choose|j: int|
                            0 <= j < self.keys_seq().len() && self.keys_seq()[j] == k@;
                    }
                }
                None
            },
        }
    }

    /// Binds `k` to `v`, replacing any earlier binding.
    pub fn insert(&mut self, k: String, v: V)
        requires
            old(self).wf(),
        ensures
            final(self).wf(),
            final(self)@ =~= old(self)@.insert(k@, v),
    {
        proof {
            old(self).lemma_entries();
        }
        let ghost k0 = self.keys@;
        let ghost v0 = self.vals@;
        match self.idx_of(&k) {
            Some(i) => {
                self.keys.remove(i);
                self.vals.remove(i);
                proof {
                    lemma_kv_remove(k0, v0, i as int);
                    assert(views_of(k0.remove(i as int)) =~= views_of(k0).remove(i as int));
                    assert(views_of(k0).remove(i as int).no_duplicates());
                }
                let ghost k1 = self.keys@;
                let ghost v1 = self.vals@;
                self.keys.push(k);
                self.vals.push(v);
                proof {
                    assert(self.keys@.drop_last() =~= k1);
                    assert(self.vals@.drop_last() =~= v1);
                    assert(self@ =~= kv_map(k1, v1).insert(k@, v));
                    assert(self@ =~= old(self)@.insert(k@, v));
                    assert(views_of(self.keys@) =~= views_of(k1).push(k@));
                    assert forall|j: int| 0 <= j < views_of(k1).len() implies views_of(k1)[j]
                        != k@ by {
                        assert(views_of(k1) =~= views_of(k0).remove(i as int));
                        if j < i {
                            assert(views_of(k0)[j] == views_of(k1)[j]);
                            assert(views_of(k0)[i as int] == k@);
                        } else {
                            assert(views_of(k0)[j + 1] == views_of(k1)[j]);
                            assert(views_of(k0)[i as int] == k@);
                        }
                    }
                    assert(self.keys_seq().no_duplicates());
                }
            },
            None => {
                self.keys.push(k);
                self.vals.push(v);
                proof {
                    assert(self.keys@.drop_last() =~= k0);
                    assert(self.vals@.drop_last() =~= v0);
                    assert(self@ =~= old(self)@.insert(k@, v));
                    assert(views_of(self.keys@) =~= views_of(k0).push(k@));
                    assert(self.keys_seq().no_duplicates());
                }
            },
        }
    }

    /// Drops `k`'s binding and hands its value back.
    pub fn remove(&mut self, k: &String) -> (r: Option<V>)
        requires
            old(self).wf(),
        ensures
            final(self).wf(),
            final(self)@ =~= old(self)@.remove(k@),
            match r {
                Some(v) => old(self)@.contains_key(k@) && v == old(self)@[k@],
                None => !old(self)@.contains_key(k@),
            },
    {
        proof {
            old(self).lemma_entries();
        }
        let ghost k0 = self.keys@;
        let ghost v0 = self.vals@;
        match self.idx_of(k) {
            Some(i) => {
                self.keys.remove(i);
                let v = self.vals.remove(i);
                proof {
                    lemma_kv_remove(k0, v0, i as int);
                    assert(views_of(k0.remove(i as int)) =~= views_of(k0).remove(i as int));
                    assert(self@ =~= old(self)@.remove(k@));
                }
                Some(v)
            },
            None => {
                proof {
                    if self@.contains_key(k@) {
                        let j = choose|j: int|
                            0 <= j < self.keys_seq().len() && self.keys_seq()[j] == k@;
                    }
                    assert(self@ =~= old(self)@.remove(k@));
                }
                None
            },
        }
    }

    /// How many keys are held.
    pub fn len(&self) -> (r: usize)
        requires
            self.wf(),
        ensures
            r == self@.dom().len(),
            r == self.keys_seq().len(),
    {
        proof {
            self.lemma_entries();
        }
        self.keys.len()
    }

    /// The key at position `i` of the container's own order.
    pub fn key_at(&self, i: usize) -> (r: &String)
        requires
            i < self.keys_seq().len(),
    ensures
            r@ == self.keys_seq()[i as int],
    {
        &self.keys[i]
    }

    /// The value at position `i` of the container's own order.
    pub fn val_at(&self, i: usize) -> (r: &V)
        requires
            self.wf(),
            i < self.keys_seq().len(),
        ensures
            *r == self.vals_seq()[i as int],
            *r == self@[self.keys_seq()[i as int]],
    {
        proof {
            self.lemma_entries();
        }
        &self.vals[i]
    }

    /// A copy of the keys.
    pub fn keys_vec(&self) -> (r: Vec<String>)
        ensures
            r.deep_view() =~= self.keys_seq(),
    {
        let mut r: Vec<String> = Vec::new();
        let mut i: usize = 0;
        while i < self.keys.len()
            invariant
                i <= self.keys@.len(),
                r@.len() == i,
                forall|j: int| 0 <= j < i ==> #[trigger] r@[j]@ == self.keys_seq()[j],
            decreases self.keys@.len() - i,
        {
            let ghost r0 = r@;
            let x = self.keys[i].clone();
            assert(x@ == self.keys_seq()[i as int]);
            r.push(x);
            i += 1;
            proof {
                assert forall|j: int| 0 <= j < i implies #[trigger] r@[j]@ == self.keys_seq()[j] by {
                    if j < i - 1 {
                        assert(r@[j] == r0[j]);
                    }
                }
            }
        }
        proof {
            assert forall|j: int| 0 <= j < r.deep_view().len() implies r.deep_view()[j]
                == self.keys_seq()[j] by {
                assert(r.deep_view()[j] == r@[j]@);
            }
            assert(r.deep_view() =~= self.keys_seq());
        }
        r
    }
}

/// A set of strings, each held once.
#[derive(Debug)]
pub struct StrSet {
    items: Vec<String>,
}

impl View for StrSet {
    type V = Set<Seq<char>>;

    closed spec fn view(&self) -> Set<Seq<char>> {
        views_of(self.items@).to_set()
    }
}

impl Clone for StrSet {
    fn clone(&self) -> (r: Self)
        ensures
            r.items_seq() == self.items_seq(),
            r@ == self@,
            r.wf() == self.wf(),
    {
        let mut items: Vec<String> = Vec::new();
        let mut i: usize = 0;
        while i < self.items.len()
            invariant
                i <= self.items@.len(),
                items@.len() == i,
                forall|j: int| 0 <= j < i ==> #[trigger] items@[j]@ == self.items_seq()[j],
            decreases self.items@.len() - i,
        {
            let ghost r0 = items@;
            let x = self.items[i].clone();
            assert(x@ == self.items_seq()[i as int]);
            items.push(x);
            i += 1;
            proof {
                assert forall|j: int| 0 <= j < i implies #[trigger] items@[j]@
                    == self.items_seq()[j] by {
                    if j < i - 1 {
                        assert(items@[j] == r0[j]);
                    }
                }
            }
        }
        proof {
            use_type_invariant(&*self);
            assert(views_of(items@) =~= self.items_seq());
        }
        let r = StrSet { items };
        proof {
            assert(r.items_seq() =~= self.items_seq());
            assert(r@ =~= self@);
        }
        r
    }
}

impl StrSet {
    /// The members, in the container's own order.
    pub closed spec fn items_seq(&self) -> Seq<Seq<char>> {
        views_of(self.items@)
    }

    /// Each member is held exactly once.
    #[verifier::type_invariant]
    pub closed spec fn wf(&self) -> bool {
        self.items_seq().no_duplicates()
    }

    /// How the member column and the set view line up.
    pub proof fn lemma_items(&self)
        requires
            self.wf(),
        ensures
            self@.finite(),
            self@.len() == self.items_seq().len(),
            self.items_seq().no_duplicates(),
            forall|i: int|
                0 <= i < self.items_seq().len() ==> self@.contains(#[trigger] self.items_seq()[i]),
            forall|x: Seq<char>|
                self@.contains(x) ==> exists|i: int|
                    0 <= i < self.items_seq().len() && self.items_seq()[i] == x,
    {
        self.items_seq().unique_seq_to_set();
    }

    pub fn new() -> (r: Self)
        ensures
            r.wf(),
            r@ =~= Set::<Seq<char>>::empty(),
            r.items_seq() =~= Seq::<Seq<char>>::empty(),
    {
        let r = StrSet { items: Vec::new() };
        proof {
            assert(r.items_seq() =~= Seq::<Seq<char>>::empty());
            assert(r@ =~= Set::<Seq<char>>::empty());
        }
        r
    }

    fn idx_of(&self, k: &String) -> (r: Option<usize>)
        ensures
            match r {
                Some(i) => i < self.items_seq().len() && self.items_seq()[i as int] == k@,
                None => forall|i: int|
                    0 <= i < self.items_seq().len() ==> self.items_seq()[i] != k@,
            },
    {
        let mut i: usize = 0;
        while i < self.items.len()
            invariant
                i <= self.items@.len(),
                forall|j: int| 0 <= j < i ==> self.items_seq()[j] != k@,
            decreases self.items@.len() - i,
        {
            if k.eq(&self.items[i]) {
                assert(self.items_seq()[i as int] == k@);
                return Some(i);
            }
            i += 1;
        }
        None
    }

    /// Whether `k` is a member.
    pub fn contains(&self, k: &String) -> (r: bool)
        ensures
            r == self@.contains(k@),
    {
        match self.idx_of(k) {
            Some(i) => {
                assert(self@.contains(k@));
                true
            },
            None => {
                proof {
                    if self@.contains(k@) {
                        let j = choose|j: int|
                            0 <= j < self.items_seq().len() && self.items_seq()[j] == k@;
                    }
                }
                false
            },
        }
    }

    /// Adds `k`; adding a member again changes nothing.
    pub fn insert(&mut self, k: String)
        ensures
            final(self)@ =~= old(self)@.insert(k@),
    {
        proof {
            use_type_invariant(&*self);
        }
        let ghost i0 = self.items@;
        if !self.contains(&k) {
            let mut items: Vec<String> = Vec::new();
            core::mem::swap(&mut items, &mut self.items);
            items.push(k);
            proof {
                assert(views_of(items@) =~= views_of(i0).push(k@));
                assert forall|j: int| 0 <= j < views_of(i0).len() implies views_of(i0)[j]
                    != k@ by {
                    if views_of(i0)[j] == k@ {
                        assert(views_of(i0).to_set().contains(k@));
                    }
                }
                assert(views_of(items@).no_duplicates());
            }
            core::mem::swap(&mut items, &mut self.items);
            proof {
                assert(self.items_seq() =~= views_of(i0).push(k@));
                assert forall|j: int| 0 <= j < views_of(i0).len() implies views_of(i0)[j]
                    != k@ by {
                    if views_of(i0)[j] == k@ {
                        assert(views_of(i0).to_set().contains(k@));
                    }
                }
                assert(self.items_seq().no_duplicates());
                assert(self@ =~= old(self)@.insert(k@)) by {
                    assert forall|x: Seq<char>| self@.contains(x) implies old(self)@.insert(
                        k@,
                    ).contains(x) by {
                        let j = choose|j: int|
                            0 <= j < self.items_seq().len() && self.items_seq()[j] == x;
                        if j < views_of(i0).len() {
                            assert(views_of(i0)[j] == x);
                        } else {
                            assert(x == k@);
                        }
                    }
                    assert forall|x: Seq<char>| old(self)@.insert(k@).contains(x) implies self@
                        .contains(x) by {
                        if x == k@ {
                            assert(self.items_seq()[views_of(i0).len() as int] == k@);
                        } else {
                            let j = choose|j: int|
                                0 <= j < views_of(i0).len() && views_of(i0)[j] == x;
                            assert(self.items_seq()[j] == x);
                        }
                    }
                }
            }
        } else {
            proof {
                assert(self@ =~= old(self)@.insert(k@));
            }
        }
    }

    /// Drops `k` from the set.
    pub fn remove(&mut self, k: &String)
        ensures
            final(self)@ =~= old(self)@.remove(k@),
    {
        proof {
            use_type_invariant(&*self);
        }
        let ghost i0 = self.items@;
        match self.idx_of(k) {
            Some(i) => {
                let mut items: Vec<String> = Vec::new();
                core::mem::swap(&mut items, &mut self.items);
                items.remove(i);
                proof {
                    assert(views_of(items@) =~= views_of(i0).remove(i as int));
                    assert(views_of(items@).no_duplicates());
                }
                core::mem::swap(&mut items, &mut self.items);
                proof {
                    assert(self.items_seq() =~= views_of(i0).remove(i as int));
                    assert(self.items_seq().no_duplicates());
                    assert(self@ =~= old(self)@.remove(k@)) by {
                        assert forall|x: Seq<char>| self@.contains(x) implies old(self)@.remove(
                            k@,
                        ).contains(x) by {
                            let j = choose|j: int|
                                0 <= j < self.items_seq().len() && self.items_seq()[j] == x;
                            if j < i {
                                assert(views_of(i0)[j] == x);
                            } else {
                                assert(views_of(i0)[j + 1] == x);
                            }
                            assert(views_of(i0)[i as int] == k@);
                            assert(x != k@);
                        }
                        assert forall|x: Seq<char>| old(self)@.remove(k@).contains(x) implies self@
                            .contains(x) by {
                            let j = choose|j: int|
                                0 <= j < views_of(i0).len() && views_of(i0)[j] == x;
                            assert(views_of(i0)[i as int] == k@);
                            assert(j != i);
                            if j < i {
                                assert(self.items_seq()[j] == x);
                            } else {
                                assert(self.items_seq()[j - 1] == x);
                            }
                        }
                    }
                }
            },
            None => {
                proof {
                    if old(self)@.contains(k@) {
                        let j = choose|j: int|
                            0 <= j < views_of(i0).len() && views_of(i0)[j] == k@;
                    }
                    assert(self@ =~= old(self)@.remove(k@));
                }
            },
        }
    }

    /// How many members are held.
    pub fn len(&self) -> (r: usize)
        ensures
            r == self@.len(),
            r == self.items_seq().len(),
    {
        proof {
            use_type_invariant(&*self);
            self.lemma_items();
        }
        self.items.len()
    }

    /// The member at position `i` of the container's own order.
    pub fn item_at(&self, i: usize) -> (r: &String)
        requires
            i < self.items_seq().len(),
        ensures
            r@ == self.items_seq()[i as int],
    {
        &self.items[i]
    }
}

} // verus!
