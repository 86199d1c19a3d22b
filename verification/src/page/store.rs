//! Page stores: the interface and the in-memory implementation.
//!
//! A store maps page ids to pages.  `get` is infallible except for unknown
//! ids; `put` either inserts the page or leaves the store as it was; `delete`
//! removes the page or fails without touching anything.  The filesystem
//! implementation lives with the embedding program, against this same
//! interface; `InMemoryStore` backs fast tests.

pub mod fs;

use vstd::prelude::*;

use crate::page::PageView;
use crate::page::Parsed;
use crate::strmap::StrMap;
use vstd::string::StringExecFns;

verus! {

/// Why a store operation failed: an unknown id, or the underlying storage
/// medium refusing a write or a removal.
#[derive(Debug)]
pub enum StoreError {
    NotFound,
    IoFailure(String),
}

impl StoreError {
    /// A short description, for callers that display errors.
    pub fn describe(&self) -> (r: String)
        ensures
            self is NotFound ==> r@ == "not found"@,
            self matches StoreError::IoFailure(m) ==> r@ == m@,
    {
        match self {
            StoreError::NotFound => String::from_str("not found"),
            StoreError::IoFailure(msg) => msg.clone(),
        }
    }
}

/// What a store holds: its pages' mathematical content, by id.
pub type StorePages = Map<Seq<char>, PageView>;

/// A mutable page store.  `pages()` is the store's content, the map every
/// method contract speaks of.  Whoever implements this — the in-memory store
/// here, or a filesystem store outside — promises exactly these contracts.
pub trait StoreMut: Sized {
    /// The pages held, by id.
    spec fn pages(&self) -> Map<Seq<char>, PageView>;

    /// The page under `id`; fails with `NotFound` exactly on unknown ids.
    fn get(&self, id: &String) -> (r: Result<Parsed, StoreError>)
        ensures
            match r {
                Ok(p) => self.pages().contains_key(id@) && p@ == self.pages()[id@] && p.wf()
                    && p@.headers.id == id@,
                Err(e) => !self.pages().contains_key(id@) && e is NotFound,
            },
    ;

    /// Inserts or replaces `page` under its id; on failure the store is
    /// unchanged.
    fn put(&mut self, page: &Parsed) -> (r: Result<(), StoreError>)
        requires
            page.wf(),
        ensures
            match r {
                Ok(()) => final(self).pages() == old(self).pages().insert(
                    page@.headers.id,
                    page@,
                ),
                Err(e) => final(self).pages() == old(self).pages() && e is IoFailure,
            },
    ;

    /// Removes the page under `id`; fails with `NotFound` exactly on unknown
    /// ids, and on any failure the store is unchanged.
    fn delete(&mut self, id: &String) -> (r: Result<(), StoreError>)
        ensures
            match r {
                Ok(()) => old(self).pages().contains_key(id@) && final(self).pages() == old(
                    self,
                ).pages().remove(id@),
                Err(e) => final(self).pages() == old(self).pages() && ((e is NotFound) == !old(
                    self,
                ).pages().contains_key(id@)),
            },
    ;

    /// A snapshot of the ids held, each exactly once.
    fn iter(&self) -> (r: Result<Vec<String>, StoreError>)
        ensures
            match r {
                Ok(ids) => ids.deep_view().no_duplicates() && ids.deep_view().to_set()
                    =~= self.pages().dom(),
                Err(_) => false,
            },
    ;
}

/// A store that holds its pages in memory; the test double the design asks
/// for.
pub struct InMemoryStore {
    page_by_id: StrMap<Parsed>,
}

impl InMemoryStore {
    /// Each page is well-formed and filed under its own id.
    #[verifier::type_invariant]
    closed spec fn inv(&self) -> bool {
        &&& self.page_by_id.wf()
        &&& forall|k: Seq<char>|
            self.page_by_id@.contains_key(k) ==> (#[trigger] self.page_by_id@[k]).wf()
                && self.page_by_id@[k]@.headers.id == k
    }

    pub fn new() -> (r: Self)
        ensures
            r.pages() =~= Map::<Seq<char>, PageView>::empty(),
    {
        let r = InMemoryStore { page_by_id: StrMap::new() };
        proof {
            assert(r.pages() =~= Map::<Seq<char>, PageView>::empty());
        }
        r
    }
}

impl StoreMut for InMemoryStore {
    closed spec fn pages(&self) -> Map<Seq<char>, PageView> {
        self.page_by_id@.map_values(|p: Parsed| p@)
    }

    fn get(&self, id: &String) -> (r: Result<Parsed, StoreError>) {
        proof {
            use_type_invariant(&*self);
        }
        match self.page_by_id.get(id) {
            Some(p) => {
                let q = p.clone();
                proof {
                    assert(self.pages().contains_key(id@));
                    assert(q@ == self.pages()[id@]);
                }
                Ok(q)
            },
            None => {
                proof {
                    assert(!self.pages().contains_key(id@));
                }
                Err(StoreError::NotFound)
            },
        }
    }

    fn put(&mut self, page: &Parsed) -> (r: Result<(), StoreError>)
        ensures
            r is Ok,
    {
        proof {
            use_type_invariant(&*self);
        }
        let mut m = StrMap::new();
        core::mem::swap(&mut m, &mut self.page_by_id);
        let key = String::from_str(page.id());
        m.insert(key, page.clone());
        core::mem::swap(&mut m, &mut self.page_by_id);
        proof {
            assert(final(self).pages() =~= old(self).pages().insert(page@.headers.id, page@));
        }
        Ok(())
    }

    fn delete(&mut self, id: &String) -> (r: Result<(), StoreError>)
        ensures
            old(self).pages().contains_key(id@) ==> r is Ok,
    {
        proof {
            use_type_invariant(&*self);
        }
        let mut m = StrMap::new();
        core::mem::swap(&mut m, &mut self.page_by_id);
        let removed = m.remove(id);
        core::mem::swap(&mut m, &mut self.page_by_id);
        match removed {
            Some(_) => {
                proof {
                    assert(final(self).pages() =~= old(self).pages().remove(id@));
                }
                Ok(())
            },
            None => {
                proof {
                    assert(final(self).pages() =~= old(self).pages());
                }
                Err(StoreError::NotFound)
            },
        }
    }

    fn iter(&self) -> (r: Result<Vec<String>, StoreError>) {
        proof {
            use_type_invariant(&*self);
            self.page_by_id.lemma_entries();
        }
        Ok(self.page_by_id.keys_vec())
    }
}

} // verus!
