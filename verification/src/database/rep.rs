//! The state a replica's database keeps: its environment, a page cache with
//! an index of what each slot holds, and the open tables.
use crate::abstraction::environment::Environment;
use crate::abstraction::file_system::stub;
use vstd::prelude::*;

verus! {

pub const CACHE_SIZE: usize = 10;

pub const PAGE_SIZE: usize = 16000;

pub const MAX_TABLES: usize = 16000;

pub const MAX_PATH: usize = 4096;

/// What a cache slot holds: the name of the file and how often it is used.
#[derive(Clone)]
pub struct CacheInfo {
    name: [u8; MAX_PATH],
    name_len: usize,
    hotness: usize,
}

/// An open table: the name of its file and the file itself.
pub struct Table {
    file_name: [u8; MAX_PATH],
    name_len: usize,
    file: stub::File,
}

pub struct Rep<FS> {
    env: Environment<FS>,
    page_cache: Vec<Vec<u8>>,
    cache_index: Vec<Option<CacheInfo>>,
    tables: Vec<Option<Table>>,
}

impl<FS> Rep<FS> {
    /// What each cache slot holds; `None` for a free slot.
    pub closed spec fn cache_slots(&self) -> Seq<Option<CacheInfo>> {
        self.cache_index@
    }

    /// The bytes of each cached page.
    pub closed spec fn pages(&self) -> Seq<Seq<u8>> {
        Seq::new(self.page_cache@.len(), |i: int| self.page_cache@[i]@)
    }

    /// The table slots; `None` for a free slot.
    pub closed spec fn tables(&self) -> Seq<Option<Table>> {
        self.tables@
    }

    /// The environment the database runs against.
    pub closed spec fn env(&self) -> Environment<FS> {
        self.env
    }

    /// A database with `CACHE_SIZE` free cache slots of zeroed pages and no
    /// open table.
    pub fn new(env: Environment<FS>) -> (r: Self)
        ensures
            r.env() == env,
            r.cache_slots().len() == CACHE_SIZE,
            forall|i: int| 0 <= i < CACHE_SIZE ==> r.cache_slots()[i] is None,
            r.pages().len() == CACHE_SIZE,
            forall|i: int|
                0 <= i < CACHE_SIZE ==> r.pages()[i] == Seq::new(PAGE_SIZE as nat, |j: int| 0u8),
            r.tables().len() == MAX_TABLES,
            forall|t: int| 0 <= t < MAX_TABLES ==> r.tables()[t] is None,
    {
        let mut page_cache: Vec<Vec<u8>> = Vec::new();
        let mut cache_index: Vec<Option<CacheInfo>> = Vec::new();
        let mut i: usize = 0;
        while i < CACHE_SIZE
            invariant
                i <= CACHE_SIZE,
                cache_index@.len() == i,
                forall|j: int| 0 <= j < i ==> cache_index@[j] is None,
                page_cache@.len() == i,
                forall|j: int| 0 <= j < i ==> page_cache@[j]@ == Seq::new(PAGE_SIZE as nat, |k: int| 0u8),
            decreases CACHE_SIZE - i,
        {
            let page = vec![0u8; PAGE_SIZE];
            proof {
                assert(page@ =~= Seq::new(PAGE_SIZE as nat, |k: int| 0u8));
            }
            page_cache.push(page);
            cache_index.push(None);
            i = i + 1;
        }
        let mut tables: Vec<Option<Table>> = Vec::new();
        let mut t: usize = 0;
        while t < MAX_TABLES
            invariant
                t <= MAX_TABLES,
                tables@.len() == t,
                forall|j: int| 0 <= j < t ==> tables@[j] is None,
            decreases MAX_TABLES - t,
        {
            tables.push(None);
            t = t + 1;
        }
        let r = Self { env, page_cache, cache_index, tables };
        proof {
            assert forall|i: int| 0 <= i < CACHE_SIZE implies r.pages()[i] == Seq::new(
                PAGE_SIZE as nat,
                |j: int| 0u8,
            ) by {
                assert(r.pages()[i] == r.page_cache@[i]@);
            }
        }
        r
    }

    /// The first free cache slot: its index, and what it holds (nothing).
    /// Some slot must be free.
    pub fn get_free_page(&mut self) -> (r: (Option<CacheInfo>, usize))
        requires
            exists|i: int| 0 <= i < old(self).cache_slots().len() && old(self).cache_slots()[i] is None,
        ensures
            *final(self) == *old(self),
            r.0 is None,
            r.1 < old(self).cache_slots().len(),
            old(self).cache_slots()[r.1 as int] is None,
            forall|j: int| 0 <= j < r.1 ==> old(self).cache_slots()[j] is Some,
    {
        let mut i: usize = 0;
        while i < self.cache_index.len()
            invariant
                i <= self.cache_index.len(),
                self.cache_index@ == old(self).cache_index@,
                forall|j: int| 0 <= j < i ==> self.cache_index@[j] is Some,
            decreases self.cache_index.len() - i,
        {
            if self.cache_index[i].is_none() {
                return (None, i);
            }
            i = i + 1;
        }
        proof {
            let k = choose|k: int| 0 <= k < old(self).cache_slots().len() && old(self).cache_slots()[k] is None;
            assert(self.cache_index@[k] is Some);
        }
        (None, 0)
    }
}

} // verus!
