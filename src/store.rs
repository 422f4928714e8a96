//! Durable storage: regions of stable memory, ordered tables of stored
//! records, and the identifier counter.
use vstd::prelude::*;
use ic_stable_structures::memory_manager::{MemoryId, MemoryManager, VirtualMemory};
use ic_stable_structures::{Cell, DefaultMemoryImpl, StableBTreeMap};

verus! {

/// `RefCell`, which the default stable memory is built from off the replica;
/// declared so that memory can be handed to `Regions::init`.
#[verifier::external_type_specification]
#[verifier::external_body]
#[verifier::reject_recursive_types(T)]
pub struct ExRefCell<T: ?Sized>(std::cell::RefCell<T>);

/// Splits one stable memory into regions, each named by a number.
///
/// A table or counter is a handle onto its region, and the contracts below
/// treat it as the only one: each region is opened once, by the registry.
#[verifier::external_body]
pub struct Regions {
    manager: MemoryManager<DefaultMemoryImpl>,
}

/// An ordered table from identifier to the stored bytes of one record.
#[verifier::external_body]
pub struct Table {
    map: StableBTreeMap<u64, Vec<u8>, VirtualMemory<DefaultMemoryImpl>>,
}

/// A durable `u64` counter.
#[verifier::external_body]
pub struct Counter {
    cell: Cell<u64, VirtualMemory<DefaultMemoryImpl>>,
}

/// What a table holds.
pub uninterp spec fn table_entries(t: Table) -> Map<u64, Seq<u8>>;

/// The value a counter holds.
pub uninterp spec fn counter_value(c: Counter) -> u64;

impl View for Table {
    type V = Map<u64, Seq<u8>>;

    open spec fn view(&self) -> Map<u64, Seq<u8>> {
        table_entries(*self)
    }
}

/// `s` lists the entries of `m`, each once, in ascending order of key.
pub open spec fn is_listing(s: Seq<(u64, Seq<u8>)>, m: Map<u64, Seq<u8>>) -> bool {
    &&& forall|i: int, j: int| 0 <= i < j < s.len() ==> s[i].0 < s[j].0
    &&& forall|i: int| 0 <= i < s.len() ==> #[trigger] m.contains_key(s[i].0) && m[s[i].0] == s[i].1
    &&& forall|k: u64| #[trigger] m.contains_key(k) ==> exists|i: int| 0 <= i < s.len() && s[i].0 == k
}

impl Regions {
    /// Relies on `MemoryManager::init`: takes over `memory`, reattaching the
    /// regions it already holds.
    #[verifier::external_body]
    pub(crate) fn init(memory: DefaultMemoryImpl) -> Regions {
        Regions { manager: MemoryManager::init(memory) }
    }

    /// Relies on `MemoryManager::get` and `BTreeMap::init`: opens the table kept
    /// in region `id`, with whatever that region already holds.
    #[verifier::external_body]
    pub(crate) fn open_table(&self, id: u8) -> Table
        requires
            id != 255,
    {
        Table { map: StableBTreeMap::init(self.manager.get(MemoryId::new(id))) }
    }

    /// Relies on `MemoryManager::get` and `Cell::init`: opens the counter kept in
    /// region `id`; `None` when the region holds a cell of another layout version.
    #[verifier::external_body]
    pub(crate) fn open_counter(&self, id: u8) -> Option<Counter>
        requires
            id != 255,
    {
        match Cell::init(self.manager.get(MemoryId::new(id)), 0) {
            Ok(cell) => Some(Counter { cell }),
            Err(_) => None,
        }
    }
}

impl Table {
    /// Relies on `BTreeMap::contains_key`.
    #[verifier::external_body]
    pub fn contains(&self, id: u64) -> (r: bool)
        ensures
            r == table_entries(*self).contains_key(id),
    {
        self.map.contains_key(&id)
    }

    /// Relies on `BTreeMap::get`: the stored value for `id`, if any.
    #[verifier::external_body]
    pub fn get(&self, id: u64) -> (r: Option<Vec<u8>>)
        ensures
            r is Some <==> table_entries(*self).contains_key(id),
            r matches Some(v) ==> v@ == table_entries(*self)[id],
    {
        self.map.get(&id)
    }

    /// Relies on `BTreeMap::insert`: afterwards `id` holds `bytes` and every other
    /// entry is as it was. (The map panics when stable memory cannot grow.)
    #[verifier::external_body]
    pub fn insert(&mut self, id: u64, bytes: Vec<u8>)
        ensures
            table_entries(*final(self)) == table_entries(*old(self)).insert(id, bytes@),
    {
        self.map.insert(id, bytes);
    }

    /// Relies on `BTreeMap::len`: the number of entries.
    #[verifier::external_body]
    pub fn len(&self) -> (r: u64)
        ensures
            r == table_entries(*self).dom().len(),
    {
        self.map.len()
    }

    /// Relies on `BTreeMap::last_key_value`: the largest key, if any.
    #[verifier::external_body]
    pub fn last_key(&self) -> (r: Option<u64>)
        ensures
            r is None <==> table_entries(*self).is_empty(),
            r matches Some(k) ==> table_entries(*self).contains_key(k) && forall|j: u64|
                #[trigger] table_entries(*self).contains_key(j) ==> j <= k,
    {
        self.map.last_key_value().map(|e| e.0)
    }

    /// Relies on `BTreeMap::iter`: every entry, in ascending order of key.
    #[verifier::external_body]
    pub fn entries(&self) -> (r: Vec<(u64, Vec<u8>)>)
        ensures
            is_listing(r.deep_view(), table_entries(*self)),
    {
        self.map.iter().collect()
    }
}

impl Counter {
    /// Relies on `Cell::get`.
    #[verifier::external_body]
    pub fn get(&self) -> (r: u64)
        ensures
            r == counter_value(*self),
    {
        *self.cell.get()
    }

    /// Relies on `Cell::set`: afterwards the cell holds `v`. `set` fails only
    /// when it must grow the memory, and a cell opened by `Cell::init` already
    /// holds a page, far more than the 8 bytes of a `u64`.
    #[verifier::external_body]
    pub fn set(&mut self, v: u64)
        ensures
            counter_value(*final(self)) == v,
    {
        let _ = self.cell.set(v);
    }
}

} // verus!
