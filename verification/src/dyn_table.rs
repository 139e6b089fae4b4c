//! The dynamic table of RFC 7541 Section 4: a bounded FIFO of header entries
//! with byte-size accounting. Insertion is at the most-recent end (position
//! zero), eviction strictly at the oldest end.

use vstd::prelude::*;

verus! {

/// One header entry: a name and a value, each a sequence of opaque octets.
#[derive(Debug, Clone, PartialEq, Eq)]
pub struct TableEntry {
    pub name: Vec<u8>,
    pub value: Vec<u8>,
}

/// The mathematical shadow of a `TableEntry`.
#[verifier::ext_equal]
pub ghost struct EntryModel {
    pub name: Seq<u8>,
    pub value: Seq<u8>,
}

impl View for TableEntry {
    type V = EntryModel;

    open spec fn view(&self) -> EntryModel {
        EntryModel { name: self.name@, value: self.value@ }
    }
}

/// The octet cost of an entry: the octet lengths of its name and value plus
/// the fixed 32-octet overhead of RFC 7541 Section 4.1.
pub open spec fn entry_size(e: EntryModel) -> int {
    e.name.len() as int + e.value.len() as int + 32
}

/// The occupancy of a table: the sum of its entries' sizes.
pub open spec fn total_size(s: Seq<EntryModel>) -> int
    decreases s.len(),
{
    if s.len() == 0 {
        0
    } else {
        total_size(s.drop_last()) + entry_size(s.last())
    }
}

/// Eviction from the oldest end until the occupancy is within `budget` or the
/// table is empty.
pub open spec fn evict_to(s: Seq<EntryModel>, budget: int) -> Seq<EntryModel>
    decreases s.len(),
{
    if total_size(s) <= budget || s.len() == 0 {
        s
    } else {
        evict_to(s.drop_last(), budget)
    }
}

/// The table that results from adding `e` under capacity `cap`: an entry
/// whose own size exceeds the capacity empties the table and is not inserted
/// (RFC 7541 Section 4.4); otherwise the oldest entries are evicted until the
/// entry fits and it is prepended at position zero.
pub open spec fn spec_table_add(s: Seq<EntryModel>, cap: int, e: EntryModel) -> Seq<EntryModel> {
    if entry_size(e) > cap {
        Seq::empty()
    } else {
        seq![e] + evict_to(s, cap - entry_size(e))
    }
}

/// Occupancy is never negative.
pub proof fn lemma_total_size_nonneg(s: Seq<EntryModel>)
    ensures
        total_size(s) >= 0,
    decreases s.len(),
{
    if s.len() > 0 {
        lemma_total_size_nonneg(s.drop_last());
    }
}

/// Prepending an entry adds its size to the occupancy.
pub proof fn lemma_total_size_prepend(e: EntryModel, s: Seq<EntryModel>)
    ensures
        total_size(seq![e] + s) == entry_size(e) + total_size(s),
    decreases s.len(),
{
    let whole = seq![e] + s;
    assert(whole.len() == s.len() + 1);
    assert(total_size(whole) == total_size(whole.drop_last()) + entry_size(whole.last()));
    if s.len() == 0 {
        assert(whole.drop_last() =~= Seq::<EntryModel>::empty());
        assert(whole.last() == e);
        assert(total_size(whole.drop_last()) == 0);
        assert(total_size(s) == 0);
    } else {
        assert(whole.drop_last() =~= seq![e] + s.drop_last());
        assert(whole.last() == s.last());
        lemma_total_size_prepend(e, s.drop_last());
        assert(total_size(s) == total_size(s.drop_last()) + entry_size(s.last()));
    }
}

/// Eviction leaves an occupancy within the budget whenever the budget is not
/// negative.
pub proof fn lemma_evict_to_bound(s: Seq<EntryModel>, budget: int)
    requires
        budget >= 0,
    ensures
        total_size(evict_to(s, budget)) <= budget,
    decreases s.len(),
{
    if total_size(s) <= budget || s.len() == 0 {
    } else {
        lemma_evict_to_bound(s.drop_last(), budget)
    }
}

/// Eviction removes entries only from the oldest end: what survives is a
/// prefix of the original order, newest first.
pub proof fn lemma_evict_to_prefix(s: Seq<EntryModel>, budget: int)
    ensures
        evict_to(s, budget).is_prefix_of(s),
    decreases s.len(),
{
    if total_size(s) <= budget || s.len() == 0 {
    } else {
        lemma_evict_to_prefix(s.drop_last(), budget);
        assert(s.drop_last().is_prefix_of(s));
    }
}

/// Law: after an `add` under capacity `cap`, the occupancy stays within `cap`;
/// when the entry fits the capacity it stands at position zero and the
/// surviving older entries are a prefix of the previous table, so entries are
/// ordered strictly by decreasing recency; when the entry alone exceeds the
/// capacity the table is empty.
pub proof fn lemma_table_add_shape(s: Seq<EntryModel>, cap: int, e: EntryModel)
    requires
        cap >= 0,
    ensures
        total_size(spec_table_add(s, cap, e)) <= cap,
        entry_size(e) <= cap ==> spec_table_add(s, cap, e)[0] == e && spec_table_add(
            s,
            cap,
            e,
        ).skip(1).is_prefix_of(s),
        entry_size(e) > cap ==> spec_table_add(s, cap, e) == Seq::<EntryModel>::empty(),
{
    if entry_size(e) > cap {
    } else {
        let evicted = evict_to(s, cap - entry_size(e));
        lemma_evict_to_bound(s, cap - entry_size(e));
        lemma_evict_to_prefix(s, cap - entry_size(e));
        lemma_total_size_prepend(e, evicted);
        assert((seq![e] + evicted).skip(1) =~= evicted);
    }
}

/// The mathematical shadow of a `DynamicTable`: its entries, newest first, and
/// its capacity in octets.
#[verifier::ext_equal]
pub ghost struct TableModel {
    pub entries: Seq<EntryModel>,
    pub capacity: int,
}

/// The bounded FIFO of header entries. `table_size` is the operative capacity
/// in octets and `current_size` the occupancy, kept equal to the sum of the
/// entries' sizes.
pub struct DynamicTable {
    table: Vec<TableEntry>,
    table_size: usize,
    current_size: usize,
}

impl View for DynamicTable {
    type V = TableModel;

    closed spec fn view(&self) -> TableModel {
        TableModel {
            entries: self.table@.map_values(|t: TableEntry| t@),
            capacity: self.table_size as int,
        }
    }
}

impl DynamicTable {
    /// The stored occupancy equals the sum of the entries' sizes.
    pub closed spec fn sizes_ok(&self) -> bool {
        self.current_size as int == total_size(self@.entries)
    }

    /// The size accounting is accurate and the occupancy is within the
    /// capacity: constructors establish this and every operation preserves it.
    pub closed spec fn wf(&self) -> bool {
        self.sizes_ok() && total_size(self@.entries) <= self.table_size as int
    }

    /// Builds an empty dynamic table with the given capacity in octets.
    pub fn new(dynamic_table_size: usize) -> (r: DynamicTable)
        ensures
            r.wf(),
            r@.entries == Seq::<EntryModel>::empty(),
            r@.capacity == dynamic_table_size as int,
    {
        let r = DynamicTable { table: Vec::new(), table_size: dynamic_table_size, current_size: 0 };
        proof {
            assert(r@.entries =~= Seq::<EntryModel>::empty());
        }
        r
    }

    /// The entry at `index`, position zero being the most recently inserted,
    /// or `None` past the end.
    pub fn get(&self, index: usize) -> (r: Option<&TableEntry>)
        ensures
            match r {
                Some(e) => index < self@.entries.len() && e@ == self@.entries[index as int],
                None => index >= self@.entries.len(),
            },
    {
        if index < self.table.len() {
            Some(&self.table[index])
        } else {
            None
        }
    }

    /// How many entries the table holds.
    pub fn len(&self) -> (r: usize)
        ensures
            r == self@.entries.len(),
    {
        self.table.len()
    }

    /// The operative capacity in octets.
    pub fn capacity(&self) -> (r: usize)
        ensures
            r as int == self@.capacity,
    {
        self.table_size
    }

    /// The occupancy in octets: the sum of the entries' sizes.
    pub fn size(&self) -> (r: usize)
        requires
            self.wf(),
        ensures
            r as int == total_size(self@.entries),
    {
        self.current_size
    }

    /// Evicts entries from the oldest end until the occupancy is within
    /// `new_size`. The capacity itself is left alone.
    fn reduce_size(&mut self, new_size: usize)
        requires
            old(self).sizes_ok(),
        ensures
            final(self).sizes_ok(),
            final(self)@.capacity == old(self)@.capacity,
            final(self)@.entries == evict_to(old(self)@.entries, new_size as int),
            total_size(final(self)@.entries) <= new_size as int,
    {
        proof {
            lemma_evict_to_bound(old(self)@.entries, new_size as int);
        }
        while self.current_size > new_size
            invariant
                self.sizes_ok(),
                self@.capacity == old(self)@.capacity,
                evict_to(old(self)@.entries, new_size as int) == evict_to(
                    self@.entries,
                    new_size as int,
                ),
            decreases self@.entries.len(),
        {
            proof {
                lemma_total_size_nonneg(self@.entries.drop_last());
                assert(self@.entries.len() > 0);
            }
            let ghost pre = self@.entries;
            let dropped = self.table.pop().unwrap();
            proof {
                assert(self@.entries =~= pre.drop_last());
                assert(dropped@ == pre.last());
            }
            let dropped_size = dropped.name.len() + dropped.value.len() + 32;
            self.current_size = self.current_size - dropped_size;
        }
        proof {
            assert(total_size(self@.entries) <= new_size as int);
            assert(evict_to(self@.entries, new_size as int) =~= self@.entries);
        }
    }

    /// Adds an entry as per RFC 7541 Section 4.4: the oldest entries are
    /// evicted until the new entry fits, and it is inserted at position zero.
    /// An entry whose own size exceeds the capacity empties the table and is
    /// not inserted; that is the specified outcome, not an error.
    pub fn add(&mut self, entry: TableEntry)
        requires
            old(self).wf(),
        ensures
            final(self).wf(),
            final(self)@.capacity == old(self)@.capacity,
            final(self)@.entries == spec_table_add(
                old(self)@.entries,
                old(self)@.capacity,
                entry@,
            ),
    {
        let entry_octets: u128 = entry.name.len() as u128 + entry.value.len() as u128 + 32;
        if entry_octets > self.table_size as u128 {
            self.table = Vec::new();
            self.current_size = 0;
            proof {
                assert(self@.entries =~= Seq::<EntryModel>::empty());
            }
        } else {
            let fit = entry_octets as usize;
            self.reduce_size(self.table_size - fit);
            let ghost evicted = self@.entries;
            self.table.insert(0, entry);
            self.current_size = self.current_size + fit;
            proof {
                assert(self@.entries =~= seq![entry@] + evicted);
                lemma_total_size_prepend(entry@, evicted);
            }
        }
    }

    /// Sets the capacity to `new_size`, evicting the oldest entries until the
    /// occupancy is within it (RFC 7541 Section 4.3).
    pub fn set_size(&mut self, new_size: usize)
        requires
            old(self).wf(),
        ensures
            final(self).wf(),
            final(self)@.capacity == new_size as int,
            final(self)@.entries == evict_to(old(self)@.entries, new_size as int),
    {
        if new_size >= self.table_size {
            self.table_size = new_size;
            proof {
                assert(evict_to(self@.entries, new_size as int) =~= self@.entries);
            }
        } else {
            self.table_size = new_size;
            self.reduce_size(new_size);
        }
    }
}

} // verus!
