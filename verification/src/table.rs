//! One level of a hierarchical page-table tree: a fixed-size array of
//! entries, each of which is unused, a guard, a leaf mapping, or a pointer
//! to a child table one level below.

use vstd::prelude::*;
use vstd::arithmetic::power::pow;
use crate::page_state::PageState;
use crate::flush::{NoFlush, PagingCacheFlusher};

verus! {

/// Access-rights flags carried by a leaf mapping, as an opaque bit set.
///
/// The concrete architecture decides what each bit means; the tree
/// algorithms only carry the value through to the entry.
#[derive(Debug, Clone, Copy, PartialEq, Eq, Structural)]
pub struct MappingFlags(pub u64);

/// One slot of one table.
///
/// At level 0 a used slot holds a physical page address; at higher levels a
/// used slot owns a child table. `Guarded` reserves the whole span the slot
/// covers without any backing.
#[derive(Debug)]
pub enum Entry {
    Available,
    Guarded,
    Page(usize, MappingFlags),
    Child(Box<Table>),
}

/// An array of exactly `entry_count` entries at a given tree level.
///
/// Level 0 tables map physical pages directly; a table at level `n > 0` is a
/// parent whose used entries own tables of level `n - 1`.
#[derive(Debug)]
pub struct Table {
    /// 0 for a leaf table, `n` for a parent of level `n - 1` tables.
    pub level: usize,
    /// The slots, always `entry_count` of them in a well-formed table.
    pub entries: Vec<Entry>,
}

/// How many pages one entry of a level-`level` table spans.
pub open spec fn pages_per_entry(ec: nat, level: nat) -> nat {
    pow(ec as int, level) as nat
}

/// Structural invariant of one entry, at the level of the table holding it:
/// leaf mappings appear only at level 0, child tables only above it, and a
/// child table is itself well formed one level down.
pub open spec fn entry_wf(e: Entry, level: nat, ec: nat) -> bool
    decreases level,
{
    match e {
        Entry::Available => true,
        Entry::Guarded => true,
        Entry::Page(_, _) => level == 0,
        Entry::Child(t) => level > 0 && t.level == level - 1 && t.entries@.len() == ec
            && (forall|i: int|
                0 <= i < t.entries@.len() ==> entry_wf(
                    #[trigger] t.entries@[i],
                    (level - 1) as nat,
                    ec,
                )),
    }
}

/// Structural invariant of a whole table.
pub open spec fn table_wf(t: Table, ec: nat) -> bool {
    t.entries@.len() == ec && (forall|i: int|
        0 <= i < t.entries@.len() ==> entry_wf(#[trigger] t.entries@[i], t.level as nat, ec))
}

/// The state a level-0 entry gives to its single page.
pub open spec fn leaf_state(e: Entry) -> PageState<(usize, MappingFlags)> {
    match e {
        Entry::Available => PageState::Available,
        Entry::Guarded => PageState::Guarded,
        Entry::Page(addr, flags) => PageState::Present((addr, flags)),
        Entry::Child(_) => PageState::Available,
    }
}

/// The mathematical model of a (sub)tree: the state of its `p`-th page.
///
/// `entries` is the entry array of a level-`level` table, covering
/// `ec * pages_per_entry(ec, level)` pages in all. A page under an
/// `Available` entry is available, a page under a `Guarded` entry (a guard,
/// huge or not) is guarded, and a page under a child table has whatever
/// state the child gives it.
pub open spec fn entries_page(entries: Seq<Entry>, level: nat, ec: nat, p: nat) -> PageState<
    (usize, MappingFlags),
>
    decreases level,
{
    let per = pages_per_entry(ec, level);
    let e = entries[(p / per) as int];
    if level == 0 {
        leaf_state(e)
    } else {
        match e {
            Entry::Child(t) => entries_page(t.entries@, (level - 1) as nat, ec, p % per),
            Entry::Guarded => PageState::Guarded,
            Entry::Available => PageState::Available,
            Entry::Page(_, _) => PageState::Available,
        }
    }
}

/// `ec^level` is positive whenever `ec` is.
pub proof fn lemma_pages_per_entry_pos(ec: nat, level: nat)
    requires
        ec >= 1,
    ensures
        pages_per_entry(ec, level) >= 1,
    decreases level,
{
    vstd::arithmetic::power::lemma_pow_positive(ec as int, level);
}

/// One unfolding of `pages_per_entry`: an entry one level up spans `ec`
/// times as many pages.
pub proof fn lemma_pages_per_entry_unfold(ec: nat, level: nat)
    requires
        ec >= 1,
        level >= 1,
    ensures
        pages_per_entry(ec, level) == ec * pages_per_entry(ec, (level - 1) as nat),
{
    reveal(pow);
    vstd::arithmetic::power::lemma_pow_positive(ec as int, (level - 1) as nat);
    vstd::arithmetic::power::lemma_pow_positive(ec as int, level);
    assert(pow(ec as int, level) == ec * pow(ec as int, (level - 1) as nat));
}

impl Table {
    /// A fresh, zeroed table: every entry `Available`.
    pub fn new_zeroed(level: usize, entry_count: usize) -> (t: Table)
        ensures
            t.level == level,
            t.entries@.len() == entry_count,
            forall|i: int| 0 <= i < entry_count ==> t.entries@[i] is Available,
            table_wf(t, entry_count as nat),
    {
        let mut entries: Vec<Entry> = Vec::new();
        let mut i: usize = 0;
        while i < entry_count
            invariant
                i <= entry_count,
                entries@.len() == i,
                forall|j: int| 0 <= j < i ==> entries@[j] is Available,
            decreases entry_count - i,
        {
            entries.push(Entry::Available);
            i = i + 1;
        }
        Table { level, entries }
    }

    /// This table's level: 0 for a leaf, `n` for a parent of level `n - 1`
    /// tables.
    pub fn table_level(&self) -> (l: usize)
        ensures
            l == self.level,
    {
        self.level
    }

    /// Zero out the whole table: every entry becomes `Available`, then one
    /// flush.
    pub fn zero<F: PagingCacheFlusher>(&mut self)
        ensures
            final(self).level == old(self).level,
            final(self).entries@.len() == old(self).entries@.len(),
            forall|i: int|
                0 <= i < final(self).entries@.len() ==> final(self).entries@[i] is Available,
    {
        let n = self.entries.len();
        let mut i: usize = 0;
        while i < n
            invariant
                i <= n,
                self.entries@.len() == n,
                self.level == old(self).level,
                forall|j: int| 0 <= j < i ==> self.entries@[j] is Available,
            decreases n - i,
        {
            self.entries[i] = Entry::Available;
            i = i + 1;
        }
        F::flush_whole_cache();
    }

    /// Make every entry of this table a guard, then one flush.
    pub fn guard_all_entries<F: PagingCacheFlusher>(&mut self)
        ensures
            final(self).level == old(self).level,
            final(self).entries@.len() == old(self).entries@.len(),
            forall|i: int|
                0 <= i < final(self).entries@.len() ==> final(self).entries@[i] is Guarded,
    {
        let n = self.entries.len();
        let mut i: usize = 0;
        while i < n
            invariant
                i <= n,
                self.entries@.len() == n,
                self.level == old(self).level,
                forall|j: int| 0 <= j < i ==> self.entries@[j] is Guarded,
            decreases n - i,
        {
            self.entries[i] = Entry::Guarded;
            i = i + 1;
        }
        F::flush_whole_cache();
    }

    /// Creates a mapping on the nth entry of a leaf table, then one flush.
    pub fn map_nth_entry<F: PagingCacheFlusher>(
        &mut self,
        entry: usize,
        paddr: usize,
        flags: MappingFlags,
    )
        requires
            entry < old(self).entries@.len(),
        ensures
            final(self).level == old(self).level,
            final(self).entries@ == old(self).entries@.update(
                entry as int,
                Entry::Page(paddr, flags),
            ),
    {
        self.entries[entry] = Entry::Page(paddr, flags);
        F::flush_whole_cache();
    }

    /// Marks the nth entry as a guard page, then one flush.
    pub fn guard_nth_entry<F: PagingCacheFlusher>(&mut self, entry: usize)
        requires
            entry < old(self).entries@.len(),
        ensures
            final(self).level == old(self).level,
            final(self).entries@ == old(self).entries@.update(entry as int, Entry::Guarded),
    {
        self.entries[entry] = Entry::Guarded;
        F::flush_whole_cache();
    }

    /// Clears the nth entry back to `Available`, then one flush.
    pub fn unmap_nth_entry<F: PagingCacheFlusher>(&mut self, entry: usize)
        requires
            entry < old(self).entries@.len(),
        ensures
            final(self).level == old(self).level,
            final(self).entries@ == old(self).entries@.update(entry as int, Entry::Available),
    {
        self.entries[entry] = Entry::Available;
        F::flush_whole_cache();
    }
}

/// The operations every entry of a hierarchical paging offers, whatever
/// the level of the table holding it.
pub trait HierarchicalEntry: Sized {
    /// The flags type an entry carries.
    type EntryFlagsType;

    /// Is the entry unused?
    fn is_unused(&self) -> bool;

    /// Clear the entry, handing back what was stored so the caller can do
    /// its deallocation bookkeeping.
    fn set_unused(&mut self) -> PageState<usize>;

    /// Is the entry a page guard?
    fn is_guard(&self) -> bool;

    /// Get the current entry flags.
    fn flags(&self) -> Self::EntryFlagsType;

    /// The associated physical frame, if available. Above leaf level only
    /// the state is meaningful: a used parent entry reports `Present`, and
    /// the payload carries no information there.
    fn pointed_frame(&self) -> PageState<usize>;

    /// Sets the entry to a leaf mapping.
    fn set(&mut self, frame: usize, flags: Self::EntryFlagsType);

    /// Make this entry a page guard.
    fn set_guard(&mut self);
}

impl HierarchicalEntry for Entry {
    type EntryFlagsType = MappingFlags;

    fn is_unused(&self) -> (r: bool)
        ensures
            r == (*self is Available),
    {
        matches!(self, Entry::Available)
    }

    fn set_unused(&mut self) -> (r: PageState<usize>)
        ensures
            *final(self) == Entry::Available,
            (match *old(self) {
                Entry::Available => r is Available,
                Entry::Guarded => r is Guarded,
                Entry::Page(addr, _) => r == PageState::<usize>::Present(addr),
                Entry::Child(_) => r is Present,
            }),
    {
        let mut taken = Entry::Available;
        core::mem::swap(self, &mut taken);
        taken.pointed_frame()
    }

    fn is_guard(&self) -> (r: bool)
        ensures
            r == (*self is Guarded),
    {
        matches!(self, Entry::Guarded)
    }

    fn flags(&self) -> (r: MappingFlags)
        ensures
            *self matches Entry::Page(_, f) ==> r == f,
    {
        match self {
            Entry::Page(_, f) => *f,
            _ => MappingFlags(0),
        }
    }

    fn pointed_frame(&self) -> (r: PageState<usize>)
        ensures
            (*self is Available) <==> (r is Available),
            (*self is Guarded) <==> (r is Guarded),
            *self matches Entry::Page(addr, _) ==> r == PageState::<usize>::Present(addr),
    {
        match self {
            Entry::Available => PageState::Available,
            Entry::Guarded => PageState::Guarded,
            Entry::Page(addr, _) => PageState::Present(*addr),
            Entry::Child(_) => PageState::Present(0),
        }
    }

    fn set(&mut self, frame: usize, flags: MappingFlags)
        ensures
            *final(self) == Entry::Page(frame, flags),
    {
        *self = Entry::Page(frame, flags);
    }

    fn set_guard(&mut self)
        ensures
            *final(self) == Entry::Guarded,
    {
        *self = Entry::Guarded;
    }
}

/// A scoped handle for reading one table of a hierarchy.
///
/// In hardware, reaching a table needs an access path — the self-referential
/// mapping of the active hierarchy, a temporary mapping for an inactive one,
/// or a raw physical pointer before paging is on — that must be released
/// when the caller is done. Here the handle borrows the table for its
/// scope, which models exactly that: access ends when the handle does, and
/// the handle never owns the table's memory.
pub struct SmartHierarchicalTable<'a> {
    /// The table this handle gives access to.
    pub table: &'a Table,
}

impl<'a> SmartHierarchicalTable<'a> {
    /// Wraps a reference to a table in a scoped access handle.
    pub fn new(inner: &'a Table) -> (r: SmartHierarchicalTable<'a>)
        ensures
            r.table == inner,
    {
        SmartHierarchicalTable { table: inner }
    }
}

impl Table {
    /// Gets a read handle to the child page table at `index`.
    ///
    /// The table must be a parent: leaf tables have no children. A
    /// `Guarded` or `Available` entry is handed back as its state.
    pub fn get_child_table<'a>(&'a self, index: usize) -> (r: PageState<
        SmartHierarchicalTable<'a>,
    >)
        requires
            self.level >= 1,
            index < self.entries@.len(),
            !(self.entries@[index as int] is Page),
        ensures
            (self.entries@[index as int] is Available) <==> (r is Available),
            (self.entries@[index as int] is Guarded) <==> (r is Guarded),
            self.entries@[index as int] matches Entry::Child(t) ==> r matches PageState::Present(
                h,
            ) && h.table == &*t,
    {
        match &self.entries[index] {
            Entry::Available => PageState::Available,
            Entry::Guarded => PageState::Guarded,
            Entry::Child(t) => PageState::Present(SmartHierarchicalTable::new(t)),
            Entry::Page(_, _) => vstd::pervasive::unreached(),
        }
    }

    /// Allocates a fresh, zeroed child table and installs it as the entry
    /// at `index`, which must be available.
    pub fn create_child_table(&mut self, index: usize, entry_count: usize)
        requires
            old(self).level >= 1,
            index < old(self).entries@.len(),
            old(self).entries@[index as int] is Available,
        ensures
            final(self).level == old(self).level,
            final(self).entries@.len() == old(self).entries@.len(),
            final(self).entries@[index as int] matches Entry::Child(t) && t.level == old(
                self,
            ).level - 1 && t.entries@.len() == entry_count && (forall|i: int|
                0 <= i < entry_count ==> t.entries@[i] is Available),
            forall|i: int|
                0 <= i < old(self).entries@.len() && i != index ==> final(self).entries@[i] == old(
                    self,
                ).entries@[i],
    {
        let child = Table::new_zeroed(self.level - 1, entry_count);
        self.entries[index] = Entry::Child(Box::new(child));
    }

    /// Gets the child page table at `index`, creating it first if the
    /// entry is still available; hands back `Guarded` unchanged, so the
    /// caller can decide what a guarded parent entry means for it.
    pub fn get_child_table_or_create(&mut self, index: usize, entry_count: usize) -> (r:
        PageState<()>)
        requires
            old(self).level >= 1,
            index < old(self).entries@.len(),
            !(old(self).entries@[index as int] is Page),
        ensures
            final(self).level == old(self).level,
            final(self).entries@.len() == old(self).entries@.len(),
            (r is Guarded) <==> (old(self).entries@[index as int] is Guarded),
            r is Guarded ==> final(self).entries@ == old(self).entries@,
            r is Present ==> final(self).entries@[index as int] is Child,
            !(r is Available),
            forall|i: int|
                0 <= i < old(self).entries@.len() && i != index ==> final(self).entries@[i] == old(
                    self,
                ).entries@[i],
    {
        let state: u8 = match &self.entries[index] {
            Entry::Available => 0u8,
            Entry::Guarded => 1u8,
            Entry::Child(_) => 2u8,
            Entry::Page(_, _) => vstd::pervasive::unreached(),
        };
        if state == 0 {
            self.create_child_table(index, entry_count);
            PageState::Present(())
        } else if state == 1 {
            PageState::Guarded
        } else {
            PageState::Present(())
        }
    }
}

/// The state one entry shows when read through
/// [`HierarchicalEntry::pointed_frame`]: at leaf level a present entry
/// carries its physical address, above it only the presence of a child is
/// meaningful.
pub open spec fn entry_state(e: Entry) -> PageState<usize> {
    match e {
        Entry::Available => PageState::Available,
        Entry::Guarded => PageState::Guarded,
        Entry::Page(addr, _) => PageState::Present(addr),
        Entry::Child(_) => PageState::Present(0),
    }
}

/// The operations every table of a hierarchical paging offers: batch and
/// single-entry mutations, each followed by one cache flush, so that no
/// other code observes a torn intermediate state through the translation
/// hardware. Callers looping over entries are expected to batch at a
/// higher level.
pub trait HierarchicalTable: Sized {
    /// The entry type this table is an array of.
    type EntryType: HierarchicalEntry;

    /// The flusher called after every batch of entry mutations.
    type CacheFlusherType: PagingCacheFlusher;

    /// The states of the entries, as `pointed_frame` reads them.
    spec fn entry_states(&self) -> Seq<PageState<usize>>;

    /// The level this table stands at.
    spec fn spec_level(&self) -> nat;

    /// The raw array of entries.
    fn entries(&self) -> (r: &Vec<Self::EntryType>)
        ensures
            r@.len() == self.entry_states().len(),
    ;

    /// This table's level: 0 for a leaf, `n` for a parent of level `n - 1`
    /// tables.
    fn table_level(&self) -> (l: usize)
        ensures
            l == self.spec_level(),
    ;

    /// Zero out the whole table, then one flush.
    fn zero(&mut self)
        ensures
            final(self).spec_level() == old(self).spec_level(),
            final(self).entry_states().len() == old(self).entry_states().len(),
            forall|i: int|
                0 <= i < final(self).entry_states().len() ==> final(self).entry_states()[i]
                    is Available,
    ;

    /// Makes all entries guarded, then one flush.
    fn guard_all_entries(&mut self)
        ensures
            final(self).spec_level() == old(self).spec_level(),
            final(self).entry_states().len() == old(self).entry_states().len(),
            forall|i: int|
                0 <= i < final(self).entry_states().len() ==> final(self).entry_states()[i]
                    is Guarded,
    ;

    /// Creates a mapping on the nth entry of the table, then one flush.
    fn map_nth_entry(
        &mut self,
        entry: usize,
        paddr: usize,
        flags: <Self::EntryType as HierarchicalEntry>::EntryFlagsType,
    )
        requires
            entry < old(self).entry_states().len(),
        ensures
            final(self).spec_level() == old(self).spec_level(),
            final(self).entry_states() == old(self).entry_states().update(
                entry as int,
                PageState::Present(paddr),
            ),
    ;

    /// Marks the nth entry as a guard page, then one flush.
    fn guard_nth_entry(&mut self, entry: usize)
        requires
            entry < old(self).entry_states().len(),
        ensures
            final(self).spec_level() == old(self).spec_level(),
            final(self).entry_states() == old(self).entry_states().update(
                entry as int,
                PageState::Guarded,
            ),
    ;

    /// Clears the nth entry back to unused, then one flush.
    fn unmap_nth_entry(&mut self, entry: usize)
        requires
            entry < old(self).entry_states().len(),
        ensures
            final(self).spec_level() == old(self).spec_level(),
            final(self).entry_states() == old(self).entry_states().update(
                entry as int,
                PageState::Available,
            ),
    ;
}

impl HierarchicalTable for Table {
    type EntryType = Entry;

    type CacheFlusherType = NoFlush;

    open spec fn entry_states(&self) -> Seq<PageState<usize>> {
        self.entries@.map_values(|e: Entry| entry_state(e))
    }

    open spec fn spec_level(&self) -> nat {
        self.level as nat
    }

    fn entries(&self) -> (r: &Vec<Entry>) {
        &self.entries
    }

    fn table_level(&self) -> (l: usize) {
        Table::table_level(self)
    }

    fn zero(&mut self) {
        Table::zero::<NoFlush>(self);
    }

    fn guard_all_entries(&mut self) {
        Table::guard_all_entries::<NoFlush>(self);
    }

    fn map_nth_entry(&mut self, entry: usize, paddr: usize, flags: MappingFlags) {
        Table::map_nth_entry::<NoFlush>(self, entry, paddr, flags);
        proof {
            assert(final(self).entry_states() =~= old(self).entry_states().update(
                entry as int,
                PageState::Present(paddr),
            ));
        }
    }

    fn guard_nth_entry(&mut self, entry: usize) {
        Table::guard_nth_entry::<NoFlush>(self, entry);
        proof {
            assert(final(self).entry_states() =~= old(self).entry_states().update(
                entry as int,
                PageState::Guarded,
            ));
        }
    }

    fn unmap_nth_entry(&mut self, entry: usize) {
        Table::unmap_nth_entry::<NoFlush>(self, entry);
        proof {
            assert(final(self).entry_states() =~= old(self).entry_states().update(
                entry as int,
                PageState::Available,
            ));
        }
    }
}

} // verus!
