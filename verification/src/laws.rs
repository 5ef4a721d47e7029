//! Laws relating the tree operations to one another, stated over the page
//! view and the report model that the operations' own contracts use.

use vstd::prelude::*;
use crate::page_state::PageState;
use crate::table::{Entry, MappingFlags, entries_page, pages_per_entry};
use crate::hierarchy::{
    InactiveHierarchy,
    present_frames,
    walk_records,
};

verus! {

/// State exclusivity: a slot is in exactly one of the three states, at any
/// time and at any level.
pub proof fn lemma_page_state_exclusive<T>(s: PageState<T>)
    ensures
        (s is Available && !(s is Guarded) && !(s is Present)) || (s is Guarded && !(s
            is Available) && !(s is Present)) || (s is Present && !(s is Available) && !(s
            is Guarded)),
{
}

/// A run of pages that are present with given frames hands out exactly
/// those frames, in order.
proof fn lemma_present_frames_of_mapped(
    entries: Seq<Entry>,
    level: nat,
    ec: nat,
    lo: nat,
    frames: Seq<usize>,
    flags: MappingFlags,
)
    requires
        forall|i: int|
            0 <= i < frames.len() ==> entries_page(entries, level, ec, (lo + i) as nat)
                == PageState::Present((#[trigger] frames[i], flags)),
    ensures
        present_frames(entries, level, ec, lo, frames.len() as nat) == frames,
    decreases frames.len(),
{
    if frames.len() == 0 {
        assert(present_frames(entries, level, ec, lo, 0) =~= frames);
    } else {
        assert(entries_page(entries, level, ec, (lo + 0) as nat) == PageState::Present(
            (frames[0], flags),
        ));
        assert forall|i: int|
            0 <= i < frames.drop_first().len() implies entries_page(
            entries,
            level,
            ec,
            ((lo + 1) + i) as nat,
        ) == PageState::Present((#[trigger] frames.drop_first()[i], flags)) by {
            assert(frames.drop_first()[i] == frames[i + 1]);
            assert(entries_page(entries, level, ec, (lo + (i + 1)) as nat) == PageState::Present(
                (frames[i + 1], flags),
            ));
        }
        lemma_present_frames_of_mapped(
            entries,
            level,
            ec,
            (lo + 1) as nat,
            frames.drop_first(),
            flags,
        );
        assert(present_frames(entries, level, ec, lo, frames.len() as nat) =~= frames);
    }
}

/// Map/unmap round trip: in a hierarchy where mapping `frames` at the
/// aligned address `address` has just succeeded — so the span's pages are
/// present with exactly those frames — unmapping the identical span is
/// permitted (no page of it is available), and hands back exactly `frames`,
/// one per page, in ascending address order.
pub proof fn lemma_map_unmap_round_trip(
    after: InactiveHierarchy,
    frames: Seq<usize>,
    flags: MappingFlags,
    address: usize,
)
    requires
        after.wf(),
        address as int % after.page_size as int == 0,
        0 <= after.page_index_of(address),
        after.page_index_of(address) + frames.len() <= after.page_count(),
        forall|i: int|
            0 <= i < frames.len() ==> after.page_view((after.page_index_of(address) + i) as nat)
                == PageState::Present((#[trigger] frames[i], flags)),
    ensures
        forall|p: nat|
            after.page_index_of(address) <= p < after.page_index_of(address) + frames.len()
                ==> !((#[trigger] after.page_view(p)) is Available),
        after.frames_in_range(after.page_index_of(address) as nat, frames.len() as nat) == frames,
{
    let p0 = after.page_index_of(address);
    assert forall|p: nat| p0 <= p < p0 + frames.len() implies !((#[trigger] after.page_view(p))
        is Available) by {
        let i = p - p0;
        assert(after.page_view((p0 + i) as nat) == PageState::Present((frames[i], flags)));
    }
    assert forall|i: int|
        0 <= i < frames.len() implies entries_page(
        after.top.entries@,
        after.top.level as nat,
        after.entry_count as nat,
        ((p0 as nat) + i) as nat,
    ) == PageState::Present((#[trigger] frames[i], flags)) by {
        assert(after.page_view((p0 + i) as nat) == PageState::Present((frames[i], flags)));
    }
    lemma_present_frames_of_mapped(
        after.top.entries@,
        after.top.level as nat,
        after.entry_count as nat,
        p0 as nat,
        frames,
        flags,
    );
}

/// Guard conservation: in a hierarchy where guarding the span at `address`
/// of `length` bytes has just succeeded — so the span's pages are all
/// guarded — unmapping the identical span is permitted, and hands back no
/// frame at all: a purely guarded range never invokes the caller's
/// deallocation. Unmapping's own contract then leaves every page of the
/// span available again.
pub proof fn lemma_guard_unmap_conservation(
    after: InactiveHierarchy,
    address: usize,
    length: usize,
)
    requires
        after.wf(),
        address as int % after.page_size as int == 0,
        length as int % after.page_size as int == 0,
        0 <= after.page_index_of(address),
        after.page_index_of(address) + after.page_len_of(length) <= after.page_count(),
        forall|p: nat|
            after.page_index_of(address) <= p < after.page_index_of(address) + after.page_len_of(
                length,
            ) ==> (#[trigger] after.page_view(p)) is Guarded,
    ensures
        forall|p: nat|
            after.page_index_of(address) <= p < after.page_index_of(address) + after.page_len_of(
                length,
            ) ==> !((#[trigger] after.page_view(p)) is Available),
        after.frames_in_range(
            after.page_index_of(address) as nat,
            after.page_len_of(length) as nat,
        ) == Seq::<usize>::empty(),
{
    let p0 = after.page_index_of(address);
    let np = after.page_len_of(length);
    assert forall|i: nat| i < np as nat implies !((#[trigger] entries_page(
        after.top.entries@,
        after.top.level as nat,
        after.entry_count as nat,
        ((p0 as nat) + i) as nat,
    )) is Present) by {
        assert(after.page_view(((p0 as nat) + i) as nat) is Guarded);
    }
    crate::hierarchy::lemma_present_frames_none(
        after.top.entries@,
        after.top.level as nat,
        after.entry_count as nat,
        p0 as nat,
        np as nat,
    );
}

/// Huge-guard reporting: a guard that occupies one whole top-level entry
/// appears to `for_every_entry` as a single report covering the entry's
/// whole span, rather than as page-by-page guards. Together with `guard`'s
/// own contract — guarding a full, aligned, still-available entry span
/// turns exactly that one entry `Guarded` — this is the huge-guard
/// optimization made observable.
pub proof fn lemma_huge_guard_single_record(g: InactiveHierarchy, address: usize)
    requires
        g.wf(),
        address as int % g.page_size as int == 0,
        g.page_index_of(address) % pages_per_entry(g.entry_count as nat, g.top.level as nat)
            as int == 0,
        0 <= g.page_index_of(address) < g.page_count(),
        g.top.entries@[g.page_index_of(address) / pages_per_entry(
            g.entry_count as nat,
            g.top.level as nat,
        ) as int] == Entry::Guarded,
    ensures
        ({
            let per = pages_per_entry(g.entry_count as nat, g.top.level as nat);
            walk_records(
                g.top.entries@,
                g.top.level as nat,
                g.entry_count as nat,
                g.page_size as nat,
                g.page_index_of(address) / per as int,
                0,
                per,
            ).0 == seq![
                (
                    PageState::<usize>::Guarded,
                    per * g.page_size as nat as int,
                ),
            ]
        }),
{
    let per = pages_per_entry(g.entry_count as nat, g.top.level as nat);
    let lv = g.top.level as nat;
    let ecn = g.entry_count as nat;
    let psn = g.page_size as nat;
    let index = g.page_index_of(address) / per as int;
    crate::table::lemma_pages_per_entry_pos(ecn, lv);
    crate::hierarchy::lemma_page_index_bound(
        g.page_index_of(address),
        per as int,
        g.entry_count as int,
    );
    let walk = walk_records(g.top.entries@, lv, ecn, psn, index, 0, per);
    let rest = walk_records(g.top.entries@, lv, ecn, psn, index + 1, 0, 0);
    assert(rest.0 =~= Seq::<(PageState<usize>, int)>::empty());
    assert(walk.0 =~= seq![(PageState::<usize>::Guarded, per * psn as int)]);
}

/// A walk over entries that are all still available reports one full
/// availability span per entry and exhausts its budget.
proof fn lemma_walk_all_available(
    entries: Seq<Entry>,
    level: nat,
    ec: nat,
    ps: nat,
    index: int,
    rem: nat,
)
    requires
        ec >= 1,
        entries.len() == ec,
        forall|i: int| 0 <= i < ec ==> (#[trigger] entries[i]) is Available,
        0 <= index <= ec,
        rem <= (ec - index) * pages_per_entry(ec, level),
    ensures
        ({
            let per = pages_per_entry(ec, level);
            let walk = walk_records(entries, level, ec, ps, index, 0, rem);
            &&& walk.0 == Seq::new(
                ((rem + per - 1) as int / per as int) as nat,
                |i: int| (PageState::<usize>::Available, per * ps as int),
            )
            &&& walk.1 == 0
        }),
    decreases ec - index,
{
    let per = pages_per_entry(ec, level);
    crate::table::lemma_pages_per_entry_pos(ec, level);
    let walk = walk_records(entries, level, ec, ps, index, 0, rem);
    if rem == 0 {
        assert(((rem + per - 1) as int / per as int) == 0) by {
            vstd::arithmetic::div_mod::lemma_fundamental_div_mod_converse(
                per as int - 1,
                per as int,
                0,
                per as int - 1,
            );
        }
        assert(walk.0 =~= Seq::new(0, |i: int| (PageState::<usize>::Available, per * ps as int)));
    } else {
        assert(index < ec) by {
            if index == ec {
                assert((ec - index) * per == 0) by (nonlinear_arith)
                    requires
                        index == ec,
                ;
            }
        }
        let rem_flat: nat = if rem >= per {
            (rem - per) as nat
        } else {
            0
        };
        assert(rem_flat <= (ec - (index + 1)) * per) by (nonlinear_arith)
            requires
                rem <= (ec - index) * per,
                (ec - index) >= 1,
                per >= 1,
                rem_flat == if rem >= per {
                    (rem - per) as int
                } else {
                    0
                },
        ;
        lemma_walk_all_available(entries, level, ec, ps, index + 1, rem_flat);
        let rest = walk_records(entries, level, ec, ps, index + 1, 0, rem_flat);
        let n = ((rem + per - 1) as int / per as int);
        let n1 = ((rem_flat + per - 1) as int / per as int);
        assert(n == n1 + 1) by {
            if rem >= per {
                vstd::arithmetic::div_mod::lemma_fundamental_div_mod(
                    (rem_flat + per - 1) as int,
                    per as int,
                );
                let r = (rem_flat + per - 1) as int % per as int;
                assert((rem + per - 1) as int == (n1 + 1) * per as int + r) by (nonlinear_arith)
                    requires
                        (rem_flat + per - 1) as int == per as int * n1 + r,
                        rem == rem_flat + per,
                ;
                vstd::arithmetic::div_mod::lemma_fundamental_div_mod_converse(
                    (rem + per - 1) as int,
                    per as int,
                    n1 + 1,
                    r,
                );
            } else {
                vstd::arithmetic::div_mod::lemma_fundamental_div_mod_converse(
                    (rem_flat + per - 1) as int,
                    per as int,
                    0,
                    per as int - 1,
                );
                vstd::arithmetic::div_mod::lemma_fundamental_div_mod_converse(
                    (rem + per - 1) as int,
                    per as int,
                    1,
                    (rem - 1) as int,
                );
            }
        }
        assert(walk.0 =~= Seq::new(
            n as nat,
            |i: int| (PageState::<usize>::Available, per * ps as int),
        ));
    }
}

/// Idempotent iteration: walking a freshly zeroed hierarchy over
/// `[0, length)` reports the whole range as availability spans at the
/// coarsest granularity there is without descending into child tables that
/// do not exist: one whole-entry span per top-level entry the range
/// touches, and nothing else.
pub proof fn lemma_fresh_hierarchy_iteration(h: InactiveHierarchy, length: usize)
    requires
        h.wf(),
        forall|i: int| 0 <= i < h.entry_count ==> (#[trigger] h.top.entries@[i]) is Available,
        length as int % h.page_size as int == 0,
        h.page_len_of(length) <= h.page_count(),
    ensures
        ({
            let per = pages_per_entry(h.entry_count as nat, h.top.level as nat);
            h.records_of_span(0, length).0 == Seq::new(
                ((h.page_len_of(length) + per - 1) / per as int) as nat,
                |i: int| (PageState::<usize>::Available, per * h.page_size as nat as int),
            )
        }),
{
    let per = pages_per_entry(h.entry_count as nat, h.top.level as nat);
    crate::table::lemma_pages_per_entry_pos(h.entry_count as nat, h.top.level as nat);
    assert(h.page_index_of(0) == 0);
    assert(h.page_index_of(0) / per as int == 0);
    assert(h.page_index_of(0) % per as int == 0);
    lemma_walk_all_available(
        h.top.entries@,
        h.top.level as nat,
        h.entry_count as nat,
        h.page_size as nat,
        0,
        h.page_len_of(length) as nat,
    );
}

} // verus!
