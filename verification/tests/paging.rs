//! The tree operations on a small two-level hierarchy: four entries per
//! table and 0x1000-byte pages, so the whole space is sixteen pages.

use sunrise_kernel::hierarchy::InactiveHierarchy;
use sunrise_kernel::page_state::PageState;
use sunrise_kernel::table::MappingFlags;

fn small_hierarchy() -> InactiveHierarchy {
    InactiveHierarchy::new(0x1000, 4, 1, 0x9000)
}

#[test]
fn two_level_scenario() {
    let mut h = small_hierarchy();
    h.map_to_from_iterator(&vec![0x1000usize, 0x2000], 0, MappingFlags(0));
    h.guard(0x2000, 0x1000);

    let records = h.for_every_entry(0, 0x4000);
    assert_eq!(records.len(), 4);
    assert_eq!(records[0], (PageState::Present(0x1000), 0x1000));
    assert_eq!(records[1], (PageState::Present(0x2000), 0x1000));
    assert_eq!(records[2], (PageState::Guarded, 0x1000));
    assert_eq!(records[3], (PageState::Available, 0x1000));
}

#[test]
fn fresh_hierarchy_reports_coarse_availability() {
    let h = small_hierarchy();
    let records = h.for_every_entry(0, 0x10000);
    assert_eq!(records.len(), 4);
    for r in records {
        assert_eq!(r, (PageState::Available, 0x4000));
    }
    // A shorter span still comes back at whole-entry granularity.
    let records = h.for_every_entry(0, 0x5000);
    assert_eq!(records.len(), 2);
    assert_eq!(records[0], (PageState::Available, 0x4000));
    assert_eq!(records[1], (PageState::Available, 0x4000));
}

#[test]
fn map_unmap_round_trip() {
    let mut h = small_hierarchy();
    let frames = vec![0x5000usize, 0x7000, 0x6000];
    h.map_to_from_iterator(&frames, 0x3000, MappingFlags(3));

    let freed = h.unmap(0x3000, 0x3000);
    assert_eq!(freed, frames);

    let records = h.for_every_entry(0x3000, 0x3000);
    for r in records {
        assert_eq!(r.0, PageState::Available);
    }
}

#[test]
fn guard_then_unmap_never_hands_out_frames() {
    let mut h = small_hierarchy();
    h.guard(0x1000, 0x3000);
    let freed = h.unmap(0x1000, 0x3000);
    assert!(freed.is_empty());
    let records = h.for_every_entry(0x1000, 0x3000);
    for r in records {
        assert_eq!(r.0, PageState::Available);
    }
}

#[test]
fn huge_guard_is_one_entry_and_splits_on_unmap() {
    let mut h = small_hierarchy();
    // One whole top-level entry span: a single huge guard, one report.
    h.guard(0x4000, 0x4000);
    let records = h.for_every_entry(0x4000, 0x4000);
    assert_eq!(records, vec![(PageState::Guarded, 0x4000)]);

    // Unmapping one page inside it splits the guard: the reservation
    // survives everywhere the unmap did not reach.
    let freed = h.unmap(0x5000, 0x1000);
    assert!(freed.is_empty());
    let records = h.for_every_entry(0x4000, 0x4000);
    assert_eq!(
        records,
        vec![
            (PageState::Guarded, 0x1000),
            (PageState::Available, 0x1000),
            (PageState::Guarded, 0x1000),
            (PageState::Guarded, 0x1000),
        ]
    );
}

#[test]
fn find_available_first_fit() {
    let mut h = small_hierarchy();
    // Obstruct pages 1 and 5: the first two-page aligned hole is at 0x2000.
    h.map_to_from_iterator(&vec![0xA000usize], 0x1000, MappingFlags(0));
    h.guard(0x5000, 0x1000);

    assert_eq!(h.find_available_virtual_space_aligned(0x2000, 0, 0x10000, 0x1000), Some(0x2000));
    // Asking for alignment pushes the hole further.
    assert_eq!(h.find_available_virtual_space_aligned(0x2000, 0, 0x10000, 0x4000), Some(0x8000));
    // A hole of eight pages only fits after the last obstruction.
    assert_eq!(h.find_available_virtual_space_aligned(0x8000, 0, 0x10000, 0x1000), Some(0x6000));
    // Nothing fits in a window that ends before enough space opens.
    assert_eq!(h.find_available_virtual_space_aligned(0x8000, 0, 0x6000, 0x1000), None);
    // A window smaller than the request can never answer.
    assert_eq!(h.find_available_virtual_space_aligned(0x4000, 0, 0x2000, 0x1000), None);
}

#[test]
fn find_available_descends_into_used_parents() {
    let mut h = small_hierarchy();
    // Entry 0 of the top level gets a child table with one mapped page:
    // the rest of that child is still usable, and the search must see it.
    h.map_to_from_iterator(&vec![0xA000usize], 0, MappingFlags(0));
    assert_eq!(h.find_available_virtual_space_aligned(0x1000, 0, 0x4000, 0x1000), Some(0x1000));
}

#[test]
fn lifecycle_fresh_destroy() {
    let mut h = small_hierarchy();
    assert!(h.is_currently_active(0x9000));
    assert!(!h.is_currently_active(0x1000));

    h.map_to_from_iterator(&vec![0xB000usize], 0, MappingFlags(0));
    let freed = h.destroy();
    assert_eq!(freed, vec![0x9000]);
    let records = h.for_every_entry(0, 0x10000);
    for r in records {
        assert_eq!(r.0, PageState::Available);
    }
}

#[test]
fn switch_to_copies_kernel_space() {
    let mut active = small_hierarchy();
    // The kernel's share: the two upper top-level entries.
    active.map_to_from_iterator(&vec![0xC000usize, 0xD000], 0x8000, MappingFlags(1));
    active.guard(0xC000, 0x4000);

    let mut inactive = small_hierarchy();
    inactive.switch_to(&active, 2, 2);

    let ours = inactive.for_every_entry(0x8000, 0x8000);
    let theirs = active.for_every_entry(0x8000, 0x8000);
    assert_eq!(ours, theirs);
    // Its own lower half is untouched.
    let low = inactive.for_every_entry(0, 0x8000);
    for r in low {
        assert_eq!(r.0, PageState::Available);
    }
}

#[test]
fn find_available_with_unaligned_window_start() {
    let mut h = small_hierarchy();
    h.guard(0, 0x1000);
    // The window starts on a page that is not a multiple of the alignment:
    // the first candidate is the next aligned address inside it.
    assert_eq!(h.find_available_virtual_space_aligned(0x1000, 0x1000, 0x10000, 0x4000), Some(0x4000));
    // An alignment no candidate below the end can satisfy.
    assert_eq!(h.find_available_virtual_space_aligned(0x1000, 0x1000, 0x3000, 0x4000), None);
}

#[test]
fn for_every_entry_can_start_mid_space() {
    let mut h = small_hierarchy();
    h.map_to_from_iterator(&vec![0xE000usize], 0x7000, MappingFlags(0));
    let records = h.for_every_entry(0x7000, 0x1000);
    assert_eq!(records, vec![(PageState::Present(0xE000), 0x1000)]);
}

#[test]
fn map_stops_when_frames_run_out() {
    let mut h = small_hierarchy();
    // One frame maps exactly one page; the next page stays available.
    h.map_to_from_iterator(&vec![0xF000usize], 0, MappingFlags(0));
    let records = h.for_every_entry(0, 0x2000);
    assert_eq!(records[0], (PageState::Present(0xF000), 0x1000));
    assert_eq!(records[1], (PageState::Available, 0x1000));
}
