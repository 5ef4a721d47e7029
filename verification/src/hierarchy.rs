//! A whole hierarchy of page tables, and the level-generic tree walks over
//! it: map, guard, unmap, iterate, and free-space search.

use vstd::prelude::*;
use vstd::arithmetic::power::pow;
use vstd::arithmetic::div_mod::{lemma_fundamental_div_mod, lemma_fundamental_div_mod_converse};
use vstd::math::{min, max};
use crate::page_state::PageState;
use crate::flush::{PagingCacheFlusher, NoFlush};
use crate::table::{
    Entry,
    MappingFlags,
    Table,
    entries_page,
    entry_wf,
    lemma_pages_per_entry_pos,
    lemma_pages_per_entry_unfold,
    pages_per_entry,
    table_wf,
};

verus! {

/// `base^exp`, on machine integers.
pub fn pow_usize(base: usize, exp: usize) -> (r: usize)
    requires
        base >= 1,
        pow(base as int, exp as nat) <= usize::MAX,
    ensures
        r == pow(base as int, exp as nat),
{
    let mut r: usize = 1;
    let mut i: usize = 0;
    proof {
        reveal(pow);
    }
    while i < exp
        invariant
            i <= exp,
            base >= 1,
            r == pow(base as int, i as nat),
            pow(base as int, exp as nat) <= usize::MAX,
        decreases exp - i,
    {
        proof {
            reveal(pow);
            vstd::arithmetic::power::lemma_pow_increases(
                base as nat,
                (i + 1) as nat,
                exp as nat,
            );
            vstd::arithmetic::power::lemma_pow_positive(base as int, i as nat);
            assert(pow(base as int, (i + 1) as nat) == base * pow(base as int, i as nat));
        }
        r = r * base;
        i = i + 1;
    }
    r
}

/// How many pages a walk starting at page `start_page` has handled once it
/// stands before entry `index`, when `rem` pages were asked for and each
/// entry spans `per` pages.
pub open spec fn walked_pages(rem: int, per: int, start_page: int, index: int) -> int {
    min(rem, max(0, index * per - start_page))
}

/// How many pages a walk over a span of `total` pages will handle when it
/// starts at page `start_page` with `rem` pages asked for.
pub open spec fn span_to_walk(rem: int, total: int, start_page: int) -> int {
    min(rem, total - start_page)
}

/// Splitting a page index against an entry span: if `p == index * per + q`
/// with `q` within the span, then `index` and `q` are `p`'s entry index and
/// offset.
pub proof fn lemma_page_split(p: int, per: int, index: int, q: int)
    requires
        per > 0,
        0 <= q < per,
        p == index * per + q,
    ensures
        p / per == index,
        p % per == q,
{
    lemma_fundamental_div_mod_converse(p, per, index, q);
}

/// A page index within the whole span falls on an entry index within the
/// table.
pub proof fn lemma_page_index_bound(p: int, per: int, ec: int)
    requires
        per > 0,
        0 <= p < ec * per,
    ensures
        0 <= p / per < ec,
        0 <= p % per < per,
        p == (p / per) * per + (p % per),
{
    lemma_fundamental_div_mod(p, per);
    vstd::arithmetic::mul::lemma_mul_is_commutative(p / per, per);
    vstd::arithmetic::div_mod::lemma_mod_bound(p, per);
    if p / per >= ec {
        assert((p / per) * per >= ec * per) by (nonlinear_arith)
            requires
                p / per >= ec,
                per > 0,
        ;
    }
    if p / per < 0 {
        assert((p / per) * per <= (-1) * per) by (nonlinear_arith)
            requires
                p / per <= -1,
                per > 0,
        ;
    }
}


/// Dividing by an entry span of one page is the identity.
pub proof fn lemma_div_by_one(p: int, per: int)
    requires
        per == 1,
        p >= 0,
    ensures
        p / per == p,
        p % per == 0,
{
    assert(p * per == p) by (nonlinear_arith)
        requires
            per == 1,
    ;
    lemma_page_split(p, per, p, 0);
}

/// Every page under an all-`Available` entry array is available.
pub proof fn lemma_all_available_view(entries: Seq<Entry>, level: nat, ec: nat, p: nat)
    requires
        ec >= 1,
        forall|i: int| 0 <= i < entries.len() ==> entries[i] is Available,
        p < entries.len() * pages_per_entry(ec, level),
    ensures
        entries_page(entries, level, ec, p) is Available,
{
    lemma_pages_per_entry_pos(ec, level);
    let per = pages_per_entry(ec, level);
    lemma_page_index_bound(p as int, per as int, entries.len() as int);
}


/// Recursive worker of `map_to_from_iterator`.
///
/// `entries` is the entry array of a level-`level` table whose entries span
/// `per` pages each. Starting at page `start_page` of the table's span, each
/// available page consumes one frame from `frames` (at `cursor`, which
/// advances) and becomes present with `flags`, until the frames run out or
/// the span ends; child tables are created on demand.
#[verifier::rlimit(100)]
#[verifier::spinoff_prover]
fn rec_map_to(
    entries: &mut Vec<Entry>,
    level: usize,
    per: usize,
    ec: usize,
    frames: &Vec<usize>,
    cursor: &mut usize,
    start_page: usize,
    flags: MappingFlags,
)
    requires
        ec >= 2,
        per == pages_per_entry(ec as nat, level as nat),
        ec * per <= usize::MAX,
        old(entries)@.len() == ec,
        forall|i: int|
            0 <= i < ec ==> entry_wf(#[trigger] old(entries)@[i], level as nat, ec as nat),
        *old(cursor) <= frames@.len(),
        start_page < ec * per,
        forall|p: nat|
            start_page <= p < start_page + span_to_walk(
                frames@.len() - *old(cursor),
                ec as int * per as int,
                start_page as int,
            ) ==> entries_page(old(entries)@, level as nat, ec as nat, p) is Available,
    ensures
        final(entries)@.len() == ec,
        forall|i: int|
            0 <= i < ec ==> entry_wf(#[trigger] final(entries)@[i], level as nat, ec as nat),
        *final(cursor) == *old(cursor) + span_to_walk(
            frames@.len() - *old(cursor),
            ec as int * per as int,
            start_page as int,
        ),
        forall|p: nat|
            start_page <= p < start_page + (*final(cursor) - *old(cursor)) ==> entries_page(
                final(entries)@,
                level as nat,
                ec as nat,
                p,
            ) == PageState::Present((frames@[*old(cursor) + p - start_page], flags)),
        forall|p: nat|
            p < ec as int * per as int && !(start_page <= p < start_page + (*final(cursor) - *old(cursor))) ==> entries_page(final(entries)@, level as nat, ec as nat, p) == entries_page(
                old(entries)@,
                level as nat,
                ec as nat,
                p,
            ),
    decreases level,
{
    let ghost orig = entries@;
    let ghost c0 = *cursor as int;
    let ghost rem0 = frames@.len() as int - c0;
    let ghost lv = level as nat;
    let ghost ecn = ec as nat;
    let ghost total = ec as int * per as int;

    proof {
        lemma_pages_per_entry_pos(ecn, lv);
        lemma_page_index_bound(start_page as int, per as int, ec as int);
    }
    let entry_offset = start_page / per;
    let mut child_start = start_page % per;
    let mut index = entry_offset;

    while index < ec
        invariant
            ec >= 2,
            per >= 1,
            lv == level as nat,
            ecn == ec as nat,
            per == pages_per_entry(ecn, lv),
            total == ec as int * per as int,
            total <= usize::MAX,
            c0 == *old(cursor) as int,
            orig == old(entries)@,
            rem0 == frames@.len() as int - c0,
            c0 <= *cursor as int <= frames@.len(),
            start_page < total,
            entry_offset == start_page as int / per as int,
            entry_offset <= index <= ec,
            index == entry_offset ==> child_start == start_page as int % per as int,
            index > entry_offset ==> child_start == 0,
            child_start < per,
            *cursor as int - c0 == walked_pages(rem0, per as int, start_page as int, index as int),
            entries@.len() == ec,
            forall|i: int| 0 <= i < ec ==> entry_wf(#[trigger] entries@[i], lv, ecn),
            forall|p: nat|
                start_page <= p < start_page as int + (*cursor as int - c0) ==> entries_page(
                    entries@,
                    lv,
                    ecn,
                    p,
                ) == PageState::Present((frames@[c0 + p - start_page], flags)),
            forall|p: nat|
                p < total && !(start_page <= p < start_page as int + (*cursor as int - c0))
                    ==> entries_page(entries@, lv, ecn, p) == entries_page(orig, lv, ecn, p),
            forall|p: nat|
                start_page <= p < start_page as int + span_to_walk(rem0, total, start_page as int)
                    ==> entries_page(orig, lv, ecn, p) is Available,
        decreases ec - index,
    {
        if *cursor >= frames.len() {
            proof {
                assert(*cursor as int - c0 == rem0);
                assert(index as int * per <= ec as int * per) by (nonlinear_arith)
                    requires
                        index <= ec,
                        per >= 1,
                ;
            }
            return ;
        }
        let ghost pre = entries@;
        let ghost cpre = *cursor as int;
        let ghost walked = cpre - c0;
        let ghost pos = start_page as int + walked;

        proof {
            assert(walked < rem0);
            assert(walked == max(0, index as int * per - start_page as int));
            if index == entry_offset {
                lemma_fundamental_div_mod(start_page as int, per as int);
                assert(index as int * per <= start_page as int);
                assert(pos == index as int * per + child_start as int);
            } else {
                lemma_fundamental_div_mod(start_page as int, per as int);
                vstd::arithmetic::mul::lemma_mul_inequality(
                    entry_offset as int + 1,
                    index as int,
                    per as int,
                );
                assert((entry_offset as int + 1) * per == entry_offset as int * per + per)
                    by (nonlinear_arith);
                assert(index as int * per >= start_page as int);
                assert(pos == index as int * per + child_start as int);
            }
            assert(index as int * per + per <= ec as int * per) by (nonlinear_arith)
                requires
                    index < ec,
                    per >= 1,
            ;
            assert(pos < total);
            assert(pos - start_page < span_to_walk(rem0, total, start_page as int));
            assert(entries_page(orig, lv, ecn, pos as nat) is Available);
            assert(entries_page(pre, lv, ecn, pos as nat) is Available);
            lemma_page_split(pos, per as int, index as int, child_start as int);
        }

        if level == 0 {
            proof {
                assert(per == 1) by {
                    reveal(pow);
                }
                assert(index as int * per == index as int && (index as int + 1) * per == index
                    as int + 1 && ec as int * per == ec as int) by (nonlinear_arith)
                    requires
                        per == 1,
                ;
                assert(pos == index as int);
                assert(entries_page(pre, lv, ecn, pos as nat) == crate::table::leaf_state(
                    pre[pos],
                ));
                assert(entry_wf(pre[pos], lv, ecn));
                assert(pre[pos] is Available);
            }
            let paddr = frames[*cursor];
            entries[index] = Entry::Page(paddr, flags);
            *cursor = *cursor + 1;
            proof {
                let cnew = *cursor as int;
                assert(entries@ == pre.update(index as int, Entry::Page(paddr, flags)));
                assert forall|i: int| 0 <= i < ec implies entry_wf(
                    #[trigger] entries@[i],
                    lv,
                    ecn,
                ) by {
                    if i != index as int {
                        assert(entries@[i] == pre[i]);
                    }
                }
                assert forall|p: nat|
                    start_page <= p < start_page as int + (cnew - c0) implies #[trigger] entries_page(
                    entries@,
                    lv,
                    ecn,
                    p,
                ) == PageState::Present((frames@[c0 + p - start_page], flags)) by {
                    assert(p <= pos);
                    lemma_div_by_one(p as int, per as int);
                    if p == pos as nat {
                        assert(entries@[p as int] == Entry::Page(paddr, flags));
                        assert(c0 + p - start_page == cpre);
                    } else {
                        assert(p < pos);
                        assert(entries@[p as int] == pre[p as int]);
                        assert(entries_page(pre, lv, ecn, p) == PageState::Present(
                            (frames@[c0 + p - start_page], flags),
                        ));
                    }
                }
                assert forall|p: nat|
                    p < total && !(start_page <= p < start_page as int + (cnew - c0)) implies
                    entries_page(entries@, lv, ecn, p) == entries_page(orig, lv, ecn, p) by {
                    assert(p != pos as nat);
                    lemma_div_by_one(p as int, per as int);
                    assert(entries@[p as int] == pre[p as int]);
                    assert(entries_page(entries@, lv, ecn, p) == entries_page(pre, lv, ecn, p));
                }
                assert(cnew - c0 == walked_pages(rem0, per as int, start_page as int, index as int
                    + 1));
            }
        } else {
            let child_per = per / ec;
            proof {
                lemma_pages_per_entry_unfold(ecn, lv);
                lemma_pages_per_entry_pos(ecn, (lv - 1) as nat);
                vstd::arithmetic::mul::lemma_mul_is_commutative(
                    ec as int,
                    pages_per_entry(ecn, (lv - 1) as nat) as int,
                );
                lemma_fundamental_div_mod_converse(
                    per as int,
                    ec as int,
                    pages_per_entry(ecn, (lv - 1) as nat) as int,
                    0,
                );
                assert(child_per == pages_per_entry(ecn, (lv - 1) as nat));
                assert(entry_wf(pre[index as int], lv, ecn));
                assert(!(pre[index as int] is Guarded));
                assert(!(pre[index as int] is Page));
            }
            let mut taken = Entry::Available;
            core::mem::swap(&mut entries[index], &mut taken);
            let mut child: Box<Table> = match taken {
                Entry::Child(c) => c,
                Entry::Available => Box::new(Table::new_zeroed(level - 1, ec)),
                _ => vstd::pervasive::unreached(),
            };
            let ghost child_pre = child.entries@;
            let ghost fresh = pre[index as int] is Available;
            proof {
                assert(entries@ == pre.update(index as int, Entry::Available));
                assert(child.level == level - 1);
                assert(child.entries@.len() == ec);
                assert(forall|i: int|
                    0 <= i < ec ==> entry_wf(#[trigger] child.entries@[i], (lv - 1) as nat, ecn));
                assert forall|q: int| 0 <= q < per implies #[trigger] entries_page(
                    pre,
                    lv,
                    ecn,
                    (index as int * per + q) as nat,
                ) == entries_page(child_pre, (lv - 1) as nat, ecn, q as nat) by {
                    lemma_page_split(index as int * per + q, per as int, index as int, q);
                    if fresh {
                        lemma_all_available_view(child_pre, (lv - 1) as nat, ecn, q as nat);
                    }
                }
                assert forall|q: nat|
                    child_start <= q < child_start as int + span_to_walk(
                        frames@.len() as int - cpre,
                        per as int,
                        child_start as int,
                    ) implies (#[trigger] entries_page(child_pre, (lv - 1) as nat, ecn, q))
                    is Available by {
                    let p = index as int * per + q;
                    assert(p - start_page == walked + (q - child_start));
                    assert(p - start_page < rem0);
                    assert(p < total);
                    assert(start_page <= p < start_page as int + span_to_walk(
                        rem0,
                        total,
                        start_page as int,
                    ));
                    assert(entries_page(orig, lv, ecn, p as nat) is Available);
                    assert(entries_page(pre, lv, ecn, p as nat) is Available);
                }
                assert(ec * child_per <= usize::MAX);
            }
            rec_map_to(
                &mut child.entries,
                level - 1,
                child_per,
                ec,
                frames,
                cursor,
                child_start,
                flags,
            );
            let ghost child_fin = child.entries@;
            let ghost cnew = *cursor as int;
            let ghost cc = cnew - cpre;
            entries[index] = Entry::Child(child);
            proof {
                assert(entries@[index as int] matches Entry::Child(c) && c.entries@ == child_fin
                    && c.level == level - 1);
                assert(cc == span_to_walk(
                    frames@.len() as int - cpre,
                    per as int,
                    child_start as int,
                ));
                assert forall|i: int| 0 <= i < ec implies entry_wf(
                    #[trigger] entries@[i],
                    lv,
                    ecn,
                ) by {
                    if i != index as int {
                        assert(entries@[i] == pre[i]);
                    }
                }
                assert forall|q: int| 0 <= q < per implies #[trigger] entries_page(
                    entries@,
                    lv,
                    ecn,
                    (index as int * per + q) as nat,
                ) == entries_page(child_fin, (lv - 1) as nat, ecn, q as nat) by {
                    lemma_page_split(index as int * per + q, per as int, index as int, q);
                }
                assert forall|p: nat|
                    start_page <= p < start_page as int + (cnew - c0) implies #[trigger] entries_page(
                    entries@,
                    lv,
                    ecn,
                    p,
                ) == PageState::Present((frames@[c0 + p - start_page], flags)) by {
                    if p < pos {
                        let pi = p as int / per as int;
                        lemma_page_index_bound(p as int, per as int, ec as int);
                        if pi == index as int {
                            let q = p as int % per as int;
                            assert(q < child_start);
                            assert(p == index as int * per + q);
                            assert(entries_page(child_fin, (lv - 1) as nat, ecn, q as nat)
                                == entries_page(child_pre, (lv - 1) as nat, ecn, q as nat));
                            assert(entries_page(pre, lv, ecn, (index as int * per + q) as nat)
                                == entries_page(child_pre, (lv - 1) as nat, ecn, q as nat));
                            assert(entries_page(entries@, lv, ecn, (index as int * per + q) as nat)
                                == entries_page(child_fin, (lv - 1) as nat, ecn, q as nat));
                            assert(entries_page(pre, lv, ecn, p) == PageState::Present(
                                (frames@[c0 + p - start_page], flags),
                            ));
                            assert(entries_page(entries@, lv, ecn, p) == entries_page(
                                pre,
                                lv,
                                ecn,
                                p,
                            ));
                        } else {
                            assert(entries@[pi] == pre[pi]);
                            assert(entries_page(pre, lv, ecn, p) == PageState::Present(
                                (frames@[c0 + p - start_page], flags),
                            ));
                            assert(entries_page(entries@, lv, ecn, p) == entries_page(
                                pre,
                                lv,
                                ecn,
                                p,
                            ));
                        }
                    } else {
                        let q = p - index as int * per;
                        assert(child_start <= q < child_start + cc);
                        assert(p == index as int * per + q);
                        assert(entries_page(entries@, lv, ecn, (index as int * per + q) as nat)
                            == entries_page(child_fin, (lv - 1) as nat, ecn, q as nat));
                        assert(p == index as int * per + q);
                        assert(entries_page(child_fin, (lv - 1) as nat, ecn, q as nat)
                            == PageState::Present(
                            (frames@[cpre + q - child_start], flags),
                        ));
                        assert(entries_page(entries@, lv, ecn, (index as int * per + q) as nat)
                            == entries_page(child_fin, (lv - 1) as nat, ecn, q as nat));
                        assert(cpre + q - child_start == c0 + p - start_page);
                    }
                }
                assert forall|p: nat|
                    p < total && !(start_page <= p < start_page as int + (cnew - c0)) implies
                    entries_page(entries@, lv, ecn, p) == entries_page(orig, lv, ecn, p) by {
                    let pi = p as int / per as int;
                    lemma_page_index_bound(p as int, per as int, ec as int);
                    if pi == index as int {
                        let q = p as int % per as int;
                        assert(q < child_start || q >= child_start + cc);
                        assert(p == index as int * per + q);
                        assert(entries_page(child_fin, (lv - 1) as nat, ecn, q as nat)
                            == entries_page(child_pre, (lv - 1) as nat, ecn, q as nat));
                        assert(entries_page(pre, lv, ecn, (index as int * per + q) as nat)
                            == entries_page(child_pre, (lv - 1) as nat, ecn, q as nat));
                        assert(entries_page(entries@, lv, ecn, (index as int * per + q) as nat)
                            == entries_page(child_fin, (lv - 1) as nat, ecn, q as nat));
                        assert(p < start_page || p >= start_page as int + walked);
                    } else {
                        assert(entries@[pi] == pre[pi]);
                        assert(entries_page(entries@, lv, ecn, p) == entries_page(pre, lv, ecn, p));
                    }
                }
                assert((index as int + 1) * per == index as int * per + per) by (nonlinear_arith);
                assert(cnew - c0 == walked_pages(rem0, per as int, start_page as int, index as int
                    + 1));
            }
        }
        child_start = 0;
        index = index + 1;
    }
    proof {
        assert(*cursor as int - c0 == walked_pages(rem0, per as int, start_page as int, ec as int));
        assert(ec as int * per - start_page >= 0);
    }
}

/// The addressable root of one address space's page-table tree, owned as a
/// whole while it is not installed in the translation hardware.
///
/// `top` is the top-level table; `top_paddr` is the physical address of the
/// frame backing it, recorded so that the self-referential mapping and the
/// hardware's installed-root register can be compared. `page_size` and
/// `entry_count` are the geometry the concrete architecture dictates.
pub struct InactiveHierarchy {
    /// Bytes per page, an architecture constant.
    pub page_size: usize,
    /// Entries per table, an architecture constant.
    pub entry_count: usize,
    /// Physical address of the frame holding the top-level table.
    pub top_paddr: usize,
    /// The top-level table; the whole tree hangs below it.
    pub top: Table,
}

impl InactiveHierarchy {
    /// Well-formedness: sane geometry, a well-formed tree, and a byte span
    /// that fits the machine.
    pub open spec fn wf(&self) -> bool {
        &&& self.entry_count >= 2
        &&& self.page_size >= 1
        &&& table_wf(self.top, self.entry_count as nat)
        &&& self.page_size * (self.entry_count as int * pages_per_entry(
            self.entry_count as nat,
            self.top.level as nat,
        )) <= usize::MAX
    }

    /// Number of pages the hierarchy addresses.
    pub open spec fn page_count(&self) -> int {
        self.entry_count as int * pages_per_entry(self.entry_count as nat, self.top.level as nat)
    }

    /// The state of the `p`-th page of the address space: the mathematical
    /// model every operation's contract is stated against.
    pub open spec fn page_view(&self, p: nat) -> PageState<(usize, MappingFlags)> {
        entries_page(self.top.entries@, self.top.level as nat, self.entry_count as nat, p)
    }

    /// The page index a byte address falls in.
    pub open spec fn page_index_of(&self, address: usize) -> int {
        address as int / self.page_size as int
    }

    /// Geometry left unchanged by an operation.
    pub open spec fn same_shape(self, other: Self) -> bool {
        &&& self.page_size == other.page_size
        &&& self.entry_count == other.entry_count
        &&& self.top_paddr == other.top_paddr
        &&& self.top.level == other.top.level
    }

    /// The hierarchy's byte span fitting the machine bounds each page
    /// count and the per-entry page count of the top level.
    proof fn lemma_geometry(&self)
        requires
            self.wf(),
        ensures
            self.page_count() <= usize::MAX,
            pages_per_entry(self.entry_count as nat, self.top.level as nat) <= usize::MAX,
            self.entry_count as int * pages_per_entry(
                self.entry_count as nat,
                self.top.level as nat,
            ) <= usize::MAX,
            pages_per_entry(self.entry_count as nat, self.top.level as nat) >= 1,
    {
        let per = pages_per_entry(self.entry_count as nat, self.top.level as nat);
        lemma_pages_per_entry_pos(self.entry_count as nat, self.top.level as nat);
        assert(self.entry_count as int * per <= self.page_size * (self.entry_count as int * per))
            by (nonlinear_arith)
            requires
                self.page_size >= 1,
                self.entry_count as int * per >= 0,
        ;
        assert(per <= self.entry_count as int * per) by (nonlinear_arith)
            requires
                self.entry_count >= 2,
                per >= 1,
        ;
    }

    /// Creates a mapping in the page tables with the given flags.
    ///
    /// The physical frames to map are passed as a sequence of physical
    /// addresses. The mapping begins at `start_address` and advances by one
    /// page per frame, consuming `frames` in order; when `frames` is
    /// exhausted, the mapping stops, so the caller controls how many pages
    /// are written. `start_address` must be page-aligned, the span must lie
    /// inside the address space, and every page of it must be available:
    /// mapping over anything else is a caller bookkeeping error.
    pub fn map_to_from_iterator(
        &mut self,
        frames: &Vec<usize>,
        start_address: usize,
        flags: MappingFlags,
    )
        requires
            old(self).wf(),
            start_address as int % old(self).page_size as int == 0,
            old(self).page_index_of(start_address) < old(self).page_count(),
            old(self).page_index_of(start_address) + frames@.len() <= old(self).page_count(),
            forall|i: int|
                0 <= i < frames@.len() ==> (#[trigger] old(self).page_view(
                    (old(self).page_index_of(start_address) + i) as nat,
                )) is Available,
        ensures
            final(self).wf(),
            final(self).same_shape(*old(self)),
            forall|p: nat|
                old(self).page_index_of(start_address) <= p < old(self).page_index_of(
                    start_address,
                ) + frames@.len() ==> #[trigger] final(self).page_view(p) == PageState::Present(
                    (frames@[p - old(self).page_index_of(start_address)], flags),
                ),
            forall|p: nat|
                p < old(self).page_count() && !(old(self).page_index_of(start_address) <= p < old(self).page_index_of(start_address) + frames@.len()) ==> final(self).page_view(p)
                    == old(self).page_view(p),
    {
        proof {
            self.lemma_geometry();
        }
        let level = self.top.level;
        let ec = self.entry_count;
        let per = pow_usize(ec, level);
        let p0 = start_address / self.page_size;
        let mut cursor: usize = 0;
        let ghost n = frames@.len() as int;
        proof {
            assert(span_to_walk(n, ec as int * per as int, p0 as int) == n);
            assert forall|p: nat|
                p0 <= p < p0 + span_to_walk(n, ec as int * per as int, p0 as int) implies
                entries_page(self.top.entries@, level as nat, ec as nat, p) is Available by {
                let i = p - p0;
                assert(old(self).page_view(
                    (old(self).page_index_of(start_address) + i) as nat,
                ) is Available);
            }
        }
        rec_map_to(&mut self.top.entries, level, per, ec, frames, &mut cursor, p0, flags);
        proof {
            assert(cursor == n);
            assert forall|p: nat| p0 <= p < p0 + n implies #[trigger] final(self).page_view(p)
                == PageState::Present((frames@[p - p0], flags)) by {
                assert(entries_page(self.top.entries@, level as nat, ec as nat, p)
                    == PageState::Present((frames@[0 + p - p0], flags)));
            }
        }
    }

    /// The byte length of a span, counted in pages.
    pub open spec fn page_len_of(&self, length: usize) -> int {
        length as int / self.page_size as int
    }

    /// The physical addresses of the present pages among the `n` pages
    /// starting at page `p0`, in ascending page order.
    pub open spec fn frames_in_range(&self, p0: nat, n: nat) -> Seq<usize> {
        present_frames(self.top.entries@, self.top.level as nat, self.entry_count as nat, p0, n)
    }

    /// Creates a span of guard pages over `[address, address + length)`.
    ///
    /// Whenever an entire entry-span-aligned, entry-span-sized region is to
    /// be guarded, a single entry is marked `Guarded` at the highest
    /// possible level (a huge guard) instead of building child tables full
    /// of guards, so a large reservation costs a bounded number of tables.
    /// Address and length must be page-aligned, the span must lie inside
    /// the address space, and every page of it must be available: guarding
    /// over a guard or a mapping is a caller bookkeeping error.
    pub fn guard(&mut self, address: usize, length: usize)
        requires
            old(self).wf(),
            address as int % old(self).page_size as int == 0,
            length as int % old(self).page_size as int == 0,
            old(self).page_index_of(address) < old(self).page_count(),
            old(self).page_index_of(address) + old(self).page_len_of(length) <= old(self).page_count(),
            forall|p: nat|
                old(self).page_index_of(address) <= p < old(self).page_index_of(address) + old(self).page_len_of(length) ==> old(self).page_view(p) is Available,
        ensures
            final(self).wf(),
            final(self).same_shape(*old(self)),
            forall|p: nat|
                old(self).page_index_of(address) <= p < old(self).page_index_of(address) + old(self).page_len_of(length) ==> final(self).page_view(p) is Guarded,
            forall|p: nat|
                p < old(self).page_count() && !(old(self).page_index_of(address) <= p < old(self).page_index_of(address) + old(self).page_len_of(length)) ==> final(self).page_view(p) == old(self).page_view(p),
            forall|i: int|
                0 <= i < old(self).entry_count && old(self).top.entries@[i] is Available && old(self).page_index_of(address) <= i * pages_per_entry(
                    old(self).entry_count as nat,
                    old(self).top.level as nat,
                ) && (i + 1) * pages_per_entry(
                    old(self).entry_count as nat,
                    old(self).top.level as nat,
                ) <= old(self).page_index_of(address) + old(self).page_len_of(length) ==> final(self).top.entries@[i] == Entry::Guarded,
    {
        proof {
            self.lemma_geometry();
        }
        let level = self.top.level;
        let ec = self.entry_count;
        let per = pow_usize(ec, level);
        let p0 = address / self.page_size;
        let mut rem = length / self.page_size;
        let ghost np = rem as int;
        proof {
            assert(span_to_walk(np, ec as int * per as int, p0 as int) == np);
            assert forall|p: nat|
                p0 <= p < p0 + span_to_walk(np, ec as int * per as int, p0 as int) implies
                entries_page(self.top.entries@, level as nat, ec as nat, p) is Available by {
                assert(old(self).page_view(p) is Available);
            }
        }
        rec_guard(&mut self.top.entries, level, per, ec, p0, &mut rem);
        proof {
            assert(rem == 0);
        }
    }

    /// Unmaps `[address, address + length)`, returning the physical
    /// addresses of the pages that were mapped there, in ascending address
    /// order, so the caller can release the frames.
    ///
    /// A guard met on the way is simply cleared and contributes nothing to
    /// the result. A huge guard the span only partly covers is split: the
    /// reservation survives, as guarded entries in a new child table,
    /// everywhere the span does not reach. Meeting an available page is a
    /// caller bookkeeping error: it means the caller's records have
    /// diverged from the tree. Tables left empty are never reclaimed.
    pub fn unmap(&mut self, address: usize, length: usize) -> (freed: Vec<usize>)
        requires
            old(self).wf(),
            address as int % old(self).page_size as int == 0,
            length as int % old(self).page_size as int == 0,
            old(self).page_index_of(address) < old(self).page_count(),
            old(self).page_index_of(address) + old(self).page_len_of(length) <= old(self).page_count(),
            forall|p: nat|
                old(self).page_index_of(address) <= p < old(self).page_index_of(address) + old(self).page_len_of(length) ==> !(old(self).page_view(p) is Available),
        ensures
            final(self).wf(),
            final(self).same_shape(*old(self)),
            forall|p: nat|
                old(self).page_index_of(address) <= p < old(self).page_index_of(address) + old(self).page_len_of(length) ==> final(self).page_view(p) is Available,
            forall|p: nat|
                p < old(self).page_count() && !(old(self).page_index_of(address) <= p < old(self).page_index_of(address) + old(self).page_len_of(length)) ==> final(self).page_view(p) == old(self).page_view(p),
            freed@ == old(self).frames_in_range(
                old(self).page_index_of(address) as nat,
                old(self).page_len_of(length) as nat,
            ),
    {
        proof {
            self.lemma_geometry();
        }
        let level = self.top.level;
        let ec = self.entry_count;
        let per = pow_usize(ec, level);
        let p0 = address / self.page_size;
        let mut rem = length / self.page_size;
        let mut freed: Vec<usize> = Vec::new();
        let ghost np = rem as int;
        proof {
            assert(span_to_walk(np, ec as int * per as int, p0 as int) == np);
            assert forall|p: nat|
                p0 <= p < p0 + span_to_walk(np, ec as int * per as int, p0 as int) implies !(
                entries_page(self.top.entries@, level as nat, ec as nat, p) is Available) by {
                assert(!(old(self).page_view(p) is Available));
            }
        }
        rec_unmap(&mut self.top.entries, level, per, ec, p0, &mut rem, &mut freed);
        proof {
            assert(rem == 0);
            assert(freed@ =~= old(self).frames_in_range(p0 as nat, np as nat));
        }
        freed
    }

    /// What `for_every_entry` reports for the span starting at `address`
    /// with `length` bytes: states paired with spans in bytes, in address
    /// order.
    pub open spec fn records_of_span(&self, address: usize, length: usize) -> (Seq<
        (PageState<usize>, int),
    >, nat) {
        let per = pages_per_entry(self.entry_count as nat, self.top.level as nat);
        walk_records(
            self.top.entries@,
            self.top.level as nat,
            self.entry_count as nat,
            self.page_size as nat,
            self.page_index_of(address) / per as int,
            (self.page_index_of(address) % per as int) as nat,
            self.page_len_of(length) as nat,
        )
    }

    /// Walks the page tables, reporting every entry the span
    /// `[address, address + length)` touches: its state and the length in
    /// bytes it covers, in address order. A used entry above leaf level is
    /// walked into rather than reported, so a huge guard appears as one
    /// report covering its whole span while a child table appears as its
    /// individual entries. The walk is read-only; the final report may
    /// cover more than the remaining length, which tolerates a span ending
    /// inside a coarse entry.
    pub fn for_every_entry(&self, address: usize, length: usize) -> (records: Vec<
        (PageState<usize>, usize),
    >)
        requires
            self.wf(),
            address as int % self.page_size as int == 0,
            length as int % self.page_size as int == 0,
            self.page_index_of(address) < self.page_count(),
        ensures
            records@.map_values(|r: (PageState<usize>, usize)| (r.0, r.1 as int))
                == self.records_of_span(address, length).0,
    {
        proof {
            self.lemma_geometry();
        }
        let level = self.top.level;
        let ec = self.entry_count;
        let per = pow_usize(ec, level);
        let p0 = address / self.page_size;
        let mut rem = length / self.page_size;
        let mut out: Vec<(PageState<usize>, usize)> = Vec::new();
        rec_iter(&self.top.entries, level, per, ec, self.page_size, p0, &mut rem, &mut out);
        proof {
            assert(out@.map_values(|r: (PageState<usize>, usize)| (r.0, r.1 as int))
                =~= self.records_of_span(address, length).0);
        }
        out
    }

    /// Finds a virtual-space hole at least `length` bytes long between
    /// `start_addr` and `end_addr`, starting on a multiple of `alignment`.
    ///
    /// The search is a greedy first fit: a single candidate hole grows over
    /// available entries, dies on the first guard or mapped page it meets,
    /// and restarts at the next aligned address; used parent entries are
    /// searched inside, since they may hide available sub-regions, which
    /// makes the scan precise rather than conservative. `Some` is returned
    /// as soon as a hole reaches `length`; `None` exactly when no aligned,
    /// fully available span of that length starts in the window. All three
    /// of `start_addr`, `length` and `alignment` must be page-aligned,
    /// `length` and `alignment` nonzero, and the window must lie inside the
    /// address space.
    #[verifier::rlimit(60)]
    #[verifier::spinoff_prover]
    pub fn find_available_virtual_space_aligned(
        &self,
        length: usize,
        start_addr: usize,
        end_addr: usize,
        alignment: usize,
    ) -> (r: Option<usize>)
        requires
            self.wf(),
            start_addr as int % self.page_size as int == 0,
            length as int % self.page_size as int == 0,
            alignment as int % self.page_size as int == 0,
            alignment > 0,
            length > 0,
            start_addr <= end_addr,
            end_addr as int <= self.page_size * self.page_count(),
        ensures
            r matches Some(x) ==> x as int % alignment as int == 0 && start_addr <= x && x
                + length <= end_addr && (forall|p: int|
                x as int / self.page_size as int <= p < x as int / self.page_size as int
                    + self.page_len_of(length) ==> (#[trigger] self.page_view(p as nat)) is Available),
            r is None ==> forall|x: int|
                0 <= x && #[trigger] (x % alignment as int) == 0 && start_addr <= x && x + length
                    <= end_addr ==> search_blocked(
                    self.top.entries@,
                    self.top.level as nat,
                    self.entry_count as nat,
                    x / self.page_size as int,
                    self.page_len_of(length),
                ),
    {
        proof {
            self.lemma_geometry();
        }
        let ps = self.page_size;
        let ec = self.entry_count;
        let level = self.top.level;
        let per = pow_usize(ec, level);
        let ghost total = ec as int * pages_per_entry(ec as nat, level as nat);
        let sp = start_addr / ps;
        let ep = end_addr / ps;
        let desired = length / ps;
        let alignp = alignment / ps;
        proof {
            lemma_fundamental_div_mod(alignment as int, ps as int);
            lemma_fundamental_div_mod(start_addr as int, ps as int);
            lemma_fundamental_div_mod(length as int, ps as int);
            lemma_fundamental_div_mod(end_addr as int, ps as int);
            assert(alignp >= 1) by (nonlinear_arith)
                requires
                    alignment as int == ps as int * (alignp as int) + (alignment as int % ps
                        as int),
                    (alignment as int % ps as int) == 0,
                    alignment >= 1,
                    ps >= 1,
            ;
            assert(desired >= 1) by (nonlinear_arith)
                requires
                    length as int == ps as int * (desired as int) + (length as int % ps as int),
                    (length as int % ps as int) == 0,
                    length >= 1,
                    ps >= 1,
            ;
            assert(ep <= total) by (nonlinear_arith)
                requires
                    end_addr as int == ps as int * (ep as int) + (end_addr as int % ps as int),
                    0 <= (end_addr as int % ps as int),
                    end_addr as int <= ps as int * total,
                    ps >= 1,
                    0 <= ep,
            ;
            // A byte candidate is a page candidate.
            assert forall|x: int|
                0 <= x && #[trigger] (x % alignment as int) == 0 && start_addr <= x && x + length
                    <= end_addr implies (x / ps as int) % alignp as int == 0 && x == (x / ps
                as int) * ps && sp <= x / ps as int && x / ps as int + desired <= ep by {
                let m = x / alignment as int;
                lemma_fundamental_div_mod(x, alignment as int);
                assert(x == (m * alignp as int) * ps as int) by (nonlinear_arith)
                    requires
                        x == alignment as int * m,
                        alignment as int == ps as int * (alignp as int),
                ;
                lemma_page_split(x, ps as int, m * alignp as int, 0);
                vstd::arithmetic::div_mod::lemma_mod_multiples_basic(m, alignp as int);
                vstd::arithmetic::div_mod::lemma_div_is_ordered(
                    start_addr as int,
                    x,
                    ps as int,
                );
                assert(x / ps as int + desired <= ep) by {
                    assert(x + length <= end_addr);
                    assert((x / ps as int + desired) * ps as int == x + length)
                        by (nonlinear_arith)
                        requires
                            x == (x / ps as int) * ps as int,
                            length as int == ps as int * (desired as int),
                    ;
                    if x / ps as int + desired > ep {
                        assert((x / ps as int + desired) * ps as int >= (ep + 1) * ps as int)
                            by (nonlinear_arith)
                            requires
                                x / ps as int + desired >= ep + 1,
                                ps >= 1,
                        ;
                        assert((ep + 1) * ps as int > end_addr as int) by (nonlinear_arith)
                            requires
                                end_addr as int == ps as int * (ep as int) + (end_addr as int % ps
                                    as int),
                                (end_addr as int % ps as int) < ps,
                        ;
                    }
                }
            }
        }
        if length > end_addr - start_addr {
            proof {
                assert forall|x: int|
                    0 <= x && #[trigger] (x % alignment as int) == 0 && start_addr <= x && x
                        + length <= end_addr implies search_blocked(
                    self.top.entries@,
                    self.top.level as nat,
                    self.entry_count as nat,
                    x / self.page_size as int,
                    self.page_len_of(length),
                ) by {
                    assert(false);
                }
            }
            return None;
        }
        proof {
            assert(desired <= ep) by {
                assert(start_addr + length <= end_addr);
                assert(sp + desired <= ep) by {
                    assert((sp + desired) * ps as int == start_addr + length)
                        by (nonlinear_arith)
                        requires
                            start_addr as int == ps as int * (sp as int),
                            length as int == ps as int * (desired as int),
                    ;
                    if sp + desired > ep {
                        assert((sp + desired) * ps as int >= (ep + 1) * ps as int)
                            by (nonlinear_arith)
                            requires
                                sp + desired >= ep + 1,
                                ps >= 1,
                        ;
                        assert((ep + 1) * ps as int > end_addr as int) by (nonlinear_arith)
                            requires
                                end_addr as int == ps as int * (ep as int) + (end_addr as int % ps
                                    as int),
                                (end_addr as int % ps as int) < ps,
                        ;
                    }
                }
            }
        }
        // First alignment-multiple page index at or after `sp`, if any
        // aligned candidate can still fit below `ep`.
        let mut fa: usize = 0;
        let mut feasible = true;
        if sp % alignp == 0 {
            fa = sp;
        } else {
            let q = sp / alignp + 1;
            proof {
                lemma_fundamental_div_mod(sp as int, alignp as int);
            }
            if q > ep / alignp {
                feasible = false;
                proof {
                    lemma_fundamental_div_mod(ep as int, alignp as int);
                }
            } else {
                proof {
                    assert(q * alignp <= (ep as int / alignp as int) * alignp)
                        by (nonlinear_arith)
                        requires
                            q as int <= ep as int / alignp as int,
                            alignp >= 1,
                    ;
                    lemma_fundamental_div_mod(ep as int, alignp as int);
                }
                fa = q * alignp;
                proof {
                    vstd::arithmetic::div_mod::lemma_mod_multiples_basic(q as int, alignp as int);
                }
            }
        }
        // Any aligned page index at or after `sp` is at least `fa`.
        proof {
            if feasible {
                assert forall|xp: int|
                    #[trigger] (xp % alignp as int) == 0 && sp <= xp implies fa <= xp by {
                    let m = xp / alignp as int;
                    lemma_fundamental_div_mod(xp, alignp as int);
                    if sp as int % alignp as int == 0 {
                    } else {
                        let q = sp as int / alignp as int + 1;
                        lemma_fundamental_div_mod(sp as int, alignp as int);
                        assert(m >= q) by (nonlinear_arith)
                            requires
                                xp == alignp as int * m,
                                sp as int == alignp as int * (q - 1) + (sp as int % alignp
                                    as int),
                                0 < (sp as int % alignp as int) < alignp,
                                sp <= xp,
                                alignp >= 1,
                        ;
                        assert(xp >= q * alignp as int) by (nonlinear_arith)
                            requires
                                m >= q,
                                alignp >= 1,
                                xp == alignp as int * m,
                        ;
                        assert(fa == q * alignp as int);
                    }
                }
            } else {
                // No aligned index fits: every candidate would overshoot.
                let q = sp as int / alignp as int + 1;
                assert forall|xp: int|
                    #[trigger] (xp % alignp as int) == 0 && sp <= xp implies xp + desired > ep by {
                    let m = xp / alignp as int;
                    lemma_fundamental_div_mod(xp, alignp as int);
                    lemma_fundamental_div_mod(sp as int, alignp as int);
                    lemma_fundamental_div_mod(ep as int, alignp as int);
                    assert(m >= q) by (nonlinear_arith)
                        requires
                            xp == alignp as int * m,
                            sp as int == alignp as int * (q - 1) + (sp as int % alignp as int),
                            0 < (sp as int % alignp as int) < alignp,
                            sp <= xp,
                            alignp >= 1,
                    ;
                    assert(xp > ep) by (nonlinear_arith)
                        requires
                            xp == alignp as int * m,
                            m >= q,
                            q > ep as int / alignp as int,
                            ep as int == alignp as int * (ep as int / alignp as int) + (ep as int
                                % alignp as int),
                            0 <= (ep as int % alignp as int) < alignp,
                            alignp >= 1,
                    ;
                }
            }
        }
        if !feasible || fa > ep - desired {
            proof {
                if feasible {
                    assert forall|xp: int|
                        #[trigger] (xp % alignp as int) == 0 && sp <= xp implies xp + desired
                        > ep by {
                        assert(fa <= xp);
                    }
                }
            }
            return None;
        }
        let mut hole_start = fa;
        let mut hole_len: usize = 0;
        proof {
            assert(fa < total);
        }
        rec_find(
            &self.top.entries,
            level,
            per,
            ec,
            0,
            &mut hole_start,
            &mut hole_len,
            desired,
            ep,
            alignp,
            fa,
            Ghost(self.top.entries@),
            Ghost(level as nat),
        );
        if hole_len >= desired {
            proof {
                assert(hole_start as int * ps as int <= total * ps as int) by (nonlinear_arith)
                    requires
                        hole_start as int <= total,
                        ps >= 1,
                ;
                assert(total * ps as int <= ps as int * total) by (nonlinear_arith);
            }
            let x = hole_start * ps;
            proof {
                assert(hole_start + desired <= ep);
                assert(hole_start as int % alignp as int == 0);
                let k = hole_start as int / alignp as int;
                lemma_fundamental_div_mod(hole_start as int, alignp as int);
                assert(x as int == k * (alignp as int * ps as int)) by (nonlinear_arith)
                    requires
                        hole_start as int == k * alignp as int,
                        x as int == hole_start as int * ps as int,
                ;
                vstd::arithmetic::div_mod::lemma_mod_multiples_basic(
                    k,
                    alignment as int,
                );
                assert(x as int % alignment as int == 0);
                lemma_page_split(x as int, ps as int, hole_start as int, 0);
                assert(start_addr <= x) by {
                    assert(sp <= fa) by (nonlinear_arith)
                        requires
                            fa == sp || (fa == (sp as int / alignp as int + 1) * alignp as int
                                && sp as int == alignp as int * (sp as int / alignp as int) + (sp
                                as int % alignp as int) && 0 <= (sp as int % alignp as int)
                                < alignp && alignp >= 1),
                    ;
                    assert(sp <= fa <= hole_start);
                    assert(sp as int * ps as int <= hole_start as int * ps as int)
                        by (nonlinear_arith)
                        requires
                            sp <= hole_start,
                            ps >= 1,
                    ;
                    assert(start_addr as int <= sp as int * ps as int) by (nonlinear_arith)
                        requires
                            start_addr as int == ps as int * (sp as int),
                    ;
                }
                assert(x + length <= end_addr) by {
                    assert((hole_start + desired) * ps as int <= ep as int * ps as int)
                        by (nonlinear_arith)
                        requires
                            hole_start + desired <= ep,
                            ps >= 1,
                    ;
                    assert(ep as int * ps as int <= end_addr as int) by (nonlinear_arith)
                        requires
                            end_addr as int == ps as int * (ep as int) + (end_addr as int % ps
                                as int),
                            0 <= (end_addr as int % ps as int),
                    ;
                    assert((hole_start + desired) * ps as int == x + length)
                        by (nonlinear_arith)
                        requires
                            x as int == hole_start as int * ps as int,
                            length as int == ps as int * (desired as int),
                    ;
                }
            }
            Some(x)
        } else {
            proof {
                assert(hole_start + desired > ep) by {
                    if hole_start + hole_len >= ec * per {
                        assert(hole_start + hole_len >= ep);
                    }
                }
                assert forall|x: int|
                    0 <= x && #[trigger] (x % alignment as int) == 0 && start_addr <= x && x
                        + length <= end_addr implies search_blocked(
                    self.top.entries@,
                    self.top.level as nat,
                    self.entry_count as nat,
                    x / self.page_size as int,
                    self.page_len_of(length),
                ) by {
                    let xp = x / ps as int;
                    assert(xp % alignp as int == 0 && sp <= xp && xp + desired <= ep);
                    assert(fa <= xp);
                    assert(xp < hole_start);
                }
            }
            None
        }
    }
}

/// Recursive worker of `guard`.
///
/// Reserves pages of the subtree under a level-`level` entry array,
/// starting at page `start_page` of its span, until `length` (in pages)
/// runs out or the span ends. Whenever a whole entry span is to be guarded
/// and the entry is still available, a single entry is marked `Guarded` at
/// this level (a huge guard) instead of building a fully guarded child
/// table; otherwise the walk descends, creating child tables on demand.
#[verifier::rlimit(100)]
#[verifier::spinoff_prover]
fn rec_guard(
    entries: &mut Vec<Entry>,
    level: usize,
    per: usize,
    ec: usize,
    start_page: usize,
    length: &mut usize,
)
    requires
        ec >= 2,
        per == pages_per_entry(ec as nat, level as nat),
        ec * per <= usize::MAX,
        old(entries)@.len() == ec,
        forall|i: int|
            0 <= i < ec ==> entry_wf(#[trigger] old(entries)@[i], level as nat, ec as nat),
        start_page < ec * per,
        forall|p: nat|
            start_page <= p < start_page + span_to_walk(
                *old(length) as int,
                ec as int * per as int,
                start_page as int,
            ) ==> entries_page(old(entries)@, level as nat, ec as nat, p) is Available,
    ensures
        final(entries)@.len() == ec,
        forall|i: int|
            0 <= i < ec ==> entry_wf(#[trigger] final(entries)@[i], level as nat, ec as nat),
        *old(length) - *final(length) == span_to_walk(
            *old(length) as int,
            ec as int * per as int,
            start_page as int,
        ),
        forall|p: nat|
            start_page <= p < start_page + (*old(length) - *final(length)) ==> entries_page(
                final(entries)@,
                level as nat,
                ec as nat,
                p,
            ) is Guarded,
        forall|p: nat|
            p < ec as int * per as int && !(start_page <= p < start_page + (*old(length) - *final(length))) ==> entries_page(final(entries)@, level as nat, ec as nat, p) == entries_page(
                old(entries)@,
                level as nat,
                ec as nat,
                p,
            ),
        forall|i: int|
            0 <= i < ec && old(entries)@[i] is Available && start_page <= i * per && (i + 1) * per
                <= start_page + (*old(length) - *final(length)) ==> final(entries)@[i]
                == Entry::Guarded,
    decreases level,
{
    let ghost orig = entries@;
    let ghost len0 = *length as int;
    let ghost lv = level as nat;
    let ghost ecn = ec as nat;
    let ghost total = ec as int * per as int;

    proof {
        lemma_pages_per_entry_pos(ecn, lv);
        lemma_page_index_bound(start_page as int, per as int, ec as int);
    }
    let entry_offset = start_page / per;
    let mut child_start = start_page % per;
    let mut index = entry_offset;

    proof {
        assert forall|i: int|
            0 <= i < ec && orig[i] is Available && start_page <= i * per && (i + 1) * per
                <= start_page as int + (len0 - *length as int) implies entries@[i]
            == Entry::Guarded by {
            assert((i + 1) * per == i * per + per) by (nonlinear_arith);
            assert(false);
        }
    }
    while index < ec
        invariant
            ec >= 2,
            per >= 1,
            lv == level as nat,
            ecn == ec as nat,
            per == pages_per_entry(ecn, lv),
            total == ec as int * per as int,
            total <= usize::MAX,
            len0 == *old(length) as int,
            orig == old(entries)@,
            0 <= *length as int <= len0,
            start_page < total,
            entry_offset == start_page as int / per as int,
            entry_offset <= index <= ec,
            index == entry_offset ==> child_start == start_page as int % per as int,
            index > entry_offset ==> child_start == 0,
            child_start < per,
            len0 - *length as int == walked_pages(len0, per as int, start_page as int, index as int),
            entries@.len() == ec,
            forall|i: int| 0 <= i < ec ==> entry_wf(#[trigger] entries@[i], lv, ecn),
            forall|i: int| index <= i < ec ==> entries@[i] == orig[i],
            forall|p: nat|
                start_page <= p < start_page as int + (len0 - *length as int) ==> entries_page(
                    entries@,
                    lv,
                    ecn,
                    p,
                ) is Guarded,
            forall|p: nat|
                p < total && !(start_page <= p < start_page as int + (len0 - *length as int))
                    ==> entries_page(entries@, lv, ecn, p) == entries_page(orig, lv, ecn, p),
            forall|p: nat|
                start_page <= p < start_page as int + span_to_walk(len0, total, start_page as int)
                    ==> entries_page(orig, lv, ecn, p) is Available,
            forall|i: int|
                0 <= i < ec && orig[i] is Available && start_page <= i * per && (i + 1) * per
                    <= start_page as int + (len0 - *length as int) ==> entries@[i]
                    == Entry::Guarded,
        decreases ec - index,
    {
        if *length == 0 {
            proof {
                assert(index as int * per <= ec as int * per) by (nonlinear_arith)
                    requires
                        index <= ec,
                        per >= 1,
                ;
            }
            return ;
        }
        let ghost pre = entries@;
        let ghost rempre = *length as int;
        let ghost walked = len0 - rempre;
        let ghost pos = start_page as int + walked;

        proof {
            assert(walked < len0);
            assert(walked == max(0, index as int * per - start_page as int));
            if index == entry_offset {
                lemma_fundamental_div_mod(start_page as int, per as int);
                assert(index as int * per <= start_page as int);
                assert(pos == index as int * per + child_start as int);
            } else {
                lemma_fundamental_div_mod(start_page as int, per as int);
                vstd::arithmetic::mul::lemma_mul_inequality(
                    entry_offset as int + 1,
                    index as int,
                    per as int,
                );
                assert((entry_offset as int + 1) * per == entry_offset as int * per + per)
                    by (nonlinear_arith);
                assert(index as int * per >= start_page as int);
                assert(pos == index as int * per + child_start as int);
            }
            assert(index as int * per + per <= ec as int * per) by (nonlinear_arith)
                requires
                    index < ec,
                    per >= 1,
            ;
            assert(pos < total);
            assert(pos - start_page < span_to_walk(len0, total, start_page as int));
            assert(entries_page(orig, lv, ecn, pos as nat) is Available);
            assert(entries_page(pre, lv, ecn, pos as nat) is Available);
            lemma_page_split(pos, per as int, index as int, child_start as int);
            assert(entry_wf(pre[index as int], lv, ecn));
            assert(pre[index as int] == orig[index as int]);
            if level == 0 {
                assert(per == 1) by {
                    reveal(pow);
                }
                assert(index as int * per == index as int && ec as int * per == ec as int)
                    by (nonlinear_arith)
                    requires
                        per == 1,
                ;
                lemma_div_by_one(pos, per as int);
                assert(entries_page(pre, lv, ecn, pos as nat) == crate::table::leaf_state(
                    pre[pos],
                ));
                assert(pre[index as int] is Available);
            } else {
                assert(!(pre[index as int] is Guarded));
                assert(!(pre[index as int] is Page));
            }
        }

        let is_child = matches!(&entries[index], Entry::Child(_));
        if is_child {
            proof {
                assert(pre[index as int] is Child);
                assert(level >= 1);
            }
            let child_per = per / ec;
            proof {
                lemma_pages_per_entry_unfold(ecn, lv);
                lemma_pages_per_entry_pos(ecn, (lv - 1) as nat);
                vstd::arithmetic::mul::lemma_mul_is_commutative(
                    ec as int,
                    pages_per_entry(ecn, (lv - 1) as nat) as int,
                );
                lemma_fundamental_div_mod_converse(
                    per as int,
                    ec as int,
                    pages_per_entry(ecn, (lv - 1) as nat) as int,
                    0,
                );
                assert(child_per == pages_per_entry(ecn, (lv - 1) as nat));
            }
            let mut taken = Entry::Available;
            core::mem::swap(&mut entries[index], &mut taken);
            let mut child: Box<Table> = match taken {
                Entry::Child(c) => c,
                _ => vstd::pervasive::unreached(),
            };
            let ghost child_pre = child.entries@;
            proof {
                assert(entries@ == pre.update(index as int, Entry::Available));
                assert(child.level == level - 1);
                assert(child.entries@.len() == ec);
                assert(forall|i: int|
                    0 <= i < ec ==> entry_wf(#[trigger] child.entries@[i], (lv - 1) as nat, ecn));
                assert forall|q: int| 0 <= q < per implies #[trigger] entries_page(
                    pre,
                    lv,
                    ecn,
                    (index as int * per + q) as nat,
                ) == entries_page(child_pre, (lv - 1) as nat, ecn, q as nat) by {
                    lemma_page_split(index as int * per + q, per as int, index as int, q);
                }
                assert forall|q: nat|
                    child_start <= q < child_start as int + span_to_walk(
                        rempre,
                        per as int,
                        child_start as int,
                    ) implies (#[trigger] entries_page(child_pre, (lv - 1) as nat, ecn, q))
                    is Available by {
                    let p = index as int * per + q;
                    assert(p - start_page == walked + (q - child_start));
                    assert(start_page <= p < start_page as int + span_to_walk(
                        len0,
                        total,
                        start_page as int,
                    ));
                    assert(entries_page(orig, lv, ecn, p as nat) is Available);
                    assert(entries_page(pre, lv, ecn, p as nat) is Available);
                }
            }
            rec_guard(&mut child.entries, level - 1, child_per, ec, child_start, length);
            let ghost child_fin = child.entries@;
            let ghost remnew = *length as int;
            let ghost cc = rempre - remnew;
            entries[index] = Entry::Child(child);
            proof {
                assert(entries@[index as int] matches Entry::Child(c) && c.entries@ == child_fin
                    && c.level == level - 1);
                assert(cc == span_to_walk(rempre, per as int, child_start as int));
                assert forall|i: int| 0 <= i < ec implies entry_wf(
                    #[trigger] entries@[i],
                    lv,
                    ecn,
                ) by {
                    if i != index as int {
                        assert(entries@[i] == pre[i]);
                    }
                }
                assert forall|q: int| 0 <= q < per implies #[trigger] entries_page(
                    entries@,
                    lv,
                    ecn,
                    (index as int * per + q) as nat,
                ) == entries_page(child_fin, (lv - 1) as nat, ecn, q as nat) by {
                    lemma_page_split(index as int * per + q, per as int, index as int, q);
                }
                assert forall|p: nat|
                    start_page <= p < start_page as int + (len0 - remnew) implies #[trigger] entries_page(
                    entries@,
                    lv,
                    ecn,
                    p,
                ) is Guarded by {
                    let pi = p as int / per as int;
                    lemma_page_index_bound(p as int, per as int, ec as int);
                    if p < pos {
                        if pi == index as int {
                            let q = p as int % per as int;
                            assert(q < child_start);
                            assert(p == index as int * per + q);
                            assert(entries_page(child_fin, (lv - 1) as nat, ecn, q as nat)
                                == entries_page(child_pre, (lv - 1) as nat, ecn, q as nat));
                            assert(entries_page(pre, lv, ecn, (index as int * per + q) as nat)
                                == entries_page(child_pre, (lv - 1) as nat, ecn, q as nat));
                            assert(entries_page(entries@, lv, ecn, (index as int * per + q) as nat)
                                == entries_page(child_fin, (lv - 1) as nat, ecn, q as nat));
                            assert(entries_page(entries@, lv, ecn, p) == entries_page(
                                pre,
                                lv,
                                ecn,
                                p,
                            ));
                        } else {
                            assert(entries@[pi] == pre[pi]);
                            assert(entries_page(entries@, lv, ecn, p) == entries_page(
                                pre,
                                lv,
                                ecn,
                                p,
                            ));
                        }
                    } else {
                        let q = p - index as int * per;
                        assert(child_start <= q < child_start + cc);
                        assert(p == index as int * per + q);
                        assert(entries_page(entries@, lv, ecn, (index as int * per + q) as nat)
                            == entries_page(child_fin, (lv - 1) as nat, ecn, q as nat));
                        assert(entries_page(child_fin, (lv - 1) as nat, ecn, q as nat) is Guarded);
                    }
                }
                assert forall|p: nat|
                    p < total && !(start_page <= p < start_page as int + (len0 - remnew)) implies
                    entries_page(entries@, lv, ecn, p) == entries_page(orig, lv, ecn, p) by {
                    let pi = p as int / per as int;
                    lemma_page_index_bound(p as int, per as int, ec as int);
                    if pi == index as int {
                        let q = p as int % per as int;
                        assert(q < child_start || q >= child_start + cc);
                        assert(p == index as int * per + q);
                        assert(entries_page(child_fin, (lv - 1) as nat, ecn, q as nat)
                            == entries_page(child_pre, (lv - 1) as nat, ecn, q as nat));
                        assert(entries_page(pre, lv, ecn, (index as int * per + q) as nat)
                            == entries_page(child_pre, (lv - 1) as nat, ecn, q as nat));
                        assert(entries_page(entries@, lv, ecn, (index as int * per + q) as nat)
                            == entries_page(child_fin, (lv - 1) as nat, ecn, q as nat));
                        assert(entries_page(entries@, lv, ecn, p) == entries_page(pre, lv, ecn, p));
                        assert(p < start_page || p >= start_page as int + walked);
                    } else {
                        assert(entries@[pi] == pre[pi]);
                        assert(entries_page(entries@, lv, ecn, p) == entries_page(pre, lv, ecn, p));
                    }
                }
                assert((index as int + 1) * per == index as int * per + per) by (nonlinear_arith);
                assert(len0 - remnew == walked_pages(len0, per as int, start_page as int, index as int
                    + 1));
                assert forall|i: int|
                    0 <= i < ec && orig[i] is Available && start_page <= i * per && (i + 1) * per
                        <= start_page as int + (len0 - remnew) implies entries@[i]
                        == Entry::Guarded by {
                    if i == index as int {
                        assert(false);
                    } else if i < index as int {
                        assert((i + 1) * per <= index as int * per) by (nonlinear_arith)
                            requires
                                i + 1 <= index as int,
                                per >= 1,
                        ;
                        assert(entries@[i] == pre[i]);
                    } else {
                        assert((index as int + 1) * per <= i * per) by (nonlinear_arith)
                            requires
                                index as int + 1 <= i,
                                per >= 1,
                        ;
                        assert((i + 1) * per == i * per + per) by (nonlinear_arith);
                    }
                }
            }
        } else {
            if *length >= per && child_start == 0 {
                entries[index] = Entry::Guarded;
                *length = *length - per;
                proof {
                    let remnew = *length as int;
                    assert(entries@ == pre.update(index as int, Entry::Guarded));
                    assert(pos == index as int * per);
                    assert forall|i: int| 0 <= i < ec implies entry_wf(
                        #[trigger] entries@[i],
                        lv,
                        ecn,
                    ) by {
                        if i != index as int {
                            assert(entries@[i] == pre[i]);
                        }
                    }
                    assert forall|p: nat|
                        start_page <= p < start_page as int + (len0 - remnew) implies #[trigger] entries_page(
                        entries@,
                        lv,
                        ecn,
                        p,
                    ) is Guarded by {
                        let pi = p as int / per as int;
                        lemma_page_index_bound(p as int, per as int, ec as int);
                        if p < pos {
                            assert(pi != index as int);
                            assert(entries@[pi] == pre[pi]);
                            assert(entries_page(pre, lv, ecn, p) is Guarded);
                            assert(entries_page(entries@, lv, ecn, p) == entries_page(
                                pre,
                                lv,
                                ecn,
                                p,
                            ));
                        } else {
                            lemma_page_split(p as int, per as int, index as int, p - pos);
                        }
                    }
                    assert forall|p: nat|
                        p < total && !(start_page <= p < start_page as int + (len0 - remnew))
                        implies #[trigger] entries_page(entries@, lv, ecn, p) == entries_page(
                        orig,
                        lv,
                        ecn,
                        p,
                    ) by {
                        let pi = p as int / per as int;
                        lemma_page_index_bound(p as int, per as int, ec as int);
                        assert(pi != index as int);
                        assert(entries@[pi] == pre[pi]);
                    }
                    assert((index as int + 1) * per == index as int * per + per)
                        by (nonlinear_arith);
                    assert(len0 - remnew == walked_pages(
                        len0,
                        per as int,
                        start_page as int,
                        index as int + 1,
                    ));
                    assert forall|i: int|
                        0 <= i < ec && orig[i] is Available && start_page <= i * per && (i + 1)
                            * per <= start_page as int + (len0 - remnew) implies entries@[i]
                            == Entry::Guarded by {
                        if i < index as int {
                            assert((i + 1) * per <= index as int * per) by (nonlinear_arith)
                                requires
                                    i + 1 <= index as int,
                                    per >= 1,
                            ;
                            assert(entries@[i] == pre[i]);
                        } else if i > index as int {
                            assert((index as int + 1) * per <= i * per) by (nonlinear_arith)
                                requires
                                    index as int + 1 <= i,
                                    per >= 1,
                            ;
                            assert((i + 1) * per == i * per + per) by (nonlinear_arith);
                        }
                    }
                }
            } else {
                proof {
                    assert(level > 0) by {
                        if level == 0 {
                            assert(per == 1) by {
                                reveal(pow);
                            }
                        }
                    }
                }
                let child_per = per / ec;
                proof {
                    lemma_pages_per_entry_unfold(ecn, lv);
                    lemma_pages_per_entry_pos(ecn, (lv - 1) as nat);
                    lemma_fundamental_div_mod_converse(
                        per as int,
                        ec as int,
                        pages_per_entry(ecn, (lv - 1) as nat) as int,
                        0,
                    );
                    assert(child_per == pages_per_entry(ecn, (lv - 1) as nat));
                }
                let mut child = Table::new_zeroed(level - 1, ec);
                let ghost child_pre = child.entries@;
                proof {
                    assert forall|q: nat|
                        child_start <= q < child_start as int + span_to_walk(
                            rempre,
                            per as int,
                            child_start as int,
                        ) implies (#[trigger] entries_page(child_pre, (lv - 1) as nat, ecn, q))
                        is Available by {
                        lemma_all_available_view(child_pre, (lv - 1) as nat, ecn, q);
                    }
                }
                rec_guard(&mut child.entries, level - 1, child_per, ec, child_start, length);
                let ghost child_fin = child.entries@;
                let ghost remnew = *length as int;
                let ghost cc = rempre - remnew;
                entries[index] = Entry::Child(Box::new(child));
                proof {
                    assert(entries@[index as int] matches Entry::Child(c) && c.entries@ == child_fin
                        && c.level == level - 1);
                    assert(cc == span_to_walk(rempre, per as int, child_start as int));
                    assert forall|i: int| 0 <= i < ec implies entry_wf(
                        #[trigger] entries@[i],
                        lv,
                        ecn,
                    ) by {
                        if i != index as int {
                            assert(entries@[i] == pre[i]);
                        }
                    }
                    assert forall|q: int| 0 <= q < per implies #[trigger] entries_page(
                        entries@,
                        lv,
                        ecn,
                        (index as int * per + q) as nat,
                    ) == entries_page(child_fin, (lv - 1) as nat, ecn, q as nat) by {
                        lemma_page_split(index as int * per + q, per as int, index as int, q);
                    }
                    assert forall|q: int| 0 <= q < per implies #[trigger] entries_page(
                        pre,
                        lv,
                        ecn,
                        (index as int * per + q) as nat,
                    ) == entries_page(child_pre, (lv - 1) as nat, ecn, q as nat) by {
                        lemma_page_split(index as int * per + q, per as int, index as int, q);
                        lemma_all_available_view(child_pre, (lv - 1) as nat, ecn, q as nat);
                        assert(entries_page(orig, lv, ecn, (index as int * per + q) as nat)
                            == entries_page(pre, lv, ecn, (index as int * per + q) as nat));
                    }
                    assert forall|p: nat|
                        start_page <= p < start_page as int + (len0 - remnew) implies #[trigger] entries_page(
                        entries@,
                        lv,
                        ecn,
                        p,
                    ) is Guarded by {
                        let pi = p as int / per as int;
                        lemma_page_index_bound(p as int, per as int, ec as int);
                        if p < pos {
                            if pi == index as int {
                                let q = p as int % per as int;
                                assert(q < child_start);
                                assert(p == index as int * per + q);
                                assert(entries_page(child_fin, (lv - 1) as nat, ecn, q as nat)
                                    == entries_page(child_pre, (lv - 1) as nat, ecn, q as nat));
                                assert(entries_page(pre, lv, ecn, (index as int * per + q) as nat)
                                    == entries_page(child_pre, (lv - 1) as nat, ecn, q as nat));
                                assert(entries_page(entries@, lv, ecn, (index as int * per + q) as nat)
                                    == entries_page(child_fin, (lv - 1) as nat, ecn, q as nat));
                                assert(entries_page(entries@, lv, ecn, p) == entries_page(
                                    pre,
                                    lv,
                                    ecn,
                                    p,
                                ));
                            } else {
                                assert(entries@[pi] == pre[pi]);
                                assert(entries_page(entries@, lv, ecn, p) == entries_page(
                                    pre,
                                    lv,
                                    ecn,
                                    p,
                                ));
                            }
                        } else {
                            let q = p - index as int * per;
                            assert(child_start <= q < child_start + cc);
                            assert(p == index as int * per + q);
                            assert(entries_page(entries@, lv, ecn, (index as int * per + q) as nat)
                                == entries_page(child_fin, (lv - 1) as nat, ecn, q as nat));
                            assert(entries_page(child_fin, (lv - 1) as nat, ecn, q as nat)
                                is Guarded);
                        }
                    }
                    assert forall|p: nat|
                        p < total && !(start_page <= p < start_page as int + (len0 - remnew))
                        implies #[trigger] entries_page(entries@, lv, ecn, p) == entries_page(
                        orig,
                        lv,
                        ecn,
                        p,
                    ) by {
                        let pi = p as int / per as int;
                        lemma_page_index_bound(p as int, per as int, ec as int);
                        if pi == index as int {
                            let q = p as int % per as int;
                            assert(q < child_start || q >= child_start + cc);
                            assert(p == index as int * per + q);
                            assert(entries_page(child_fin, (lv - 1) as nat, ecn, q as nat)
                                == entries_page(child_pre, (lv - 1) as nat, ecn, q as nat));
                            assert(entries_page(pre, lv, ecn, (index as int * per + q) as nat)
                                == entries_page(child_pre, (lv - 1) as nat, ecn, q as nat));
                            assert(entries_page(entries@, lv, ecn, (index as int * per + q) as nat)
                                == entries_page(child_fin, (lv - 1) as nat, ecn, q as nat));
                            assert(entries_page(entries@, lv, ecn, p) == entries_page(
                                pre,
                                lv,
                                ecn,
                                p,
                            ));
                            assert(p < start_page || p >= start_page as int + walked);
                        } else {
                            assert(entries@[pi] == pre[pi]);
                            assert(entries_page(entries@, lv, ecn, p) == entries_page(
                                pre,
                                lv,
                                ecn,
                                p,
                            ));
                        }
                    }
                    assert((index as int + 1) * per == index as int * per + per)
                        by (nonlinear_arith);
                    assert(len0 - remnew == walked_pages(
                        len0,
                        per as int,
                        start_page as int,
                        index as int + 1,
                    ));
                    assert forall|i: int|
                        0 <= i < ec && orig[i] is Available && start_page <= i * per && (i + 1)
                            * per <= start_page as int + (len0 - remnew) implies entries@[i]
                            == Entry::Guarded by {
                        if i == index as int {
                            assert(pos + cc < (index as int + 1) * per || !(start_page <= index
                                as int * per));
                            assert(false);
                        } else if i < index as int {
                            assert((i + 1) * per <= index as int * per) by (nonlinear_arith)
                                requires
                                    i + 1 <= index as int,
                                    per >= 1,
                            ;
                            assert(entries@[i] == pre[i]);
                        } else {
                            assert((index as int + 1) * per <= i * per) by (nonlinear_arith)
                                requires
                                    index as int + 1 <= i,
                                    per >= 1,
                            ;
                            assert((i + 1) * per == i * per + per) by (nonlinear_arith);
                        }
                    }
                }
            }
        }
        child_start = 0;
        index = index + 1;
    }
    proof {
        assert(len0 - *length as int == walked_pages(
            len0,
            per as int,
            start_page as int,
            ec as int,
        ));
        assert(ec as int * per - start_page >= 0);
    }
}

/// The physical addresses of the present pages among the `n` pages starting
/// at page `lo`, in ascending page order: what unmapping that range hands
/// to the caller for deallocation.
pub open spec fn present_frames(entries: Seq<Entry>, level: nat, ec: nat, lo: nat, n: nat) -> Seq<
    usize,
>
    decreases n,
{
    if n == 0 {
        Seq::empty()
    } else {
        let head: Seq<usize> = match entries_page(entries, level, ec, lo) {
            PageState::Present(af) => seq![af.0],
            _ => Seq::empty(),
        };
        head + present_frames(entries, level, ec, (lo + 1) as nat, (n - 1) as nat)
    }
}

/// Splitting a run of pages splits its present frames.
pub proof fn lemma_present_frames_concat(
    entries: Seq<Entry>,
    level: nat,
    ec: nat,
    lo: nat,
    n: nat,
    m: nat,
)
    ensures
        present_frames(entries, level, ec, lo, (n + m) as nat) == present_frames(
            entries,
            level,
            ec,
            lo,
            n,
        ) + present_frames(entries, level, ec, (lo + n) as nat, m),
    decreases n,
{
    if n == 0 {
        assert(present_frames(entries, level, ec, lo, 0) == Seq::<usize>::empty());
        assert(present_frames(entries, level, ec, lo, m) =~= Seq::<usize>::empty()
            + present_frames(entries, level, ec, lo, m));
    } else {
        lemma_present_frames_concat(entries, level, ec, (lo + 1) as nat, (n - 1) as nat, m);
        let head: Seq<usize> = match entries_page(entries, level, ec, lo) {
            PageState::Present(af) => seq![af.0],
            _ => Seq::empty(),
        };
        assert(present_frames(entries, level, ec, lo, (n + m) as nat) == head + (present_frames(
            entries,
            level,
            ec,
            (lo + 1) as nat,
            (n - 1) as nat,
        ) + present_frames(entries, level, ec, (lo + n) as nat, m)));
        assert(head + (present_frames(entries, level, ec, (lo + 1) as nat, (n - 1) as nat)
            + present_frames(entries, level, ec, (lo + n) as nat, m)) =~= (head + present_frames(
            entries,
            level,
            ec,
            (lo + 1) as nat,
            (n - 1) as nat,
        )) + present_frames(entries, level, ec, (lo + n) as nat, m));
    }
}

/// Two runs of pages with the same states hand out the same frames.
pub proof fn lemma_present_frames_congruent(
    ea: Seq<Entry>,
    la: nat,
    lo_a: nat,
    eb: Seq<Entry>,
    lb: nat,
    lo_b: nat,
    ec: nat,
    n: nat,
)
    requires
        forall|i: nat|
            i < n ==> #[trigger] entries_page(ea, la, ec, (lo_a + i) as nat) == entries_page(
                eb,
                lb,
                ec,
                (lo_b + i) as nat,
            ),
    ensures
        present_frames(ea, la, ec, lo_a, n) == present_frames(eb, lb, ec, lo_b, n),
    decreases n,
{
    if n > 0 {
        assert(entries_page(ea, la, ec, (lo_a + 0) as nat) == entries_page(
            eb,
            lb,
            ec,
            (lo_b + 0) as nat,
        ));
        assert forall|i: nat| i < n - 1 implies #[trigger] entries_page(
            ea,
            la,
            ec,
            ((lo_a + 1) + i) as nat,
        ) == entries_page(eb, lb, ec, ((lo_b + 1) + i) as nat) by {
            assert(entries_page(ea, la, ec, (lo_a + (i + 1)) as nat) == entries_page(
                eb,
                lb,
                ec,
                (lo_b + (i + 1)) as nat,
            ));
        }
        lemma_present_frames_congruent(
            ea,
            la,
            (lo_a + 1) as nat,
            eb,
            lb,
            (lo_b + 1) as nat,
            ec,
            (n - 1) as nat,
        );
    }
}

/// A run of pages none of which is present hands out no frames.
pub proof fn lemma_present_frames_none(entries: Seq<Entry>, level: nat, ec: nat, lo: nat, n: nat)
    requires
        forall|i: nat| i < n ==> !((#[trigger] entries_page(entries, level, ec, (lo + i) as nat)) is Present),
    ensures
        present_frames(entries, level, ec, lo, n) == Seq::<usize>::empty(),
    decreases n,
{
    if n > 0 {
        assert(entries_page(entries, level, ec, (lo + 0) as nat) == entries_page(
            entries,
            level,
            ec,
            lo,
        ));
        assert forall|i: nat| i < n - 1 implies !((#[trigger] entries_page(
            entries,
            level,
            ec,
            ((lo + 1) + i) as nat,
        )) is Present) by {
            assert(!(entries_page(entries, level, ec, (lo + (i + 1)) as nat) is Present));
        }
        lemma_present_frames_none(entries, level, ec, (lo + 1) as nat, (n - 1) as nat);
        assert(present_frames(entries, level, ec, lo, n) =~= Seq::<usize>::empty());
    }
}

/// Recursive worker of `unmap`.
///
/// Clears pages of the subtree under a level-`level` entry array, starting
/// at page `start_page` of its span, until `length` (in pages) runs out or
/// the span ends. Present leaf pages are cleared and their physical
/// addresses appended to `freed`, in ascending page order, for the caller
/// to release. A guard whose whole span is covered from its start is
/// cleared outright; one the request only partially overlaps is split: the
/// guard becomes a fully guarded child table and the walk descends into it,
/// so the reservation survives everywhere the request does not reach.
/// Tables left empty are never reclaimed.
#[verifier::rlimit(100)]
#[verifier::spinoff_prover]
fn rec_unmap(
    entries: &mut Vec<Entry>,
    level: usize,
    per: usize,
    ec: usize,
    start_page: usize,
    length: &mut usize,
    freed: &mut Vec<usize>,
)
    requires
        ec >= 2,
        per == pages_per_entry(ec as nat, level as nat),
        ec * per <= usize::MAX,
        old(entries)@.len() == ec,
        forall|i: int|
            0 <= i < ec ==> entry_wf(#[trigger] old(entries)@[i], level as nat, ec as nat),
        start_page < ec * per,
        forall|p: nat|
            start_page <= p < start_page + span_to_walk(
                *old(length) as int,
                ec as int * per as int,
                start_page as int,
            ) ==> !(entries_page(old(entries)@, level as nat, ec as nat, p) is Available),
    ensures
        final(entries)@.len() == ec,
        forall|i: int|
            0 <= i < ec ==> entry_wf(#[trigger] final(entries)@[i], level as nat, ec as nat),
        *old(length) - *final(length) == span_to_walk(
            *old(length) as int,
            ec as int * per as int,
            start_page as int,
        ),
        forall|p: nat|
            start_page <= p < start_page + (*old(length) - *final(length)) ==> entries_page(
                final(entries)@,
                level as nat,
                ec as nat,
                p,
            ) is Available,
        forall|p: nat|
            p < ec as int * per as int && !(start_page <= p < start_page + (*old(length) - *final(length))) ==> entries_page(final(entries)@, level as nat, ec as nat, p) == entries_page(
                old(entries)@,
                level as nat,
                ec as nat,
                p,
            ),
        final(freed)@ == old(freed)@ + present_frames(
            old(entries)@,
            level as nat,
            ec as nat,
            start_page as nat,
            (*old(length) - *final(length)) as nat,
        ),
    decreases level,
{
    let ghost orig = entries@;
    let ghost freed0 = freed@;
    let ghost len0 = *length as int;
    let ghost lv = level as nat;
    let ghost ecn = ec as nat;
    let ghost total = ec as int * per as int;

    proof {
        lemma_pages_per_entry_pos(ecn, lv);
        lemma_page_index_bound(start_page as int, per as int, ec as int);
    }
    let entry_offset = start_page / per;
    let mut child_start = start_page % per;
    let mut index = entry_offset;

    while index < ec
        invariant
            ec >= 2,
            per >= 1,
            lv == level as nat,
            ecn == ec as nat,
            per == pages_per_entry(ecn, lv),
            total == ec as int * per as int,
            total <= usize::MAX,
            len0 == *old(length) as int,
            orig == old(entries)@,
            freed0 == old(freed)@,
            0 <= *length as int <= len0,
            start_page < total,
            entry_offset == start_page as int / per as int,
            entry_offset <= index <= ec,
            index == entry_offset ==> child_start == start_page as int % per as int,
            index > entry_offset ==> child_start == 0,
            child_start < per,
            len0 - *length as int == walked_pages(len0, per as int, start_page as int, index as int),
            entries@.len() == ec,
            forall|i: int| 0 <= i < ec ==> entry_wf(#[trigger] entries@[i], lv, ecn),
            forall|i: int| index <= i < ec ==> entries@[i] == orig[i],
            freed@ == freed0 + present_frames(
                orig,
                lv,
                ecn,
                start_page as nat,
                (len0 - *length as int) as nat,
            ),
            forall|p: nat|
                start_page <= p < start_page as int + (len0 - *length as int) ==> entries_page(
                    entries@,
                    lv,
                    ecn,
                    p,
                ) is Available,
            forall|p: nat|
                p < total && !(start_page <= p < start_page as int + (len0 - *length as int))
                    ==> entries_page(entries@, lv, ecn, p) == entries_page(orig, lv, ecn, p),
            forall|p: nat|
                start_page <= p < start_page as int + span_to_walk(len0, total, start_page as int)
                    ==> !(entries_page(orig, lv, ecn, p) is Available),
        decreases ec - index,
    {
        if *length == 0 {
            proof {
                assert(index as int * per <= ec as int * per) by (nonlinear_arith)
                    requires
                        index <= ec,
                        per >= 1,
                ;
            }
            return ;
        }
        let ghost pre = entries@;
        let ghost rempre = *length as int;
        let ghost walked = len0 - rempre;
        let ghost pos = start_page as int + walked;

        proof {
            assert(walked < len0);
            assert(walked == max(0, index as int * per - start_page as int));
            if index == entry_offset {
                lemma_fundamental_div_mod(start_page as int, per as int);
                assert(index as int * per <= start_page as int);
                assert(pos == index as int * per + child_start as int);
            } else {
                lemma_fundamental_div_mod(start_page as int, per as int);
                vstd::arithmetic::mul::lemma_mul_inequality(
                    entry_offset as int + 1,
                    index as int,
                    per as int,
                );
                assert((entry_offset as int + 1) * per == entry_offset as int * per + per)
                    by (nonlinear_arith);
                assert(index as int * per >= start_page as int);
                assert(pos == index as int * per + child_start as int);
            }
            assert(index as int * per + per <= ec as int * per) by (nonlinear_arith)
                requires
                    index < ec,
                    per >= 1,
            ;
            assert(pos < total);
            assert(pos - start_page < span_to_walk(len0, total, start_page as int));
            assert(!(entries_page(orig, lv, ecn, pos as nat) is Available));
            assert(entries_page(pre, lv, ecn, pos as nat) == entries_page(orig, lv, ecn, pos as nat));
            lemma_page_split(pos, per as int, index as int, child_start as int);
            assert(entry_wf(pre[index as int], lv, ecn));
            assert(pre[index as int] == orig[index as int]);
            if level == 0 {
                assert(per == 1) by {
                    reveal(pow);
                }
                assert(index as int * per == index as int && ec as int * per == ec as int)
                    by (nonlinear_arith)
                    requires
                        per == 1,
                ;
                lemma_div_by_one(pos, per as int);
                assert(entries_page(pre, lv, ecn, pos as nat) == crate::table::leaf_state(
                    pre[pos],
                ));
                assert(!(pre[index as int] is Available));
                assert(!(pre[index as int] is Child));
            } else {
                assert(!(pre[index as int] is Available));
                assert(!(pre[index as int] is Page));
            }
        }

        if level == 0 {
            let mut taken = Entry::Available;
            core::mem::swap(&mut entries[index], &mut taken);
            match taken {
                Entry::Page(paddr, _) => {
                    freed.push(paddr);
                }
                Entry::Guarded => {
                }
                _ => {
                    proof {
                        assert(false);
                    }
                }
            }
            *length = *length - 1;
            proof {
                let remnew = *length as int;
                assert(entries@ == pre.update(index as int, Entry::Available));
                assert forall|i: int| 0 <= i < ec implies entry_wf(
                    #[trigger] entries@[i],
                    lv,
                    ecn,
                ) by {
                    if i != index as int {
                        assert(entries@[i] == pre[i]);
                    }
                }
                lemma_present_frames_concat(
                    orig,
                    lv,
                    ecn,
                    start_page as nat,
                    walked as nat,
                    1,
                );
                assert(entries_page(orig, lv, ecn, pos as nat) == crate::table::leaf_state(
                    orig[pos],
                ));
                assert(present_frames(orig, lv, ecn, (pos + 1) as nat, 0) == Seq::<
                    usize,
                >::empty());
                assert(freed@ =~= freed0 + present_frames(
                    orig,
                    lv,
                    ecn,
                    start_page as nat,
                    (len0 - remnew) as nat,
                ));
                assert forall|p: nat|
                    start_page <= p < start_page as int + (len0 - remnew) implies #[trigger] entries_page(
                    entries@,
                    lv,
                    ecn,
                    p,
                ) is Available by {
                    lemma_div_by_one(p as int, per as int);
                    if p != pos as nat {
                        assert(entries@[p as int] == pre[p as int]);
                        assert(entries_page(pre, lv, ecn, p) is Available);
                        assert(entries_page(entries@, lv, ecn, p) == entries_page(pre, lv, ecn, p));
                    }
                }
                assert forall|p: nat|
                    p < total && !(start_page <= p < start_page as int + (len0 - remnew)) implies
                    entries_page(entries@, lv, ecn, p) == entries_page(orig, lv, ecn, p) by {
                    lemma_div_by_one(p as int, per as int);
                    assert(entries@[p as int] == pre[p as int]);
                    assert(entries_page(entries@, lv, ecn, p) == entries_page(pre, lv, ecn, p));
                }
                assert((index as int + 1) * per == index as int + 1);
                assert(len0 - remnew == walked_pages(
                    len0,
                    per as int,
                    start_page as int,
                    index as int + 1,
                ));
            }
        } else {
            let child_per = per / ec;
            proof {
                lemma_pages_per_entry_unfold(ecn, lv);
                lemma_pages_per_entry_pos(ecn, (lv - 1) as nat);
                vstd::arithmetic::mul::lemma_mul_is_commutative(
                    ec as int,
                    pages_per_entry(ecn, (lv - 1) as nat) as int,
                );
                lemma_fundamental_div_mod_converse(
                    per as int,
                    ec as int,
                    pages_per_entry(ecn, (lv - 1) as nat) as int,
                    0,
                );
                assert(child_per == pages_per_entry(ecn, (lv - 1) as nat));
            }
            let whole_guard = matches!(&entries[index], Entry::Guarded) && *length >= per
                && child_start == 0;
            if whole_guard {
                entries[index] = Entry::Available;
                *length = *length - per;
                proof {
                    let remnew = *length as int;
                    assert(entries@ == pre.update(index as int, Entry::Available));
                    assert(pos == index as int * per);
                    assert forall|i: int| 0 <= i < ec implies entry_wf(
                        #[trigger] entries@[i],
                        lv,
                        ecn,
                    ) by {
                        if i != index as int {
                            assert(entries@[i] == pre[i]);
                        }
                    }
                    lemma_present_frames_concat(
                        orig,
                        lv,
                        ecn,
                        start_page as nat,
                        walked as nat,
                        per as nat,
                    );
                    assert forall|i: nat| i < per as nat implies !((#[trigger] entries_page(
                        orig,
                        lv,
                        ecn,
                        (pos + i) as nat,
                    )) is Present) by {
                        lemma_page_split(pos + i, per as int, index as int, i as int);
                    }
                    lemma_present_frames_none(orig, lv, ecn, pos as nat, per as nat);
                    assert(freed@ == freed0 + present_frames(
                        orig,
                        lv,
                        ecn,
                        start_page as nat,
                        (len0 - remnew) as nat,
                    ));
                    assert forall|p: nat|
                        start_page <= p < start_page as int + (len0 - remnew) implies #[trigger] entries_page(
                        entries@,
                        lv,
                        ecn,
                        p,
                    ) is Available by {
                        let pi = p as int / per as int;
                        lemma_page_index_bound(p as int, per as int, ec as int);
                        if p < pos {
                            assert(pi != index as int);
                            assert(entries@[pi] == pre[pi]);
                            assert(entries_page(pre, lv, ecn, p) is Available);
                            assert(entries_page(entries@, lv, ecn, p) == entries_page(
                                pre,
                                lv,
                                ecn,
                                p,
                            ));
                        } else {
                            lemma_page_split(p as int, per as int, index as int, p - pos);
                        }
                    }
                    assert forall|p: nat|
                        p < total && !(start_page <= p < start_page as int + (len0 - remnew))
                        implies #[trigger] entries_page(entries@, lv, ecn, p) == entries_page(
                        orig,
                        lv,
                        ecn,
                        p,
                    ) by {
                        let pi = p as int / per as int;
                        lemma_page_index_bound(p as int, per as int, ec as int);
                        assert(pi != index as int);
                        assert(entries@[pi] == pre[pi]);
                    }
                    assert((index as int + 1) * per == index as int * per + per)
                        by (nonlinear_arith);
                    assert(len0 - remnew == walked_pages(
                        len0,
                        per as int,
                        start_page as int,
                        index as int + 1,
                    ));
                }
            } else {
                let mut taken = Entry::Available;
                core::mem::swap(&mut entries[index], &mut taken);
                let mut child: Box<Table> = match taken {
                    Entry::Child(c) => c,
                    Entry::Guarded => {
                        let mut fresh = Table::new_zeroed(level - 1, ec);
                        fresh.guard_all_entries::<NoFlush>();
                        Box::new(fresh)
                    }
                    _ => vstd::pervasive::unreached(),
                };
                let ghost child_pre = child.entries@;
                let ghost was_guard = pre[index as int] is Guarded;
                proof {
                    assert(entries@ == pre.update(index as int, Entry::Available));
                    assert(child.level == level - 1);
                    assert(child.entries@.len() == ec);
                    assert forall|i: int| 0 <= i < ec implies entry_wf(
                        #[trigger] child.entries@[i],
                        (lv - 1) as nat,
                        ecn,
                    ) by {
                        if was_guard {
                            assert(child.entries@[i] is Guarded);
                        }
                    }
                    assert forall|q: int| 0 <= q < per implies #[trigger] entries_page(
                        pre,
                        lv,
                        ecn,
                        (index as int * per + q) as nat,
                    ) == entries_page(child_pre, (lv - 1) as nat, ecn, q as nat) by {
                        lemma_page_split(index as int * per + q, per as int, index as int, q);
                        if was_guard {
                            lemma_page_index_bound(q, child_per as int, ec as int);
                            assert(child_pre[q / child_per as int] is Guarded);
                            assert(entries_page(child_pre, (lv - 1) as nat, ecn, q as nat)
                                is Guarded);
                        }
                    }
                    assert forall|q: nat|
                        child_start <= q < child_start as int + span_to_walk(
                            rempre,
                            per as int,
                            child_start as int,
                        ) implies !((#[trigger] entries_page(child_pre, (lv - 1) as nat, ecn, q))
                        is Available) by {
                        let p = index as int * per + q;
                        assert(p - start_page == walked + (q - child_start));
                        assert(start_page <= p < start_page as int + span_to_walk(
                            len0,
                            total,
                            start_page as int,
                        ));
                        assert(!(entries_page(orig, lv, ecn, p as nat) is Available));
                        assert(entries_page(pre, lv, ecn, p as nat) == entries_page(
                            orig,
                            lv,
                            ecn,
                            p as nat,
                        ));
                    }
                }
                rec_unmap(&mut child.entries, level - 1, child_per, ec, child_start, length, freed);
                let ghost child_fin = child.entries@;
                let ghost remnew = *length as int;
                let ghost cc = rempre - remnew;
                entries[index] = Entry::Child(child);
                proof {
                    assert(entries@[index as int] matches Entry::Child(c) && c.entries@ == child_fin
                        && c.level == level - 1);
                    assert(cc == span_to_walk(rempre, per as int, child_start as int));
                    assert forall|i: int| 0 <= i < ec implies entry_wf(
                        #[trigger] entries@[i],
                        lv,
                        ecn,
                    ) by {
                        if i != index as int {
                            assert(entries@[i] == pre[i]);
                        }
                    }
                    assert forall|q: int| 0 <= q < per implies #[trigger] entries_page(
                        entries@,
                        lv,
                        ecn,
                        (index as int * per + q) as nat,
                    ) == entries_page(child_fin, (lv - 1) as nat, ecn, q as nat) by {
                        lemma_page_split(index as int * per + q, per as int, index as int, q);
                    }
                    // The frames the child handed out are the frames of the
                    // pages just cleared.
                    assert forall|i: nat| i < cc as nat implies #[trigger] entries_page(
                        child_pre,
                        (lv - 1) as nat,
                        ecn,
                        (child_start + i) as nat,
                    ) == entries_page(orig, lv, ecn, (pos + i) as nat) by {
                        let q = child_start as int + i;
                        assert(pos + i == index as int * per + q);
                        assert(entries_page(pre, lv, ecn, (index as int * per + q) as nat)
                            == entries_page(child_pre, (lv - 1) as nat, ecn, q as nat));
                        assert((index as int + 1) * per <= ec as int * per) by (nonlinear_arith)
                            requires
                                index < ec,
                                per >= 1,
                        ;
                        assert(pos + i < total);
                        assert(entries_page(pre, lv, ecn, (pos + i) as nat) == entries_page(
                            orig,
                            lv,
                            ecn,
                            (pos + i) as nat,
                        ));
                    }
                    lemma_present_frames_congruent(
                        child_pre,
                        (lv - 1) as nat,
                        child_start as nat,
                        orig,
                        lv,
                        pos as nat,
                        ecn,
                        cc as nat,
                    );
                    lemma_present_frames_concat(
                        orig,
                        lv,
                        ecn,
                        start_page as nat,
                        walked as nat,
                        cc as nat,
                    );
                    assert(freed@ == freed0 + present_frames(
                        orig,
                        lv,
                        ecn,
                        start_page as nat,
                        (len0 - remnew) as nat,
                    ));
                    assert forall|p: nat|
                        start_page <= p < start_page as int + (len0 - remnew) implies #[trigger] entries_page(
                        entries@,
                        lv,
                        ecn,
                        p,
                    ) is Available by {
                        let pi = p as int / per as int;
                        lemma_page_index_bound(p as int, per as int, ec as int);
                        if p < pos {
                            if pi == index as int {
                                let q = p as int % per as int;
                                assert(q < child_start);
                                assert(p == index as int * per + q);
                                assert(entries_page(child_fin, (lv - 1) as nat, ecn, q as nat)
                                    == entries_page(child_pre, (lv - 1) as nat, ecn, q as nat));
                                assert(entries_page(pre, lv, ecn, (index as int * per + q) as nat)
                                    == entries_page(child_pre, (lv - 1) as nat, ecn, q as nat));
                                assert(entries_page(entries@, lv, ecn, (index as int * per + q) as nat)
                                    == entries_page(child_fin, (lv - 1) as nat, ecn, q as nat));
                                assert(entries_page(entries@, lv, ecn, p) == entries_page(
                                    pre,
                                    lv,
                                    ecn,
                                    p,
                                ));
                            } else {
                                assert(entries@[pi] == pre[pi]);
                                assert(entries_page(entries@, lv, ecn, p) == entries_page(
                                    pre,
                                    lv,
                                    ecn,
                                    p,
                                ));
                            }
                        } else {
                            let q = p - index as int * per;
                            assert(child_start <= q < child_start + cc);
                            assert(p == index as int * per + q);
                            assert(entries_page(entries@, lv, ecn, (index as int * per + q) as nat)
                                == entries_page(child_fin, (lv - 1) as nat, ecn, q as nat));
                            assert(entries_page(child_fin, (lv - 1) as nat, ecn, q as nat)
                                is Available);
                        }
                    }
                    assert forall|p: nat|
                        p < total && !(start_page <= p < start_page as int + (len0 - remnew))
                        implies #[trigger] entries_page(entries@, lv, ecn, p) == entries_page(
                        orig,
                        lv,
                        ecn,
                        p,
                    ) by {
                        let pi = p as int / per as int;
                        lemma_page_index_bound(p as int, per as int, ec as int);
                        if pi == index as int {
                            let q = p as int % per as int;
                            assert(q < child_start || q >= child_start + cc);
                            assert(p == index as int * per + q);
                            assert(entries_page(child_fin, (lv - 1) as nat, ecn, q as nat)
                                == entries_page(child_pre, (lv - 1) as nat, ecn, q as nat));
                            assert(entries_page(pre, lv, ecn, (index as int * per + q) as nat)
                                == entries_page(child_pre, (lv - 1) as nat, ecn, q as nat));
                            assert(entries_page(entries@, lv, ecn, (index as int * per + q) as nat)
                                == entries_page(child_fin, (lv - 1) as nat, ecn, q as nat));
                            assert(entries_page(entries@, lv, ecn, p) == entries_page(
                                pre,
                                lv,
                                ecn,
                                p,
                            ));
                            assert(p < start_page || p >= start_page as int + walked);
                        } else {
                            assert(entries@[pi] == pre[pi]);
                            assert(entries_page(entries@, lv, ecn, p) == entries_page(
                                pre,
                                lv,
                                ecn,
                                p,
                            ));
                        }
                    }
                    assert((index as int + 1) * per == index as int * per + per)
                        by (nonlinear_arith);
                    assert(len0 - remnew == walked_pages(
                        len0,
                        per as int,
                        start_page as int,
                        index as int + 1,
                    ));
                }
            }
        }
        child_start = 0;
        index = index + 1;
    }
    proof {
        assert(len0 - *length as int == walked_pages(
            len0,
            per as int,
            start_page as int,
            ec as int,
        ));
        assert(ec as int * per - start_page >= 0);
    }
}

/// What one entry reports when visited: its state with child tables
/// ignored (the walk descends into those instead of reporting them).
pub open spec fn record_state(e: Entry) -> PageState<usize> {
    match e {
        Entry::Available => PageState::Available,
        Entry::Guarded => PageState::Guarded,
        Entry::Page(addr, _) => PageState::Present(addr),
        Entry::Child(_) => PageState::Available,
    }
}

/// The reports a read-only walk makes, and the page budget it has left,
/// when it visits `entries[index..]` of a level-`level` table, entering the
/// first entry at page offset `qoff`, with `rem` pages of budget. Each
/// visited entry that is not a child table yields one report of its state
/// and its span in bytes, and costs its span in pages (saturating); a child
/// table is walked instead of reported.
pub open spec fn walk_records(
    entries: Seq<Entry>,
    level: nat,
    ec: nat,
    ps: nat,
    index: int,
    qoff: nat,
    rem: nat,
) -> (Seq<(PageState<usize>, int)>, nat)
    decreases level, ec - index,
{
    if index < 0 || index >= ec || rem == 0 {
        (Seq::empty(), rem)
    } else {
        let per = pages_per_entry(ec, level);
        let cper = pages_per_entry(ec, (level - 1) as nat);
        let rem_flat: nat = if rem >= per {
            (rem - per) as nat
        } else {
            0
        };
        let first: (Seq<(PageState<usize>, int)>, nat) = match entries[index] {
            Entry::Child(t) => {
                if level > 0 {
                    walk_records(
                        t.entries@,
                        (level - 1) as nat,
                        ec,
                        ps,
                        qoff as int / cper as int,
                        (qoff as int % cper as int) as nat,
                        rem,
                    )
                } else {
                    (seq![(record_state(entries[index]), per * ps as int)], rem_flat)
                }
            },
            _ => (seq![(record_state(entries[index]), per * ps as int)], rem_flat),
        };
        let rest = walk_records(entries, level, ec, ps, index + 1, 0, first.1);
        (first.0 + rest.0, rest.1)
    }
}

/// Recursive worker of `for_every_entry`: reports, in address order, every
/// entry the span `[start_page, start_page + length)` touches, descending
/// into child tables.
#[verifier::rlimit(60)]
#[verifier::spinoff_prover]
fn rec_iter(
    entries: &Vec<Entry>,
    level: usize,
    per: usize,
    ec: usize,
    ps: usize,
    start_page: usize,
    length: &mut usize,
    out: &mut Vec<(PageState<usize>, usize)>,
)
    requires
        ec >= 2,
        ps >= 1,
        per == pages_per_entry(ec as nat, level as nat),
        ps * (ec * per) <= usize::MAX,
        entries@.len() == ec,
        forall|i: int| 0 <= i < ec ==> entry_wf(#[trigger] entries@[i], level as nat, ec as nat),
        start_page < ec * per,
    ensures
        ({
            let walk = walk_records(
                entries@,
                level as nat,
                ec as nat,
                ps as nat,
                start_page as int / per as int,
                (start_page as int % per as int) as nat,
                *old(length) as nat,
            );
            &&& final(out)@.map_values(|r: (PageState<usize>, usize)| (r.0, r.1 as int)) == old(out)@.map_values(|r: (PageState<usize>, usize)| (r.0, r.1 as int)) + walk.0
            &&& *final(length) == walk.1
        }),
    decreases level,
{
    let ghost lv = level as nat;
    let ghost ecn = ec as nat;
    let ghost psn = ps as nat;
    let ghost out0 = out@.map_values(|r: (PageState<usize>, usize)| (r.0, r.1 as int));
    let ghost rem0 = *length as nat;
    let ghost total = ec as int * per as int;

    proof {
        lemma_pages_per_entry_pos(ecn, lv);
        lemma_page_index_bound(start_page as int, per as int, ec as int);
        assert(ec as int * per <= ps as int * (ec as int * per)) by (nonlinear_arith)
            requires
                ps >= 1,
                ec as int * per >= 0,
        ;
        assert(per * ps <= ps as int * (ec as int * per)) by (nonlinear_arith)
            requires
                ps >= 1,
                per >= 1,
                ec >= 2,
        ;
    }
    let entry_offset = start_page / per;
    let mut qoff = start_page % per;
    let mut index = entry_offset;
    let span_bytes = per * ps;

    while index < ec
        invariant
            ec >= 2,
            ps >= 1,
            per >= 1,
            lv == level as nat,
            ecn == ec as nat,
            psn == ps as nat,
            per == pages_per_entry(ecn, lv),
            total == ec as int * per as int,
            ps * (ec * per) <= usize::MAX,
            rem0 == *old(length) as nat,
            out0 == old(out)@.map_values(|r: (PageState<usize>, usize)| (r.0, r.1 as int)),
            span_bytes == per * ps,
            entries@.len() == ec,
            forall|i: int| 0 <= i < ec ==> entry_wf(#[trigger] entries@[i], lv, ecn),
            entry_offset == start_page as int / per as int,
            entry_offset <= index <= ec,
            index == entry_offset ==> qoff == start_page as int % per as int,
            index > entry_offset ==> qoff == 0,
            qoff < per,
            ({
                let now = walk_records(
                    entries@,
                    lv,
                    ecn,
                    psn,
                    index as int,
                    qoff as nat,
                    *length as nat,
                );
                let whole = walk_records(
                    entries@,
                    lv,
                    ecn,
                    psn,
                    entry_offset as int,
                    (start_page as int % per as int) as nat,
                    rem0,
                );
                &&& out0 + whole.0 == out@.map_values(
                    |r: (PageState<usize>, usize)| (r.0, r.1 as int),
                ) + now.0
                &&& whole.1 == now.1
            }),
        decreases ec - index,
    {
        if *length == 0 {
            proof {
                let now = walk_records(entries@, lv, ecn, psn, index as int, qoff as nat, 0);
                assert(now.0 =~= Seq::<(PageState<usize>, int)>::empty());
                assert(out@.map_values(|r: (PageState<usize>, usize)| (r.0, r.1 as int)) + now.0
                    =~= out@.map_values(|r: (PageState<usize>, usize)| (r.0, r.1 as int)));
            }
            return ;
        }
        let ghost pre_out = out@.map_values(|r: (PageState<usize>, usize)| (r.0, r.1 as int));
        let ghost rem_now = *length as nat;
        let ghost now = walk_records(entries@, lv, ecn, psn, index as int, qoff as nat, rem_now);

        let is_child = level > 0 && matches!(&entries[index], Entry::Child(_));
        if is_child {
            let child_per = per / ec;
            proof {
                lemma_pages_per_entry_unfold(ecn, lv);
                lemma_pages_per_entry_pos(ecn, (lv - 1) as nat);
                vstd::arithmetic::mul::lemma_mul_is_commutative(
                    ec as int,
                    pages_per_entry(ecn, (lv - 1) as nat) as int,
                );
                lemma_fundamental_div_mod_converse(
                    per as int,
                    ec as int,
                    pages_per_entry(ecn, (lv - 1) as nat) as int,
                    0,
                );
                assert(child_per == pages_per_entry(ecn, (lv - 1) as nat));
                assert(entry_wf(entries@[index as int], lv, ecn));
                lemma_page_index_bound(qoff as int, child_per as int, ec as int);
                assert(ps as int * (ec as int * child_per) <= ps as int * (ec as int * per))
                    by (nonlinear_arith)
                    requires
                        ps >= 1,
                        ec >= 2,
                        child_per >= 1,
                        per == ec as int * child_per,
                ;
            }
            let child: &Table = match &entries[index] {
                Entry::Child(c) => c,
                _ => vstd::pervasive::unreached(),
            };
            rec_iter(&child.entries, level - 1, child_per, ec, ps, qoff, length, out);
            proof {
                let after = walk_records(
                    entries@,
                    lv,
                    ecn,
                    psn,
                    index as int + 1,
                    0,
                    *length as nat,
                );
                let head = walk_records(
                    child.entries@,
                    (lv - 1) as nat,
                    ecn,
                    psn,
                    qoff as int / child_per as int,
                    (qoff as int % child_per as int) as nat,
                    rem_now,
                );
                assert(now.0 == head.0 + after.0);
                assert(now.1 == after.1);
                assert(out0 + walk_records(
                    entries@,
                    lv,
                    ecn,
                    psn,
                    entry_offset as int,
                    (start_page as int % per as int) as nat,
                    rem0,
                ).0 =~= out@.map_values(|r: (PageState<usize>, usize)| (r.0, r.1 as int))
                    + after.0);
            }
        } else {
            let state: PageState<usize> = match &entries[index] {
                Entry::Available => PageState::Available,
                Entry::Guarded => PageState::Guarded,
                Entry::Page(addr, _) => PageState::Present(*addr),
                Entry::Child(_) => PageState::Available,
            };
            out.push((state, span_bytes));
            if *length >= per {
                *length = *length - per;
            } else {
                *length = 0;
            }
            proof {
                assert(entry_wf(entries@[index as int], lv, ecn));
                if level == 0 {
                    assert(!(entries@[index as int] is Child));
                }
                assert(state == record_state(entries@[index as int]));
                let after = walk_records(
                    entries@,
                    lv,
                    ecn,
                    psn,
                    index as int + 1,
                    0,
                    *length as nat,
                );
                assert(now.0 == seq![(record_state(entries@[index as int]), per * ps as int)]
                    + after.0);
                assert(now.1 == after.1);
                assert(out@.map_values(|r: (PageState<usize>, usize)| (r.0, r.1 as int)) =~= pre_out
                    + seq![(record_state(entries@[index as int]), per * ps as int)]);
                assert(out0 + walk_records(
                    entries@,
                    lv,
                    ecn,
                    psn,
                    entry_offset as int,
                    (start_page as int % per as int) as nat,
                    rem0,
                ).0 =~= out@.map_values(|r: (PageState<usize>, usize)| (r.0, r.1 as int))
                    + after.0);
            }
        }
        qoff = 0;
        index = index + 1;
    }
}

/// An aligned candidate hole start `x` is blocked when some page of
/// `[x, x + desired)` is not available in the tree rooted at `root`.
pub open spec fn search_blocked(root: Seq<Entry>, rlv: nat, ec: nat, x: int, desired: int) -> bool {
    exists|p: int|
        x <= p < x + desired && !((#[trigger] entries_page(root, rlv, ec, p as nat)) is Available)
}

/// Recursive worker of `find_available_virtual_space_aligned`.
///
/// Grows the current candidate hole `[*hole_start, *hole_start + *hole_len)`
/// across the entries of one table, whose span covers global pages
/// `[table_base, table_base + ec * per)`. An available entry extends the
/// hole to the entry's end; a guard at any level or a mapped leaf kills it,
/// and the next candidate starts `alignp` pages later; a used parent entry
/// is searched inside, since it may hide available sub-regions. The walk
/// stops as soon as the hole is long enough, no candidate can end before
/// `end_page` any more, or the position leaves this table's span.
#[verifier::rlimit(100)]
#[verifier::spinoff_prover]
fn rec_find(
    entries: &Vec<Entry>,
    level: usize,
    per: usize,
    ec: usize,
    table_base: usize,
    hole_start: &mut usize,
    hole_len: &mut usize,
    desired: usize,
    end_page: usize,
    alignp: usize,
    first_aligned: usize,
    Ghost(root): Ghost<Seq<Entry>>,
    Ghost(rlv): Ghost<nat>,
)
    requires
        ec >= 2,
        per == pages_per_entry(ec as nat, level as nat),
        ec * per <= usize::MAX,
        entries@.len() == ec,
        forall|i: int| 0 <= i < ec ==> entry_wf(#[trigger] entries@[i], level as nat, ec as nat),
        table_base + ec * per <= ec as int * pages_per_entry(ec as nat, rlv),
        ec as int * pages_per_entry(ec as nat, rlv) <= usize::MAX,
        forall|q: int|
            0 <= q < ec * per ==> #[trigger] entries_page(root, rlv, ec as nat, (table_base + q)
                as nat) == entries_page(entries@, level as nat, ec as nat, q as nat),
        desired >= 1,
        alignp >= 1,
        first_aligned as int % alignp as int == 0,
        desired <= end_page,
        end_page <= ec as int * pages_per_entry(ec as nat, rlv),
        *old(hole_start) as int % alignp as int == 0,
        *old(hole_start) >= first_aligned,
        *old(hole_len) < desired,
        *old(hole_start) + desired <= end_page,
        table_base <= *old(hole_start) + *old(hole_len) < table_base + ec * per,
        forall|p: int|
            *old(hole_start) <= p < *old(hole_start) + *old(hole_len) ==> (#[trigger] entries_page(
                root,
                rlv,
                ec as nat,
                p as nat,
            )) is Available,
        forall|x: int|
            x % alignp as int == 0 && first_aligned <= x < *old(hole_start) && x + desired
                <= end_page ==> search_blocked(root, rlv, ec as nat, x, desired as int),
    ensures
        (*final(hole_start) as int % alignp as int == 0 && *final(hole_start) >= first_aligned) || (
        *final(hole_start) == end_page && *final(hole_len) == 0),
        *final(hole_len) > 0 ==> *final(hole_start) + desired <= end_page,
        *final(hole_start) <= end_page,
        *final(hole_start) + *final(hole_len) <= ec as int * pages_per_entry(ec as nat, rlv),
        forall|p: int|
            *final(hole_start) <= p < *final(hole_start) + *final(hole_len) ==> (#[trigger] entries_page(
                root,
                rlv,
                ec as nat,
                p as nat,
            )) is Available,
        forall|x: int|
            x % alignp as int == 0 && first_aligned <= x < *final(hole_start) && x + desired
                <= end_page ==> search_blocked(root, rlv, ec as nat, x, desired as int),
        *final(hole_start) > *old(hole_start) || (*final(hole_start) == *old(hole_start) && *final(hole_start) + *final(hole_len) > *old(hole_start) + *old(hole_len)),
        *final(hole_len) >= desired || *final(hole_start) + desired > end_page || *final(hole_start) + *final(hole_len) < table_base || *final(hole_start) + *final(hole_len) >= table_base
            + ec * per,
    decreases level,
{
    let ghost lv = level as nat;
    let ghost ecn = ec as nat;
    let ghost total = ec as int * pages_per_entry(ecn, rlv);
    let ghost hs0 = *hole_start as int;
    let ghost pos0 = *hole_start as int + *hole_len as int;
    let ghost mut progressed: bool = false;

    proof {
        lemma_pages_per_entry_pos(ecn, lv);
    }
    let table_span = ec * per;

    loop
        invariant
            ec >= 2,
            per >= 1,
            lv == level as nat,
            ecn == ec as nat,
            per == pages_per_entry(ecn, lv),
            total == ec as int * pages_per_entry(ecn, rlv),
            total <= usize::MAX,
            table_span == ec * per,
            table_base + table_span <= total,
            entries@.len() == ec,
            forall|i: int| 0 <= i < ec ==> entry_wf(#[trigger] entries@[i], lv, ecn),
            forall|q: int|
                0 <= q < ec * per ==> #[trigger] entries_page(root, rlv, ecn, (table_base + q)
                    as nat) == entries_page(entries@, lv, ecn, q as nat),
            desired >= 1,
            alignp >= 1,
            first_aligned as int % alignp as int == 0,
            desired <= end_page,
            end_page <= total,
            hs0 == *old(hole_start) as int,
            pos0 == *old(hole_start) as int + *old(hole_len) as int,
            (*hole_start as int % alignp as int == 0 && *hole_start >= first_aligned) || (
            *hole_start == end_page && *hole_len == 0),
            *hole_len > 0 ==> *hole_start + desired <= end_page,
            *hole_start <= end_page,
            *hole_start + *hole_len <= total,
            forall|p: int|
                *hole_start <= p < *hole_start + *hole_len ==> (#[trigger] entries_page(
                    root,
                    rlv,
                    ecn,
                    p as nat,
                )) is Available,
            forall|x: int|
                x % alignp as int == 0 && first_aligned <= x < *hole_start && x + desired
                    <= end_page ==> search_blocked(root, rlv, ecn, x, desired as int),
            progressed ==> *hole_start as int > hs0 || (*hole_start as int == hs0 && *hole_start
                + *hole_len > pos0),
            !progressed ==> *hole_start as int == hs0 && *hole_start as int + *hole_len as int
                == pos0,
        ensures
            *hole_len >= desired || *hole_start + desired > end_page || *hole_start + *hole_len
                < table_base || *hole_start + *hole_len >= table_base + ec * per,
        decreases end_page as int - *hole_start as int, total - (*hole_start as int
            + *hole_len as int),
    {
        let pos = *hole_start + *hole_len;
        if pos < table_base {
            break ;
        }
        let off = pos - table_base;
        if off >= table_span {
            break ;
        }
        let next = off / per;
        if *hole_len >= desired {
            break ;
        }
        if *hole_start > end_page - desired {
            break ;
        }
        proof {
            lemma_page_index_bound(off as int, per as int, ec as int);
        }
        let ghost hs_pre = *hole_start as int;
        let ghost pos_pre = pos as int;

        let kind: u8 = match &entries[next] {
            Entry::Available => 0u8,
            Entry::Guarded => 1u8,
            Entry::Page(_, _) => 2u8,
            Entry::Child(_) => 3u8,
        };
        proof {
            assert(entry_wf(entries@[next as int], lv, ecn));
        }
        if kind == 0 {
            // The hole keeps growing: every page of this entry is
            // available.
            proof {
                assert((next as int + 1) * per == next as int * per + per) by (nonlinear_arith);
                assert((next as int + 1) * per <= ec as int * per) by (nonlinear_arith)
                    requires
                        next < ec,
                        per >= 1,
                ;
            }
            let boundary = table_base + (next + 1) * per;
            proof {
                assert forall|p: int| *hole_start <= p < boundary implies #[trigger] entries_page(
                    root,
                    rlv,
                    ecn,
                    p as nat,
                ) is Available by {
                    if p >= pos_pre {
                        let q = p - table_base;
                        assert(next as int * per <= q < (next as int + 1) * per);
                        lemma_page_split(q, per as int, next as int, q - next as int * per);
                        assert(entries_page(entries@, lv, ecn, q as nat) is Available);
                        assert(entries_page(root, rlv, ecn, (table_base + q) as nat)
                            == entries_page(entries@, lv, ecn, q as nat));
                    }
                }
                assert(boundary > pos_pre);
            }
            *hole_len = boundary - *hole_start;
            proof {
                progressed = true;
            }
        } else if kind == 1 || (kind == 2 && level == 0) {
            // An obstruction: a guard at any level, or a mapped leaf page.
            // The page at the current position is not available, so this
            // candidate dies; the next one starts `alignp` pages later.
            proof {
                let q = off as int;
                assert(q / per as int == next as int);
                assert(!(entries_page(entries@, lv, ecn, q as nat) is Available));
                assert(entries_page(root, rlv, ecn, (table_base + q) as nat) == entries_page(
                    entries@,
                    lv,
                    ecn,
                    q as nat,
                ));
                assert(pos_pre == table_base + q);
                assert(!(entries_page(root, rlv, ecn, pos_pre as nat) is Available));
                assert forall|x: int|
                    x % alignp as int == 0 && first_aligned <= x <= hs_pre && x + desired
                        <= end_page implies search_blocked(root, rlv, ecn, x, desired as int) by {
                    if x == hs_pre {
                        assert(hs_pre <= pos_pre < hs_pre + desired);
                        assert(x <= pos_pre < x + desired && !(entries_page(
                            root,
                            rlv,
                            ecn,
                            pos_pre as nat,
                        ) is Available));
                    }
                }
            }
            if alignp <= (end_page - desired) - *hole_start {
                *hole_len = 0;
                *hole_start = *hole_start + alignp;
                proof {
                    progressed = true;
                    assert(*hole_start as int % alignp as int == 0) by {
                        assert((hs_pre + alignp) % alignp as int == hs_pre % alignp as int) by {
                            vstd::arithmetic::div_mod::lemma_mod_add_multiples_vanish(
                                hs_pre,
                                alignp as int,
                            );
                        }
                    }
                    assert forall|x: int|
                        x % alignp as int == 0 && first_aligned <= x < *hole_start && x + desired
                            <= end_page implies search_blocked(
                        root,
                        rlv,
                        ecn,
                        x,
                        desired as int,
                    ) by {
                        if x > hs_pre {
                            assert(x % alignp as int == hs_pre % alignp as int);
                            vstd::arithmetic::div_mod::lemma_mod_equivalence(
                                x,
                                hs_pre,
                                alignp as int,
                            );
                            assert((x - hs_pre) % alignp as int == 0);
                            assert(0 < x - hs_pre < alignp);
                            vstd::arithmetic::div_mod::lemma_small_mod(
                                (x - hs_pre) as nat,
                                alignp as nat,
                            );
                            assert(false);
                        }
                    }
                }
            } else {
                // No further aligned candidate can fit before `end_page`:
                // the search is over.
                proof {
                    assert forall|x: int|
                        x % alignp as int == 0 && first_aligned <= x < end_page && x + desired
                            <= end_page implies search_blocked(
                        root,
                        rlv,
                        ecn,
                        x,
                        desired as int,
                    ) by {
                        if x > hs_pre {
                            vstd::arithmetic::div_mod::lemma_mod_equivalence(
                                x,
                                hs_pre,
                                alignp as int,
                            );
                            assert((x - hs_pre) % alignp as int == 0);
                            assert(0 < x - hs_pre < alignp);
                            vstd::arithmetic::div_mod::lemma_small_mod(
                                (x - hs_pre) as nat,
                                alignp as nat,
                            );
                            assert(false);
                        }
                    }
                }
                *hole_len = 0;
                *hole_start = end_page;
                proof {
                    progressed = true;
                }
            }
        } else if kind == 3 {
            // A used parent entry is not itself an obstruction: it may
            // contain available sub-regions, so the search descends.
            proof {
                assert(level >= 1);
            }
            let child_per = per / ec;
            proof {
                lemma_pages_per_entry_unfold(ecn, lv);
                lemma_pages_per_entry_pos(ecn, (lv - 1) as nat);
                vstd::arithmetic::mul::lemma_mul_is_commutative(
                    ec as int,
                    pages_per_entry(ecn, (lv - 1) as nat) as int,
                );
                lemma_fundamental_div_mod_converse(
                    per as int,
                    ec as int,
                    pages_per_entry(ecn, (lv - 1) as nat) as int,
                    0,
                );
                assert(child_per == pages_per_entry(ecn, (lv - 1) as nat));
            }
            let child: &Table = match &entries[next] {
                Entry::Child(c) => c,
                _ => vstd::pervasive::unreached(),
            };
            let child_base = table_base + next * per;
            proof {
                assert(next as int * per + per <= ec as int * per) by (nonlinear_arith)
                    requires
                        next < ec,
                        per >= 1,
                ;
                assert forall|q: int| 0 <= q < ec * child_per implies #[trigger] entries_page(
                    root,
                    rlv,
                    ecn,
                    (child_base + q) as nat,
                ) == entries_page(child.entries@, (lv - 1) as nat, ecn, q as nat) by {
                    lemma_page_split(
                        next as int * per + q,
                        per as int,
                        next as int,
                        q,
                    );
                    assert(entries_page(root, rlv, ecn, (table_base + (next as int * per + q))
                        as nat) == entries_page(entries@, lv, ecn, (next as int * per + q) as nat));
                }
                assert(child_base <= pos_pre < child_base + ec * child_per);
            }
            rec_find(
                &child.entries,
                level - 1,
                child_per,
                ec,
                child_base,
                hole_start,
                hole_len,
                desired,
                end_page,
                alignp,
                first_aligned,
                Ghost(root),
                Ghost(rlv),
            );
            proof {
                progressed = true;
            }
        } else {
            proof {
                assert(false);
            }
        }
    }
    proof {
        if !progressed {
            assert(pos0 >= table_base);
            assert(pos0 < table_base + ec * per);
            assert(false);
        }
    }
}

/// Structural equivalence of two entries interpreted at the same level:
/// the same states, frames and flags everywhere, child tables compared
/// slot by slot.
pub open spec fn entry_equiv(a: Entry, b: Entry, level: nat, ec: nat) -> bool
    decreases level,
{
    match (a, b) {
        (Entry::Available, Entry::Available) => true,
        (Entry::Guarded, Entry::Guarded) => true,
        (Entry::Page(x, f), Entry::Page(y, g)) => x == y && f == g,
        (Entry::Child(ta), Entry::Child(tb)) => level >= 1 && ta.level == tb.level
            && ta.entries@.len() == tb.entries@.len() && (forall|i: int|
            0 <= i < ta.entries@.len() ==> entry_equiv(
                #[trigger] ta.entries@[i],
                tb.entries@[i],
                (level - 1) as nat,
                ec,
            )),
        _ => false,
    }
}

/// Structurally equivalent entry arrays give every page the same state.
pub proof fn lemma_equiv_entries_page(
    ea: Seq<Entry>,
    eb: Seq<Entry>,
    level: nat,
    ec: nat,
    p: nat,
)
    requires
        ec >= 1,
        ea.len() == eb.len(),
        forall|i: int| 0 <= i < ea.len() ==> entry_equiv(#[trigger] ea[i], eb[i], level, ec),
        forall|i: int| 0 <= i < eb.len() ==> entry_wf(#[trigger] eb[i], level, ec),
        p < ea.len() * pages_per_entry(ec, level),
    ensures
        entries_page(ea, level, ec, p) == entries_page(eb, level, ec, p),
    decreases level,
{
    lemma_pages_per_entry_pos(ec, level);
    let per = pages_per_entry(ec, level);
    lemma_page_index_bound(p as int, per as int, ea.len() as int);
    let pi = p as int / per as int;
    assert(entry_equiv(ea[pi], eb[pi], level, ec));
    assert(entry_wf(eb[pi], level, ec));
    if level > 0 {
        match (ea[pi], eb[pi]) {
            (Entry::Child(ta), Entry::Child(tb)) => {
                lemma_pages_per_entry_unfold(ec, level);
                assert(tb.entries@.len() == ec);
                assert(ta.entries@.len() == ec);
                assert(((p % per) as nat) < ta.entries@.len() * pages_per_entry(
                    ec,
                    (level - 1) as nat,
                ));
                lemma_equiv_entries_page(
                    ta.entries@,
                    tb.entries@,
                    (level - 1) as nat,
                    ec,
                    (p % per) as nat,
                );
            },
            _ => {},
        }
    }
}

/// A deep copy of one entry, subtree included, structurally equivalent to
/// what it copies.
fn clone_entry(e: &Entry, Ghost(level): Ghost<nat>, Ghost(ec): Ghost<nat>) -> (r: Entry)
    requires
        entry_wf(*e, level, ec),
    ensures
        entry_wf(r, level, ec),
        entry_equiv(r, *e, level, ec),
    decreases level,
{
    match e {
        Entry::Available => Entry::Available,
        Entry::Guarded => Entry::Guarded,
        Entry::Page(addr, flags) => Entry::Page(*addr, *flags),
        Entry::Child(t) => {
            let mut entries: Vec<Entry> = Vec::new();
            let n = t.entries.len();
            let mut i: usize = 0;
            while i < n
                invariant
                    level >= 1,
                    entry_wf(*e, level, ec),
                    *e matches Entry::Child(tt) && tt == t,
                    n == t.entries@.len(),
                    n == ec,
                    i <= n,
                    entries@.len() == i,
                    forall|j: int|
                        0 <= j < i ==> entry_wf(#[trigger] entries@[j], (level - 1) as nat, ec),
                    forall|j: int|
                        0 <= j < i ==> entry_equiv(
                            #[trigger] entries@[j],
                            t.entries@[j],
                            (level - 1) as nat,
                            ec,
                        ),
                decreases n - i,
            {
                let c = clone_entry(&t.entries[i], Ghost((level - 1) as nat), Ghost(ec));
                entries.push(c);
                i = i + 1;
            }
            Entry::Child(Box::new(Table { level: t.level, entries }))
        },
    }
}

impl InactiveHierarchy {
    /// Creates a hierarchy: allocates a top-level table of the given level
    /// and geometry, zeroed, and records the physical address of the frame
    /// backing it, through which the self-referential mapping of the
    /// hierarchy's own tables — and the hardware's installed-root register —
    /// identify it.
    pub fn new(page_size: usize, entry_count: usize, level: usize, top_paddr: usize) -> (r:
        InactiveHierarchy)
        requires
            entry_count >= 2,
            page_size >= 1,
            page_size as int * (entry_count as int * pages_per_entry(
                entry_count as nat,
                level as nat,
            )) <= usize::MAX,
        ensures
            r.wf(),
            r.page_size == page_size,
            r.entry_count == entry_count,
            r.top_paddr == top_paddr,
            r.top.level == level,
            forall|i: int| 0 <= i < entry_count ==> (#[trigger] r.top.entries@[i]) is Available,
            forall|p: nat| p < r.page_count() ==> (#[trigger] r.page_view(p)) is Available,
    {
        let top = Table::new_zeroed(level, entry_count);
        let r = InactiveHierarchy { page_size, entry_count, top_paddr, top };
        proof {
            r.lemma_geometry();
            assert forall|p: nat| p < r.page_count() implies (#[trigger] r.page_view(p))
                is Available by {
                lemma_all_available_view(
                    r.top.entries@,
                    r.top.level as nat,
                    r.entry_count as nat,
                    p,
                );
            }
        }
        r
    }

    /// Gets a read handle to the top level table.
    ///
    /// An active hierarchy would reach it through its self-referential
    /// mapping and an inactive one through a temporary mapping; an owned
    /// hierarchy simply lends it out, scoped exactly like the others.
    pub fn get_top_level_table(&self) -> (r: crate::table::SmartHierarchicalTable)
        ensures
            r.table == &self.top,
    {
        crate::table::SmartHierarchicalTable::new(&self.top)
    }

    /// Checks if this inactive hierarchy is actually the currently active
    /// one: its top-level table's frame is the one installed in the
    /// translation hardware. The caller reads the hardware's installed-root
    /// register and passes its value in.
    pub fn is_currently_active(&self, current_top_paddr: usize) -> (r: bool)
        ensures
            r == (self.top_paddr == current_top_paddr),
    {
        self.top_paddr == current_top_paddr
    }

    /// Copies the top-level entries that map the kernel's share of every
    /// address space from the active hierarchy into this one, so that both
    /// present an identical view of kernel-owned mappings. The kernel's
    /// share is the top-level index range the architecture reserves for it.
    pub fn copy_active_kernel_space(
        &mut self,
        active: &InactiveHierarchy,
        kernel_start_index: usize,
        kernel_entry_count: usize,
    )
        requires
            old(self).wf(),
            active.wf(),
            active.entry_count == old(self).entry_count,
            active.top.level == old(self).top.level,
            kernel_start_index + kernel_entry_count <= old(self).entry_count,
        ensures
            final(self).wf(),
            final(self).same_shape(*old(self)),
            forall|i: int|
                kernel_start_index <= i < kernel_start_index + kernel_entry_count ==> entry_equiv(
                    #[trigger] final(self).top.entries@[i],
                    active.top.entries@[i],
                    old(self).top.level as nat,
                    old(self).entry_count as nat,
                ),
            forall|i: int|
                0 <= i < old(self).entry_count && !(kernel_start_index <= i < kernel_start_index
                    + kernel_entry_count) ==> final(self).top.entries@[i] == old(self).top.entries@[i],
    {
        let mut i: usize = 0;
        while i < kernel_entry_count
            invariant
                old(self).wf(),
                active.wf(),
                active.entry_count == old(self).entry_count,
                active.top.level == old(self).top.level,
                kernel_start_index + kernel_entry_count <= old(self).entry_count,
                i <= kernel_entry_count,
                self.page_size == old(self).page_size,
                self.entry_count == old(self).entry_count,
                self.top_paddr == old(self).top_paddr,
                self.top.level == old(self).top.level,
                self.top.entries@.len() == old(self).top.entries@.len(),
                forall|j: int|
                    kernel_start_index <= j < kernel_start_index + i ==> entry_equiv(
                        #[trigger] self.top.entries@[j],
                        active.top.entries@[j],
                        old(self).top.level as nat,
                        old(self).entry_count as nat,
                    ),
                forall|j: int|
                    kernel_start_index <= j < kernel_start_index + i ==> entry_wf(
                        #[trigger] self.top.entries@[j],
                        old(self).top.level as nat,
                        old(self).entry_count as nat,
                    ),
                forall|j: int|
                    0 <= j < old(self).entry_count && !(kernel_start_index <= j
                        < kernel_start_index + i) ==> self.top.entries@[j] == old(self).top.entries@[j],
            decreases kernel_entry_count - i,
        {
            proof {
                assert(entry_wf(
                    active.top.entries@[kernel_start_index + i],
                    active.top.level as nat,
                    active.entry_count as nat,
                ));
            }
            let c = clone_entry(
                &active.top.entries[kernel_start_index + i],
                Ghost(active.top.level as nat),
                Ghost(active.entry_count as nat),
            );
            self.top.entries[kernel_start_index + i] = c;
            i = i + 1;
        }
        proof {
            assert forall|j: int| 0 <= j < final(self).top.entries@.len() implies entry_wf(
                #[trigger] final(self).top.entries@[j],
                final(self).top.level as nat,
                final(self).entry_count as nat,
            ) by {
                if !(kernel_start_index <= j < kernel_start_index + kernel_entry_count) {
                    assert(final(self).top.entries@[j] == old(self).top.entries@[j]);
                    assert(entry_wf(
                        old(self).top.entries@[j],
                        old(self).top.level as nat,
                        old(self).entry_count as nat,
                    ));
                }
            }
        }
    }

    /// Switches to this hierarchy: first aligns its view of kernel space
    /// with the active hierarchy's, since all address spaces must present
    /// an identical view of kernel-owned mappings. The hardware switch
    /// itself — installing this hierarchy's top-level frame in the
    /// translation register — is the embedder's step once this returns.
    pub fn switch_to(
        &mut self,
        active: &InactiveHierarchy,
        kernel_start_index: usize,
        kernel_entry_count: usize,
    )
        requires
            old(self).wf(),
            active.wf(),
            active.entry_count == old(self).entry_count,
            active.top.level == old(self).top.level,
            kernel_start_index + kernel_entry_count <= old(self).entry_count,
        ensures
            final(self).wf(),
            final(self).same_shape(*old(self)),
            forall|i: int|
                kernel_start_index <= i < kernel_start_index + kernel_entry_count ==> entry_equiv(
                    #[trigger] final(self).top.entries@[i],
                    active.top.entries@[i],
                    old(self).top.level as nat,
                    old(self).entry_count as nat,
                ),
            forall|i: int|
                0 <= i < old(self).entry_count && !(kernel_start_index <= i < kernel_start_index
                    + kernel_entry_count) ==> final(self).top.entries@[i] == old(self).top.entries@[i],
    {
        self.copy_active_kernel_space(active, kernel_start_index, kernel_entry_count);
    }

    /// De-allocates the page-table bookkeeping memory of this hierarchy.
    ///
    /// The tree of tables is dropped, which releases the owned child
    /// tables, and the physical frame that backed the top-level table — the
    /// one the self-referential region tracks by address — is handed back
    /// for the frame collaborator to release. Mapped user and kernel ranges
    /// are not unmapped: the caller must already have released those
    /// through `unmap`, or their frames leak, exactly as the callback-free
    /// teardown promises.
    pub fn destroy(&mut self) -> (freed: Vec<usize>)
        requires
            old(self).wf(),
        ensures
            final(self).wf(),
            final(self).same_shape(*old(self)),
            forall|p: nat|
                p < final(self).page_count() ==> (#[trigger] final(self).page_view(p))
                    is Available,
            freed@ == seq![old(self).top_paddr],
    {
        let fresh = Table::new_zeroed(self.top.level, self.entry_count);
        let mut old_top = fresh;
        core::mem::swap(&mut self.top, &mut old_top);
        let mut freed: Vec<usize> = Vec::new();
        freed.push(self.top_paddr);
        proof {
            assert forall|p: nat| p < final(self).page_count() implies (#[trigger] final(self).page_view(p)) is Available by {
                lemma_all_available_view(
                    self.top.entries@,
                    self.top.level as nat,
                    self.entry_count as nat,
                    p,
                );
            }
            assert(freed@ =~= seq![old(self).top_paddr]);
        }
        freed
    }
}

} // verus!
