use vstd::prelude::*;
use vstd::multiset::Multiset;
use std::collections::HashMap;
use bio::data_structures::interval_tree::IntervalTree;
use crate::page::{SnapshotPageInfo, SNAPSHOT_PAGE_SIZE, page_of, is_page, page_start};
use crate::perms::MmapPerms;

verus! {

broadcast use vstd::std_specs::hash::group_hash_axioms;

#[verifier::external_type_specification]
#[verifier::external_body]
#[verifier::reject_recursive_types(N)]
#[verifier::reject_recursive_types(D)]
pub struct ExIntervalTree<N: Ord + Clone, D>(IntervalTree<N, D>);

/// A mapping change recorded since the last reset: `[start, end)` and the
/// protection it was given, `None` where it is unknown.
pub type MapChange = (u64, u64, Option<MmapPerms>);

/// The changes that an interval tree of the ledger holds, one per insertion.
pub uninterp spec fn ledger_entries(t: IntervalTree<u64, Option<MmapPerms>>) -> Multiset<MapChange>;

/// Relies on `IntervalTree::new`: the new tree holds no interval.
#[verifier::external_body]
pub(crate) fn ledger_new() -> (r: IntervalTree<u64, Option<MmapPerms>>)
    ensures
        ledger_entries(r) == Multiset::<MapChange>::empty(),
{
    IntervalTree::new()
}

/// Relies on `IntervalTree::insert`: the interval is added with its data,
/// beside any equal or overlapping one. The conversion of `start..end` into an
/// interval panics where `end < start`.
#[verifier::external_body]
pub(crate) fn ledger_insert(
    t: &mut IntervalTree<u64, Option<MmapPerms>>,
    start: u64,
    end: u64,
    perms: Option<MmapPerms>,
)
    requires
        start <= end,
    ensures
        ledger_entries(*final(t)) == ledger_entries(*old(t)).insert((start, end, perms)),
{
    t.insert(start..end, perms)
}

/// Relies on `IntervalTree::find` over `0..u64::MAX`: it yields every stored
/// interval that intersects the query, and an empty interval intersects
/// nothing, so exactly the non-empty ones come out, in an order of the tree's.
#[verifier::external_body]
pub(crate) fn ledger_all(t: &IntervalTree<u64, Option<MmapPerms>>) -> (r: Vec<MapChange>)
    ensures
        forall|e: MapChange|
            #[trigger] r@.to_multiset().count(e) == if e.0 < e.1 {
                ledger_entries(*t).count(e)
            } else {
                0
            },
{
    t.find(0..u64::MAX).map(|e| (e.interval().start, e.interval().end, *e.data())).collect()
}

/// A run of consecutive pages, `pages` of them from `addr` on.
#[derive(Clone, Copy, Debug, PartialEq, Eq, Structural)]
pub struct PageRun {
    pub addr: u64,
    pub pages: u64,
}

/// Protection requests for the pages of a change below `p`: each baseline
/// page that the change gave a protection other than its own goes back to
/// the baseline protection, in ascending order.
pub open spec fn prots_below(
    pages: Map<u64, SnapshotPageInfo>,
    end: int,
    perms: Option<MmapPerms>,
    first: int,
    p: int,
) -> Seq<(u64, MmapPerms)>
    decreases p - first,
{
    if p < first + SNAPSHOT_PAGE_SIZE {
        seq![]
    } else {
        let q = p - SNAPSHOT_PAGE_SIZE;
        let r = prots_below(pages, end, perms, first, q);
        match perms {
            Some(np) => if q < end && pages.contains_key(q as u64) && np != pages[q as u64].perms {
                r.push((q as u64, pages[q as u64].perms))
            } else {
                r
            },
            None => r,
        }
    }
}

/// The maximal runs of pages without a baseline record among the pages of a
/// change below `p`, in ascending order.
pub open spec fn runs_below(pages: Map<u64, SnapshotPageInfo>, end: int, first: int, p: int) -> Seq<PageRun>
    decreases p - first,
{
    if p < first + SNAPSHOT_PAGE_SIZE {
        seq![]
    } else {
        let q = p - SNAPSHOT_PAGE_SIZE;
        let r = runs_below(pages, end, first, q);
        if q >= end || pages.contains_key(q as u64) {
            r
        } else if q > first && !pages.contains_key((q - SNAPSHOT_PAGE_SIZE) as u64) && r.len() > 0 {
            r.update(r.len() - 1, PageRun { addr: r.last().addr, pages: (r.last().pages + 1) as u64 })
        } else {
            r.push(PageRun { addr: q as u64, pages: 1 })
        }
    }
}

/// The first page start at or after `end`.
pub open spec fn page_top(end: int) -> int {
    page_of(end - 1) + SNAPSHOT_PAGE_SIZE
}

/// Protection requests for the pages that the change `[start, end)` touches.
pub open spec fn change_prots(pages: Map<u64, SnapshotPageInfo>, c: MapChange) -> Seq<(u64, MmapPerms)> {
    prots_below(pages, c.1 as int, c.2, page_of(c.0 as int), page_top(c.1 as int))
}

/// Unmap candidates among the pages that the change `[start, end)` touches.
pub open spec fn change_runs(pages: Map<u64, SnapshotPageInfo>, c: MapChange) -> Seq<PageRun> {
    runs_below(pages, c.1 as int, page_of(c.0 as int), page_top(c.1 as int))
}

proof fn lemma_walk_done(end: int, first: int, p: int)
    requires
        is_page(first),
        is_page(p),
        first >= 0,
        first <= p,
        p >= end,
        p == first || p - SNAPSHOT_PAGE_SIZE < end,
    ensures
        p == page_top(end) || (p == first && page_top(end) <= first),
{
}

proof fn lemma_below_first(pages: Map<u64, SnapshotPageInfo>, end: int, perms: Option<MmapPerms>, first: int, p: int)
    requires
        p <= first,
    ensures
        prots_below(pages, end, perms, first, p) == Seq::<(u64, MmapPerms)>::empty(),
        runs_below(pages, end, first, p) == Seq::<PageRun>::empty(),
{
}

/// Walks the pages of one change and appends what reconciling them asks for.
pub(crate) fn reconcile_change(
    pages: &HashMap<u64, SnapshotPageInfo>,
    c: MapChange,
    prots: &mut Vec<(u64, MmapPerms)>,
    runs: &mut Vec<PageRun>,
)
    ensures
        final(prots)@ == old(prots)@ + change_prots(pages@, c),
        final(runs)@ == old(runs)@ + change_runs(pages@, c),
{
    
    let (start, end, perms) = c;
    let first = page_start(start);
    let mut page: u128 = first as u128;
    let mut prev = false;
    let mut local: Vec<PageRun> = Vec::new();
    let ghost prots0 = prots@;
    while page < end as u128
        invariant
            first <= page,
            page == first || page <= end as int + SNAPSHOT_PAGE_SIZE,
            is_page(first as int),
            is_page(page as int),
            page == first || page - SNAPSHOT_PAGE_SIZE < end,
            prev == (page > first && !pages@.contains_key((page - SNAPSHOT_PAGE_SIZE) as u64)),
            prots@ == prots0 + prots_below(pages@, end as int, perms, first as int, page as int),
            local@ == runs_below(pages@, end as int, first as int, page as int),
            forall|i: int| 0 <= i < local@.len() ==> (#[trigger] local@[i]).pages * SNAPSHOT_PAGE_SIZE <= page - first,
            prev ==> local@.len() > 0,
        decreases end as int + SNAPSHOT_PAGE_SIZE - page,
    {
        let a = page as u64;
        match pages.get(&a) {
            Some(info) => {
                assert(pages@.contains_key(a) && pages@[a] == *info);
                prev = false;
                match perms {
                    Some(np) => {
                        if info.perms != np {
                            prots.push((a, info.perms));
                        }
                    },
                    None => {},
                }
            },
            None => {
                assert(!pages@.contains_key(a));
                if prev {
                    let last = local.len() - 1;
                    let r = local[last];
                    local.set(last, PageRun { addr: r.addr, pages: r.pages + 1 });
                } else {
                    local.push(PageRun { addr: a, pages: 1 });
                }
                prev = true;
            },
        }
        page = page + SNAPSHOT_PAGE_SIZE as u128;
    }
    proof {
        lemma_walk_done(end as int, first as int, page as int);
        if page == first {
            lemma_below_first(pages@, end as int, perms, first as int, page as int);
        }
        if page_top(end as int) <= first {
            lemma_below_first(pages@, end as int, perms, first as int, page_top(end as int));
        }
    }
    runs.append(&mut local);
}

/// Protection requests for a sequence of changes, change by change.
pub open spec fn reconcile_prots(pages: Map<u64, SnapshotPageInfo>, changes: Seq<MapChange>) -> Seq<(u64, MmapPerms)>
    decreases changes.len(),
{
    if changes.len() == 0 {
        seq![]
    } else {
        reconcile_prots(pages, changes.drop_last()) + change_prots(pages, changes.last())
    }
}

/// Unmap candidates for a sequence of changes, change by change.
pub open spec fn reconcile_runs(pages: Map<u64, SnapshotPageInfo>, changes: Seq<MapChange>) -> Seq<PageRun>
    decreases changes.len(),
{
    if changes.len() == 0 {
        seq![]
    } else {
        reconcile_runs(pages, changes.drop_last()) + change_runs(pages, changes.last())
    }
}

/// What reconciling the mapping changes asks of the backend.
#[derive(Debug)]
pub struct MapActions {
    /// Pages to give back their baseline protection.
    pub protections: Vec<(u64, MmapPerms)>,
    /// Runs of pages mapped after the baseline, candidates for unmapping.
    pub unmaps: Vec<PageRun>,
}

/// Reconciles `changes` in order against the baseline `pages`.
pub fn reconcile_changes(pages: &HashMap<u64, SnapshotPageInfo>, changes: &Vec<MapChange>) -> (r: MapActions)
    ensures
        r.protections@ == reconcile_prots(pages@, changes@),
        r.unmaps@ == reconcile_runs(pages@, changes@),
{
    let mut protections: Vec<(u64, MmapPerms)> = Vec::new();
    let mut unmaps: Vec<PageRun> = Vec::new();
    let mut i: usize = 0;
    while i < changes.len()
        invariant
            i <= changes@.len(),
            protections@ == reconcile_prots(pages@, changes@.take(i as int)),
            unmaps@ == reconcile_runs(pages@, changes@.take(i as int)),
        decreases changes@.len() - i,
    {
        assert(changes@.take(i + 1).drop_last() =~= changes@.take(i as int));
        reconcile_change(pages, changes[i], &mut protections, &mut unmaps);
        i = i + 1;
    }
    assert(changes@.take(i as int) =~= changes@);
    MapActions { protections, unmaps }
}

/// `changes` lists the non-empty changes of `ledger`, each as often as it
/// was recorded, in some order.
pub open spec fn lists_pending(ledger: Multiset<MapChange>, changes: Seq<MapChange>) -> bool {
    forall|e: MapChange|
        #[trigger] changes.to_multiset().count(e) == if e.0 < e.1 {
            ledger.count(e)
        } else {
            0
        }
}

} // verus!
