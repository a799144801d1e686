//! Properties of the engine that hold across calls.

use vstd::prelude::*;
use vstd::multiset::Multiset;
use crate::ledger::{
    MapChange, PageRun, change_prots, change_runs, lists_pending, page_top, prots_below, reconcile_prots,
    reconcile_runs, runs_below,
};
use crate::page::{SnapshotPageInfo, SNAPSHOT_PAGE_SIZE, is_page, page_of};
use crate::perms::MmapPerms;
use crate::snapshot::{EMPTY_SLOT, SnapshotState, last_byte, lemma_drain, lemma_push_contains, restore_writes, set_clean};

verus! {

broadcast use vstd::seq_lib::group_to_multiset_ensures;

/// Recording a write keeps the invariant, marks the page unless it is the
/// cache's free marker, keeps every queued page queued, and leaves the set
/// of records and their contents as they were.
pub proof fn lemma_page_access(s: SnapshotState, p: u64)
    requires
        s.wf(),
    ensures
        s.page_access_spec(p).wf(),
        p != EMPTY_SLOT ==> s.page_access_spec(p).dirty.contains(p),
        forall|x: u64| s.dirty.contains(x) ==> #[trigger] s.page_access_spec(p).dirty.contains(x),
        forall|a: u64| #[trigger] s.page_access_spec(p).pages.contains_key(a) == s.pages.contains_key(a),
        forall|a: u64| s.pages.contains_key(a) ==> #[trigger] s.page_access_spec(p).pages[a].data == s.pages[a].data,
        s.page_access_spec(p).ledger == s.ledger,
{
    let t = s.page_access_spec(p);
    lemma_push_contains(s.dirty, p);
    if s.cache.contains(p) {
        let i = choose|i: int| 0 <= i < s.cache.len() && s.cache[i] == p;
        assert(s.cache[i] == EMPTY_SLOT || s.dirty.contains(s.cache[i]));
    } else {
        assert(t.cache[s.cache_idx] == p);
        assert forall|i: int| 0 <= i < 4 implies #[trigger] t.cache[i] == EMPTY_SLOT || t.dirty.contains(t.cache[i]) by {
            if i != s.cache_idx {
                assert(s.cache[i] == EMPTY_SLOT || s.dirty.contains(s.cache[i]));
            }
        }
    }
}

/// A second reset right after a reset changes nothing, writes nothing back
/// and has no mapping change to reconcile.
pub proof fn lemma_reset_idempotent(s: SnapshotState)
    requires
        s.wf(),
    ensures
        s.reset_spec().reset_spec() == s.reset_spec(),
        restore_writes(s.reset_spec().pages, s.reset_spec().dirty) == Seq::<u64>::empty(),
        forall|changes: Seq<MapChange>|
            lists_pending(s.reset_spec().ledger, changes) ==> #[trigger] reconcile_prots(s.reset_spec().pages, changes)
                == Seq::<(u64, MmapPerms)>::empty() && reconcile_runs(s.reset_spec().pages, changes)
                == Seq::<PageRun>::empty(),
{
    let t = s.reset_spec();
    assert(t.reset_spec() =~= t);
    assert forall|changes: Seq<MapChange>| lists_pending(t.ledger, changes) implies #[trigger] reconcile_prots(t.pages, changes)
        == Seq::<(u64, MmapPerms)>::empty() && reconcile_runs(t.pages, changes) == Seq::<PageRun>::empty() by {
        if changes.len() > 0 {
            let e = changes[0];
            assert(changes.contains(e));
            assert(changes.to_multiset().count(e) > 0);
        }
    }
}

proof fn lemma_writes_contain(pages: Map<u64, SnapshotPageInfo>, q: Seq<u64>, a: u64)
    requires
        q.contains(a),
        pages.contains_key(a),
        pages[a].data is Some,
    ensures
        restore_writes(pages, q).contains(a),
    decreases q.len(),
{
    let l = q.last();
    let w = if pages.contains_key(l) && pages[l].data is Some {
        seq![l]
    } else {
        seq![]
    };
    let rest = restore_writes(set_clean(pages, l), q.drop_last());
    assert(restore_writes(pages, q) == w + rest);
    if l == a {
        assert((w + rest)[0] == a);
    } else {
        let i = choose|i: int| 0 <= i < q.len() && q[i] == a;
        assert(q.drop_last()[i] == a);
        lemma_writes_contain(set_clean(pages, l), q.drop_last(), a);
        let j = choose|j: int| 0 <= j < rest.len() && rest[j] == a;
        assert((w + rest)[w.len() + j] == a);
    }
}

/// A write to a page captured with contents queues that page, and the reset
/// that follows writes the page's baseline contents back, which the record
/// still holds after the reset.
pub proof fn lemma_restore(s: SnapshotState, addr: u64, size: usize)
    requires
        s.wf(),
        size > 0,
        s.pages.contains_key(page_of(addr as int) as u64),
        s.pages[page_of(addr as int) as u64].data is Some,
    ensures
        restore_writes(s.access_spec(addr, size).pages, s.access_spec(addr, size).dirty).contains(
            page_of(addr as int) as u64,
        ),
        s.access_spec(addr, size).pages[page_of(addr as int) as u64].data == s.pages[page_of(
            addr as int,
        ) as u64].data,
        s.access_spec(addr, size).reset_spec().pages[page_of(addr as int) as u64].data == s.pages[page_of(
            addr as int,
        ) as u64].data,
{
    let a = page_of(addr as int) as u64;
    let last = page_of(last_byte(addr, size) as int) as u64;
    assert(a != EMPTY_SLOT);
    lemma_page_access(s, a);
    let t1 = s.page_access_spec(a);
    if a != last {
        lemma_page_access(t1, last);
    }
    let t = s.access_spec(addr, size);
    lemma_writes_contain(t.pages, t.dirty, a);
    lemma_drain(t.pages, t.dirty);
}

/// Recording `n` writes to one page in a row.
pub open spec fn repeat_access(s: SnapshotState, p: u64, n: nat) -> SnapshotState
    decreases n,
{
    if n == 0 {
        s
    } else {
        repeat_access(s, p, (n - 1) as nat).page_access_spec(p)
    }
}

/// Whatever writes come in between, a baseline page that a write covers is
/// queued after it, with its dirty flag set, and stands in the queue once:
/// the access cache never makes it be queued twice or left unmarked.
pub proof fn lemma_marked_once(s: SnapshotState, q: u64, p: u64)
    requires
        s.wf(),
        s.pages.contains_key(p),
        q == p || s.dirty.contains(p),
    ensures
        s.page_access_spec(q).wf(),
        s.page_access_spec(q).dirty.contains(p),
        s.page_access_spec(q).pages[p].dirty,
        forall|i: int, j: int|
            0 <= i < j < s.page_access_spec(q).dirty.len() && s.page_access_spec(q).dirty[i] == p
                ==> s.page_access_spec(q).dirty[j] != p,
{
    lemma_page_access(s, q);
    let t = s.page_access_spec(q);
    assert(is_page(p as int));
    assert(p != EMPTY_SLOT);
    let i = choose|i: int| 0 <= i < t.dirty.len() && t.dirty[i] == p;
    assert(t.pages.contains_key(p));
    assert(t.dirty[i] == p);
}

/// Writing the same page any positive number of times in a row queues it
/// exactly once.
pub proof fn lemma_single_entry(s: SnapshotState, p: u64, n: nat)
    requires
        s.wf(),
        is_page(p as int),
        !s.dirty.contains(p),
        n >= 1,
    ensures
        repeat_access(s, p, n).dirty == s.dirty.push(p),
        repeat_access(s, p, n).dirty.to_multiset().count(p) == 1,
        repeat_access(s, p, n).cache.contains(p),
    decreases n,
{
    if n == 1 {
        assert(repeat_access(s, p, 0) == s);
        if s.cache.contains(p) {
            let i = choose|i: int| 0 <= i < s.cache.len() && s.cache[i] == p;
            assert(s.cache[i] == EMPTY_SLOT || s.dirty.contains(s.cache[i]));
        }
        let t = s.page_access_spec(p);
        assert(t.cache[s.cache_idx] == p);
        assert(s.dirty.to_multiset().count(p) == 0);
    } else {
        lemma_single_entry(s, p, (n - 1) as nat);
    }
}

/// A write that runs past the end of its page marks the page and the next
/// one (the first page, past the end of the address space), for writes of at
/// most a page.
pub proof fn lemma_cross_page(s: SnapshotState, addr: u64, size: usize)
    requires
        s.wf(),
        size > 0,
        size <= SNAPSHOT_PAGE_SIZE,
        (addr as int) % (SNAPSHOT_PAGE_SIZE as int) + size > SNAPSHOT_PAGE_SIZE,
    ensures
        s.access_spec(addr, size).dirty.contains(page_of(addr as int) as u64),
        s.access_spec(addr, size).dirty.contains(
            ((page_of(addr as int) + SNAPSHOT_PAGE_SIZE) % 0x1_0000_0000_0000_0000) as u64,
        ),
{
    let a = page_of(addr as int) as u64;
    let last = page_of(last_byte(addr, size) as int) as u64;
    assert(last == ((a + SNAPSHOT_PAGE_SIZE) % 0x1_0000_0000_0000_0000) as u64);
    lemma_page_access(s, a);
    lemma_page_access(s.page_access_spec(a), last);
}

proof fn lemma_prots_below(
    pages: Map<u64, SnapshotPageInfo>,
    end: int,
    perms: Option<MmapPerms>,
    first: int,
    p: int,
    q: u64,
)
    requires
        is_page(first),
        is_page(p),
        is_page(q as int),
        first <= q < p,
        q < end,
        pages.contains_key(q),
        perms is Some,
        perms->0 != pages[q].perms,
    ensures
        prots_below(pages, end, perms, first, p).contains((q, pages[q].perms)),
    decreases p - first,
{
    let r = prots_below(pages, end, perms, first, p - SNAPSHOT_PAGE_SIZE);
    if p - SNAPSHOT_PAGE_SIZE == q {
        assert(prots_below(pages, end, perms, first, p) == r.push((q, pages[q].perms)));
        assert(r.push((q, pages[q].perms))[r.len() as int] == (q, pages[q].perms));
    } else {
        lemma_prots_below(pages, end, perms, first, p - SNAPSHOT_PAGE_SIZE, q);
        let j = choose|j: int| 0 <= j < r.len() && r[j] == (q, pages[q].perms);
        let cur = prots_below(pages, end, perms, first, p);
        let pp = (p - SNAPSHOT_PAGE_SIZE) as u64;
        if cur != r {
            assert(cur == r.push((pp, pages[pp].perms)));
            assert(cur[j] == (q, pages[q].perms));
        }
    }
}

proof fn lemma_reconcile_prots(pages: Map<u64, SnapshotPageInfo>, changes: Seq<MapChange>, c: MapChange, x: (u64, MmapPerms))
    requires
        changes.contains(c),
        change_prots(pages, c).contains(x),
    ensures
        reconcile_prots(pages, changes).contains(x),
    decreases changes.len(),
{
    let head = reconcile_prots(pages, changes.drop_last());
    let tail = change_prots(pages, changes.last());
    if changes.last() == c {
        let j = choose|j: int| 0 <= j < tail.len() && tail[j] == x;
        assert((head + tail)[head.len() + j] == x);
    } else {
        let i = choose|i: int| 0 <= i < changes.len() && changes[i] == c;
        assert(changes.drop_last()[i] == c);
        lemma_reconcile_prots(pages, changes.drop_last(), c, x);
        let j = choose|j: int| 0 <= j < head.len() && head[j] == x;
        assert((head + tail)[j] == x);
    }
}

/// The change `c` covers at least one byte of the page that starts at `q`.
pub open spec fn covers_page(c: MapChange, q: u64) -> bool {
    let lo = if c.0 > q { c.0 as int } else { q as int };
    let hi = if c.1 < q + SNAPSHOT_PAGE_SIZE { c.1 as int } else { q + SNAPSHOT_PAGE_SIZE };
    lo < hi
}

/// A baseline page that a recorded change covering any of its bytes gave
/// another protection is requested back to its baseline protection by the
/// next reset, whatever the order in which the ledger hands the changes out.
pub proof fn lemma_permission_restored(s: SnapshotState, c: MapChange, q: u64)
    requires
        s.wf(),
        s.ledger.count(c) > 0,
        c.2 is Some,
        s.pages.contains_key(q),
        covers_page(c, q),
        c.2->0 != s.pages[q].perms,
    ensures
        forall|changes: Seq<MapChange>|
            lists_pending(s.ledger, changes) ==> #[trigger] reconcile_prots(s.pages, changes).contains(
                (q, s.pages[q].perms),
            ),
{
    assert(is_page(q as int));
    assert(c.0 < c.1 && page_of(c.0 as int) <= q < c.1);
    lemma_prots_below(s.pages, c.1 as int, c.2, page_of(c.0 as int), page_top(c.1 as int), q);
    assert forall|changes: Seq<MapChange>| lists_pending(s.ledger, changes) implies #[trigger] reconcile_prots(
        s.pages,
        changes,
    ).contains((q, s.pages[q].perms)) by {
        assert(changes.to_multiset().count(c) > 0);
        lemma_reconcile_prots(s.pages, changes, c, (q, s.pages[q].perms));
    }
}

proof fn lemma_runs_below(pages: Map<u64, SnapshotPageInfo>, end: int, first: int, p: int)
    requires
        is_page(first),
        is_page(p),
        0 <= first < p,
        p - SNAPSHOT_PAGE_SIZE < end,
        p <= u64::MAX + 1,
        forall|a: u64| first <= a < p && is_page(a as int) ==> !#[trigger] pages.contains_key(a),
    ensures
        runs_below(pages, end, first, p) == seq![PageRun { addr: first as u64, pages: ((p - first) / (SNAPSHOT_PAGE_SIZE as int)) as u64 }],
    decreases p - first,
{
    let q = p - SNAPSHOT_PAGE_SIZE;
    assert(!pages.contains_key(q as u64));
    if q > first {
        lemma_runs_below(pages, end, first, q);
        assert(!pages.contains_key((q - SNAPSHOT_PAGE_SIZE) as u64));
        let r = runs_below(pages, end, first, q);
        assert(r.update(0, PageRun { addr: r.last().addr, pages: (r.last().pages + 1) as u64 }) =~= seq![PageRun { addr: first as u64, pages: ((p - first) / (SNAPSHOT_PAGE_SIZE as int)) as u64 }]);
    } else {
        assert(runs_below(pages, end, first, q) == Seq::<PageRun>::empty());
        assert(Seq::<PageRun>::empty().push(PageRun { addr: q as u64, pages: 1 }) =~= seq![PageRun { addr: first as u64, pages: ((p - first) / (SNAPSHOT_PAGE_SIZE as int)) as u64 }]);
    }
}

proof fn lemma_reconcile_runs(pages: Map<u64, SnapshotPageInfo>, changes: Seq<MapChange>, c: MapChange, x: PageRun)
    requires
        changes.contains(c),
        change_runs(pages, c).contains(x),
    ensures
        reconcile_runs(pages, changes).contains(x),
    decreases changes.len(),
{
    let head = reconcile_runs(pages, changes.drop_last());
    let tail = change_runs(pages, changes.last());
    if changes.last() == c {
        let j = choose|j: int| 0 <= j < tail.len() && tail[j] == x;
        assert((head + tail)[head.len() + j] == x);
    } else {
        let i = choose|i: int| 0 <= i < changes.len() && changes[i] == c;
        assert(changes.drop_last()[i] == c);
        lemma_reconcile_runs(pages, changes.drop_last(), c, x);
        let j = choose|j: int| 0 <= j < head.len() && head[j] == x;
        assert((head + tail)[j] == x);
    }
}

/// A change over pages that have no baseline record is one unmap candidate
/// covering all of its pages at the next reset, and the reset empties the
/// ledger.
pub proof fn lemma_new_mapping_unmapped(s: SnapshotState, c: MapChange)
    requires
        s.wf(),
        s.ledger.count(c) > 0,
        c.0 < c.1,
        forall|a: u64| page_of(c.0 as int) <= a < c.1 && is_page(a as int) ==> !#[trigger] s.pages.contains_key(a),
    ensures
        change_runs(s.pages, c) == seq![PageRun {
            addr: page_of(c.0 as int) as u64,
            pages: ((page_top(c.1 as int) - page_of(c.0 as int)) / (SNAPSHOT_PAGE_SIZE as int)) as u64,
        }],
        forall|changes: Seq<MapChange>|
            lists_pending(s.ledger, changes) ==> #[trigger] reconcile_runs(s.pages, changes).contains(
                change_runs(s.pages, c)[0],
            ),
        s.reset_spec().ledger == Multiset::<MapChange>::empty(),
{
    lemma_runs_below(s.pages, c.1 as int, page_of(c.0 as int), page_top(c.1 as int));
    let x = change_runs(s.pages, c)[0];
    assert(change_runs(s.pages, c).contains(x));
    assert forall|changes: Seq<MapChange>| lists_pending(s.ledger, changes) implies #[trigger] reconcile_runs(
        s.pages,
        changes,
    ).contains(x) by {
        assert(changes.to_multiset().count(c) > 0);
        lemma_reconcile_runs(s.pages, changes, c, x);
    }
}

} // verus!
