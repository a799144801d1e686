use vstd::prelude::*;
use vstd::multiset::Multiset;
use std::collections::HashMap;
use bio::data_structures::interval_tree::IntervalTree;
use crate::ledger::{MapChange, PageRun, MapActions, ledger_entries, ledger_new, ledger_insert, ledger_all, lists_pending, reconcile_changes, reconcile_prots, reconcile_runs};
use crate::page::{SnapshotPageInfo, SNAPSHOT_PAGE_SIZE, page_of, is_page, page_start};
use crate::perms::MmapPerms;

verus! {

broadcast use vstd::std_specs::hash::group_hash_axioms;

/// Marker left in free slots of the access cache.
pub const EMPTY_SLOT: u64 = 0xffff_ffff_ffff_ffff;

/// Number of slots of the access cache.
pub const ACCESS_CACHE_SLOTS: usize = 4;

/// Tracks the pages written since the baseline and the mapping changes seen
/// since the last reset.
#[derive(Debug)]
pub struct QemuSnapshotHelper {
    /// The most recently recorded pages, replaced round robin.
    pub access_cache: Vec<u64>,
    /// The slot that the next recorded page goes to.
    pub access_cache_idx: usize,
    /// The baseline, by page address.
    pub pages: HashMap<u64, SnapshotPageInfo>,
    /// Pages queued for restoration, in the order they were first written.
    pub dirty: Vec<u64>,
    /// The program break at the baseline.
    pub brk: u64,
    /// Mapping changes since the last reset.
    pub new_maps: IntervalTree<u64, Option<MmapPerms>>,
    /// No baseline has been captured yet.
    pub empty: bool,
}

/// The abstract state of the engine.
pub struct SnapshotState {
    pub cache: Seq<u64>,
    pub cache_idx: int,
    pub pages: Map<u64, SnapshotPageInfo>,
    pub dirty: Seq<u64>,
    pub brk: u64,
    pub ledger: Multiset<MapChange>,
    pub empty: bool,
}

impl View for QemuSnapshotHelper {
    type V = SnapshotState;

    open spec fn view(&self) -> SnapshotState {
        SnapshotState {
            cache: self.access_cache@,
            cache_idx: self.access_cache_idx as int,
            pages: self.pages@,
            dirty: self.dirty@,
            brk: self.brk,
            ledger: ledger_entries(self.new_maps),
            empty: self.empty,
        }
    }
}

/// A mapped region of the backend at capture time. `data` holds the region's
/// bytes where it is writable and is not read otherwise.
#[derive(Debug)]
pub struct MapRegion {
    pub start: u64,
    pub end: u64,
    pub perms: MmapPerms,
    pub private: bool,
    pub data: Vec<u8>,
}

/// A region as the backend reports it: page-aligned bounds in order, and
/// the bytes of the whole region where it is writable.
pub open spec fn region_ok(r: MapRegion) -> bool {
    &&& r.start <= r.end
    &&& is_page(r.start as int)
    &&& is_page(r.end as int)
    &&& (r.perms.spec_is_w() ==> r.data@.len() == r.end - r.start)
}

/// Whether `a` is the start of one of the pages of `r`.
pub open spec fn region_has_page(r: MapRegion, a: int) -> bool {
    r.start <= a < r.end && (a - r.start) % (SNAPSHOT_PAGE_SIZE as int) == 0
}

/// The last of the first `n` regions that holds the page `a`.
pub open spec fn owner(regions: Seq<MapRegion>, a: int, n: int) -> Option<int>
    decreases n,
{
    if n <= 0 {
        None
    } else if region_has_page(regions[n - 1], a) {
        Some(n - 1)
    } else {
        owner(regions, a, n - 1)
    }
}

/// `info` is the clean record of page `a` of region `r`, with the page's
/// bytes where the region is writable.
pub open spec fn captured_from(info: SnapshotPageInfo, r: MapRegion, a: u64) -> bool {
    &&& info.addr == a
    &&& info.perms == r.perms
    &&& info.private == r.private
    &&& !info.dirty
    &&& if r.perms.spec_is_w() {
        &&& info.data is Some
        &&& info.data->0@.len() == SNAPSHOT_PAGE_SIZE
        &&& info.data->0@ == r.data@.subrange(a - r.start, a - r.start + SNAPSHOT_PAGE_SIZE)
    } else {
        info.data is None
    }
}

/// `pages` holds a record for each page of the regions and for nothing else,
/// taken from the last region that holds the page.
pub open spec fn captures(pages: Map<u64, SnapshotPageInfo>, regions: Seq<MapRegion>) -> bool {
    &&& forall|a: u64| #[trigger] pages.contains_key(a) <==> owner(regions, a as int, regions.len() as int) is Some
    &&& forall|a: u64| #[trigger] pages.contains_key(a) ==> captured_from(
        pages[a],
        regions[owner(regions, a as int, regions.len() as int)->0],
        a,
    )
}

/// Address of the last byte of a write of `size` bytes at `addr`, wrapping
/// around the end of the address space.
pub open spec fn last_byte(addr: u64, size: usize) -> u64 {
    ((addr + size - 1) % 0x1_0000_0000_0000_0000) as u64
}

/// The end of a change of `size` bytes from `start`, cut at the end of the
/// address space.
pub open spec fn change_end(start: u64, size: usize) -> u64 {
    if start + size <= u64::MAX {
        (start + size) as u64
    } else {
        u64::MAX
    }
}

/// The record of `a` with its dirty flag cleared, where there is one.
pub open spec fn set_clean(pages: Map<u64, SnapshotPageInfo>, a: u64) -> Map<u64, SnapshotPageInfo> {
    if pages.contains_key(a) {
        pages.insert(a, SnapshotPageInfo { dirty: false, ..pages[a] })
    } else {
        pages
    }
}

/// The page store after draining the queue `q`, last entry first.
pub open spec fn drain_pages(pages: Map<u64, SnapshotPageInfo>, q: Seq<u64>) -> Map<u64, SnapshotPageInfo>
    decreases q.len(),
{
    if q.len() == 0 {
        pages
    } else {
        drain_pages(set_clean(pages, q.last()), q.drop_last())
    }
}

/// The pages whose baseline contents are written back when the queue `q` is
/// drained, in the order of the writes: each queued page with a record that
/// holds contents, last entry first.
pub open spec fn restore_writes(pages: Map<u64, SnapshotPageInfo>, q: Seq<u64>) -> Seq<u64>
    decreases q.len(),
{
    if q.len() == 0 {
        seq![]
    } else {
        let a = q.last();
        let w = if pages.contains_key(a) && pages[a].data is Some {
            seq![a]
        } else {
            seq![]
        };
        w + restore_writes(set_clean(pages, a), q.drop_last())
    }
}

/// What a reset asks of the backend, in order: reprotect, unmap (at the
/// caller's discretion), write back the pages' baseline contents, and set
/// the program break.
#[derive(Debug)]
pub struct ResetActions {
    pub protections: Vec<(u64, MmapPerms)>,
    pub unmaps: Vec<PageRun>,
    /// Pages whose recorded contents are to be written back.
    pub writes: Vec<u64>,
    pub brk: u64,
}

impl SnapshotState {
    /// The state after a reset.
    pub open spec fn reset_spec(self) -> SnapshotState {
        SnapshotState {
            cache: seq![EMPTY_SLOT, EMPTY_SLOT, EMPTY_SLOT, EMPTY_SLOT],
            cache_idx: 0,
            pages: drain_pages(self.pages, self.dirty),
            dirty: seq![],
            ledger: Multiset::empty(),
            ..self
        }
    }

    /// The state after recording the change `[start, start + size)`, cut at
    /// the end of the address space.
    pub open spec fn add_mapped_spec(self, start: u64, size: usize, perms: Option<MmapPerms>) -> SnapshotState {
        SnapshotState { ledger: self.ledger.insert((start, change_end(start, size), perms)), ..self }
    }

    /// The engine's invariant: a well-formed cache, page records keyed by
    /// their page address whose contents are one page exactly when the page
    /// was writable, every dirty page queued, and every cached page queued.
    pub open spec fn wf(self) -> bool {
        &&& self.cache.len() == ACCESS_CACHE_SLOTS
        &&& 0 <= self.cache_idx < ACCESS_CACHE_SLOTS
        &&& forall|a: u64| #[trigger] self.pages.contains_key(a) ==> {
            &&& self.pages[a].addr == a
            &&& is_page(a as int)
            &&& (self.pages[a].data is Some <==> self.pages[a].perms.spec_is_w())
            &&& (self.pages[a].data is Some ==> self.pages[a].data->0@.len() == SNAPSHOT_PAGE_SIZE)
            &&& (self.pages[a].dirty ==> self.dirty.contains(a))
        }
        &&& forall|i: int| 0 <= i < ACCESS_CACHE_SLOTS ==> #[trigger] self.cache[i] == EMPTY_SLOT
            || self.dirty.contains(self.cache[i])
        &&& forall|i: int|
            0 <= i < self.dirty.len() && self.pages.contains_key(#[trigger] self.dirty[i])
                ==> self.pages[self.dirty[i]].dirty
        &&& forall|i: int, j: int|
            0 <= i < j < self.dirty.len() && self.pages.contains_key(#[trigger] self.dirty[i])
                ==> self.dirty[i] != #[trigger] self.dirty[j]
    }

    /// The state right after a baseline is captured into `pages` with break
    /// `brk`: the dirty queue and the access cache start afresh.
    pub open spec fn snapshot_spec(self, brk: u64, pages: Map<u64, SnapshotPageInfo>) -> SnapshotState {
        SnapshotState {
            cache: seq![EMPTY_SLOT, EMPTY_SLOT, EMPTY_SLOT, EMPTY_SLOT],
            cache_idx: 0,
            pages,
            dirty: seq![],
            brk,
            empty: false,
            ..self
        }
    }

    /// The state after recording a write to `page`.
    pub open spec fn page_access_spec(self, page: u64) -> SnapshotState {
        if self.cache.contains(page) {
            self
        } else {
            let s1 = SnapshotState {
                cache: self.cache.update(self.cache_idx, page),
                cache_idx: (self.cache_idx + 1) % (ACCESS_CACHE_SLOTS as int),
                ..self
            };
            if self.pages.contains_key(page) {
                if self.pages[page].dirty {
                    s1
                } else {
                    SnapshotState {
                        pages: self.pages.insert(page, SnapshotPageInfo { dirty: true, ..self.pages[page] }),
                        dirty: self.dirty.push(page),
                        ..s1
                    }
                }
            } else {
                SnapshotState { dirty: self.dirty.push(page), ..s1 }
            }
        }
    }

    /// The state after recording a write of `size` bytes at `addr`: the page
    /// of the first byte, then the page of the last byte where it differs.
    /// Addresses wrap around the end of the address space.
    pub open spec fn access_spec(self, addr: u64, size: usize) -> SnapshotState {
        let first = page_of(addr as int) as u64;
        let last = page_of(last_byte(addr, size) as int) as u64;
        let s1 = self.page_access_spec(first);
        if first != last {
            s1.page_access_spec(last)
        } else {
            s1
        }
    }
}

pub(crate) proof fn lemma_push_contains(s: Seq<u64>, y: u64)
    ensures
        s.push(y).contains(y),
        forall|x: u64| s.contains(x) ==> #[trigger] s.push(y).contains(x),
{
    assert(s.push(y)[s.len() as int] == y);
    assert forall|x: u64| s.contains(x) implies #[trigger] s.push(y).contains(x) by {
        let i = choose|i: int| 0 <= i < s.len() && s[i] == x;
        assert(s.push(y)[i] == x);
    }
}

pub(crate) proof fn lemma_drain(pages: Map<u64, SnapshotPageInfo>, q: Seq<u64>)
    ensures
        forall|a: u64| #[trigger] drain_pages(pages, q).contains_key(a) == pages.contains_key(a),
        forall|a: u64| pages.contains_key(a) ==> #[trigger] drain_pages(pages, q)[a] == if q.contains(a) {
            SnapshotPageInfo { dirty: false, ..pages[a] }
        } else {
            pages[a]
        },
    decreases q.len(),
{
    if q.len() > 0 {
        let p1 = set_clean(pages, q.last());
        let q1 = q.drop_last();
        lemma_drain(p1, q1);
        assert forall|a: u64| q.contains(a) == (q1.contains(a) || a == q.last()) by {
            if q.contains(a) {
                let i = choose|i: int| 0 <= i < q.len() && q[i] == a;
                if i < q.len() - 1 {
                    assert(q1[i] == a);
                }
            }
            if q1.contains(a) {
                let i = choose|i: int| 0 <= i < q1.len() && q1[i] == a;
                assert(q[i] == a);
            }
            if a == q.last() {
                assert(q[q.len() - 1] == a);
            }
        }
    }
}

impl Default for QemuSnapshotHelper {
    fn default() -> (r: Self)
        ensures
            r@.wf(),
            r@.cache == seq![EMPTY_SLOT, EMPTY_SLOT, EMPTY_SLOT, EMPTY_SLOT],
            r@.cache_idx == 0,
            r@.pages == Map::<u64, SnapshotPageInfo>::empty(),
            r@.dirty == Seq::<u64>::empty(),
            r@.brk == 0,
            r@.ledger == Multiset::<MapChange>::empty(),
            r@.empty,
    {
        Self::new()
    }
}

impl QemuSnapshotHelper {
    /// An engine with no baseline, an empty cache and an empty ledger.
    pub fn new() -> (r: Self)
        ensures
            r@.wf(),
            r@.cache == seq![EMPTY_SLOT, EMPTY_SLOT, EMPTY_SLOT, EMPTY_SLOT],
            r@.cache_idx == 0,
            r@.pages == Map::<u64, SnapshotPageInfo>::empty(),
            r@.dirty == Seq::<u64>::empty(),
            r@.brk == 0,
            r@.ledger == Multiset::<MapChange>::empty(),
            r@.empty,
    {
        let r = QemuSnapshotHelper {
            access_cache: vec![EMPTY_SLOT, EMPTY_SLOT, EMPTY_SLOT, EMPTY_SLOT],
            access_cache_idx: 0,
            pages: HashMap::new(),
            dirty: Vec::new(),
            brk: 0,
            new_maps: ledger_new(),
            empty: true,
        };
        assert(r@.cache =~= seq![EMPTY_SLOT, EMPTY_SLOT, EMPTY_SLOT, EMPTY_SLOT]);
        r
    }

    /// Records a write to `page`: unless the page is in the access cache, it
    /// enters the cache and, unless it is already queued as a dirty baseline
    /// page, the dirty queue.
    pub fn page_access(&mut self, page: u64)
        requires
            old(self)@.wf(),
        ensures
            final(self)@ == old(self)@.page_access_spec(page),
            final(self)@.wf(),
    {
        if self.access_cache[0] == page || self.access_cache[1] == page || self.access_cache[2] == page
            || self.access_cache[3] == page {
            assert(self@.cache.contains(page));
            return ;
        }
        assert(!self@.cache.contains(page));
        let ghost s0 = self@;
        let idx = self.access_cache_idx;
        self.access_cache.set(idx, page);
        self.access_cache_idx = (idx + 1) % ACCESS_CACHE_SLOTS;
        match self.pages.remove(&page) {
            Some(info) => {
                if info.dirty {
                    self.pages.insert(page, info);
                    assert(self.pages@ =~= s0.pages);
                    assert(s0.dirty.contains(page));
                    return ;
                }
                let mut info = info;
                info.dirty = true;
                self.pages.insert(page, info);
                assert(self.pages@ =~= s0.pages.insert(page, SnapshotPageInfo { dirty: true, ..s0.pages[page] }));
            },
            None => {
                assert(self.pages@ =~= s0.pages);
            },
        }
        self.dirty.push(page);
        proof {
            lemma_push_contains(s0.dirty, page);
        }
    }

    /// Records a write of `size` bytes at `addr`, marking the page of its
    /// first byte and, where the write crosses into it, the page of its last.
    pub fn access(&mut self, addr: u64, size: usize)
        requires
            old(self)@.wf(),
            size > 0,
        ensures
            final(self)@ == old(self)@.access_spec(addr, size),
            final(self)@.wf(),
    {
        let page = page_start(addr);
        self.page_access(page);
        let span = size as u64 - 1;
        let last = if span <= u64::MAX - addr {
            addr + span
        } else {
            span - (u64::MAX - addr) - 1
        };
        let second_page = page_start(last);
        if page != second_page {
            self.page_access(second_page);
        }
    }
    /// Records that the mapping `[start, start + size)` was created or
    /// changed, with the protection it was given where that is known. A range
    /// that runs past the end of the address space is cut there.
    pub fn add_mapped(&mut self, start: u64, size: usize, perms: Option<MmapPerms>)
        ensures
            final(self)@ == old(self)@.add_mapped_spec(start, size, perms),
    {
        let end = if size as u64 <= u64::MAX - start {
            start + size as u64
        } else {
            u64::MAX
        };
        ledger_insert(&mut self.new_maps, start, end, perms);
    }

    /// Reconciles the recorded mapping changes, in whatever order the ledger
    /// hands them out, against the baseline, and empties the ledger.
    pub fn reset_maps(&mut self) -> (r: MapActions)
        ensures
            final(self)@ == (SnapshotState { ledger: Multiset::empty(), ..old(self)@ }),
            exists|changes: Seq<MapChange>|
                #![trigger reconcile_prots(old(self)@.pages, changes)]
                lists_pending(old(self)@.ledger, changes)
                    && r.protections@ == reconcile_prots(old(self)@.pages, changes)
                    && r.unmaps@ == reconcile_runs(old(self)@.pages, changes),
    {
        let changes = ledger_all(&self.new_maps);
        let r = reconcile_changes(&self.pages, &changes);
        self.new_maps = ledger_new();
        assert(reconcile_prots(old(self)@.pages, changes@) == r.protections@);
        r
    }

    /// Restores the baseline: reconciles the mapping changes, empties the
    /// access cache, drains the dirty queue and hands back what the backend
    /// must do, the baseline's program break included.
    pub fn reset(&mut self) -> (r: ResetActions)
        requires
            old(self)@.wf(),
        ensures
            final(self)@ == old(self)@.reset_spec(),
            final(self)@.wf(),
            r.writes@ == restore_writes(old(self)@.pages, old(self)@.dirty),
            r.brk == old(self)@.brk,
            exists|changes: Seq<MapChange>|
                #![trigger reconcile_prots(old(self)@.pages, changes)]
                lists_pending(old(self)@.ledger, changes)
                    && r.protections@ == reconcile_prots(old(self)@.pages, changes)
                    && r.unmaps@ == reconcile_runs(old(self)@.pages, changes),
    {
        let ghost s0 = self@;
        let maps = self.reset_maps();
        self.access_cache = vec![EMPTY_SLOT, EMPTY_SLOT, EMPTY_SLOT, EMPTY_SLOT];
        self.access_cache_idx = 0;
        assert(self@.cache =~= seq![EMPTY_SLOT, EMPTY_SLOT, EMPTY_SLOT, EMPTY_SLOT]);
        let mut writes: Vec<u64> = Vec::new();
        while self.dirty.len() > 0
            invariant
                self@.cache == seq![EMPTY_SLOT, EMPTY_SLOT, EMPTY_SLOT, EMPTY_SLOT],
                self.access_cache_idx == 0,
                self.brk == s0.brk,
                self.empty == s0.empty,
                self@.ledger == Multiset::<MapChange>::empty(),
                drain_pages(self.pages@, self.dirty@) == drain_pages(s0.pages, s0.dirty),
                writes@ + restore_writes(self.pages@, self.dirty@) == restore_writes(s0.pages, s0.dirty),
            decreases self.dirty@.len(),
        {
            let ghost p1 = self.pages@;
            let ghost q1 = self.dirty@;
            let page = match self.dirty.pop() {
                Some(p) => p,
                None => {
                    return ResetActions { protections: maps.protections, unmaps: maps.unmaps, writes, brk: self.brk };
                },
            };
            match self.pages.remove(&page) {
                Some(info) => {
                    let mut info = info;
                    if info.data.is_some() {
                        writes.push(page);
                    }
                    info.dirty = false;
                    self.pages.insert(page, info);
                    assert(self.pages@ =~= set_clean(p1, page));
                },
                None => {
                    assert(self.pages@ =~= set_clean(p1, page));
                },
            }
            assert(self.dirty@ =~= q1.drop_last());
        }
        proof {
            lemma_drain(s0.pages, s0.dirty);
            assert(self.dirty@ =~= Seq::<u64>::empty());
        }
        ResetActions { protections: maps.protections, unmaps: maps.unmaps, writes, brk: self.brk }
    }
}

proof fn lemma_owner(regions: Seq<MapRegion>, a: int, n: int)
    requires
        owner(regions, a, n) is Some,
    ensures
        0 <= owner(regions, a, n)->0 < n,
        region_has_page(regions[owner(regions, a, n)->0], a),
    decreases n,
{
    if n > 0 && !region_has_page(regions[n - 1], a) {
        lemma_owner(regions, a, n - 1);
    }
}

proof fn lemma_next_page(a: int, end: int)
    requires
        is_page(a),
        is_page(end),
        a < end,
    ensures
        a + SNAPSHOT_PAGE_SIZE <= end,
        is_page(a + SNAPSHOT_PAGE_SIZE),
{
}

proof fn lemma_region_page(r: MapRegion, a: int)
    requires
        region_ok(r),
        r.start <= a,
        is_page(a),
    ensures
        region_has_page(r, a) == (a < r.end),
{
}

proof fn lemma_page_of_region(r: MapRegion, a: int)
    requires
        region_ok(r),
        region_has_page(r, a),
    ensures
        is_page(a),
{
}

impl QemuSnapshotHelper {
    /// Captures the baseline: the program break `brk` and a record of each
    /// page of `mappings`, with its bytes where the page is writable. The
    /// dirty queue and the access cache start afresh.
    pub fn snapshot(&mut self, brk: u64, mappings: &Vec<MapRegion>)
        requires
            old(self)@.wf(),
            forall|i: int| 0 <= i < mappings@.len() ==> region_ok(#[trigger] mappings@[i]),
        ensures
            final(self)@ == old(self)@.snapshot_spec(brk, final(self)@.pages),
            captures(final(self)@.pages, mappings@),
            final(self)@.wf(),
    {
        self.brk = brk;
        self.pages.clear();
        self.dirty = Vec::new();
        self.access_cache = vec![EMPTY_SLOT, EMPTY_SLOT, EMPTY_SLOT, EMPTY_SLOT];
        self.access_cache_idx = 0;
        assert(self@.cache =~= seq![EMPTY_SLOT, EMPTY_SLOT, EMPTY_SLOT, EMPTY_SLOT]);
        let ghost s0 = self@;
        let mut i: usize = 0;
        while i < mappings.len()
            invariant
                i <= mappings@.len(),
                forall|k: int| 0 <= k < mappings@.len() ==> region_ok(#[trigger] mappings@[k]),
                self@ == (SnapshotState { brk, pages: self@.pages, ..s0 }),
                forall|a: u64| #[trigger] self.pages@.contains_key(a) <==> owner(mappings@, a as int, i as int) is Some,
                forall|a: u64| #[trigger] self.pages@.contains_key(a) ==> captured_from(
                    self.pages@[a],
                    mappings@[owner(mappings@, a as int, i as int)->0],
                    a,
                ),
            decreases mappings@.len() - i,
        {
            let r = &mappings[i];
            let mut addr: u128 = r.start as u128;
            while addr < r.end as u128
                invariant
                    i < mappings@.len(),
                    *r == mappings@[i as int],
                    region_ok(*r),
                    r.start <= addr <= r.end,
                    is_page(addr as int),
                    self@ == (SnapshotState { brk, pages: self@.pages, ..s0 }),
                    forall|a: u64| #[trigger] self.pages@.contains_key(a) <==> (owner(mappings@, a as int, i as int) is Some
                        || (region_has_page(*r, a as int) && a < addr)),
                    forall|a: u64| #[trigger] self.pages@.contains_key(a) ==> captured_from(
                        self.pages@[a],
                        if region_has_page(*r, a as int) && a < addr {
                            *r
                        } else {
                            mappings@[owner(mappings@, a as int, i as int)->0]
                        },
                        a,
                    ),
                decreases r.end - addr,
            {
                let a = addr as u64;
                proof {
                    lemma_next_page(addr as int, r.end as int);
                    lemma_region_page(*r, a as int);
                }
                let mut data: Option<Vec<u8>> = None;
                if r.perms.is_w() {
                    let dlen = r.data.len();
                    let off = (a - r.start) as usize;
                    let mut buf: Vec<u8> = Vec::new();
                    let mut j: usize = 0;
                    while j < SNAPSHOT_PAGE_SIZE
                        invariant
                            j <= SNAPSHOT_PAGE_SIZE,
                            dlen == r.data@.len(),
                            off + SNAPSHOT_PAGE_SIZE <= dlen,
                            buf@ == r.data@.subrange(off as int, off + j),
                        decreases SNAPSHOT_PAGE_SIZE - j,
                    {
                        buf.push(r.data[off + j]);
                        j = j + 1;
                        assert(buf@ =~= r.data@.subrange(off as int, off + j));
                    }
                    data = Some(buf);
                }
                let info = SnapshotPageInfo { addr: a, perms: r.perms, private: r.private, dirty: false, data };
                assert(captured_from(info, *r, a));
                self.pages.insert(a, info);
                addr = addr + SNAPSHOT_PAGE_SIZE as u128;
                assert forall|k: u64| #[trigger] self.pages@.contains_key(k) implies captured_from(
                    self.pages@[k],
                    if region_has_page(*r, k as int) && k < addr {
                        *r
                    } else {
                        mappings@[owner(mappings@, k as int, i as int)->0]
                    },
                    k,
                ) by {
                    if k != a {
                        assert(region_has_page(*r, k as int) && k < addr <==> region_has_page(*r, k as int) && k < a);
                    }
                }
            }
            i = i + 1;
        }
        self.empty = false;
        assert(self.dirty@ =~= Seq::<u64>::empty());
        proof {
            assert forall|a: u64| #[trigger] self.pages@.contains_key(a) implies is_page(a as int) by {
                let k = owner(mappings@, a as int, mappings@.len() as int)->0;
                lemma_owner(mappings@, a as int, mappings@.len() as int);
                lemma_page_of_region(mappings@[k], a as int);
            }
        }
    }

    /// Called before each iteration: captures the baseline on the first call
    /// (and returns `None`), restores it on every later one (and returns what
    /// the backend must do). `mappings` is read on the first call only.
    pub fn pre_exec(&mut self, brk: u64, mappings: &Vec<MapRegion>) -> (r: Option<ResetActions>)
        requires
            old(self)@.wf(),
            old(self)@.empty ==> forall|i: int| 0 <= i < mappings@.len() ==> region_ok(#[trigger] mappings@[i]),
        ensures
            final(self)@.wf(),
            !final(self)@.empty,
            old(self)@.empty ==> r is None && final(self)@ == old(self)@.snapshot_spec(
                brk,
                final(self)@.pages,
            ) && captures(final(self)@.pages, mappings@),
            !old(self)@.empty ==> r is Some && final(self)@ == old(self)@.reset_spec() && r->0.writes@
                == restore_writes(old(self)@.pages, old(self)@.dirty) && r->0.brk == old(self)@.brk && exists|
                changes: Seq<MapChange>,
            |
                #![trigger reconcile_prots(old(self)@.pages, changes)]
                lists_pending(old(self)@.ledger, changes) && r->0.protections@ == reconcile_prots(
                    old(self)@.pages,
                    changes,
                ) && r->0.unmaps@ == reconcile_runs(old(self)@.pages, changes),
    {
        if self.empty {
            self.snapshot(brk, mappings);
            None
        } else {
            Some(self.reset())
        }
    }
}

} // verus!
