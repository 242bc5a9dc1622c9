//! Walking the heap slot by slot and keeping the best of what is found.
use vstd::prelude::*;

use crate::memory::{self, MonoReader};

verus! {

/// Objects are aligned to this many bytes, and the heap is looked at in steps of it.
pub const SLOT: usize = 8;

/// A list of heap regions, each given by its first address and the address
/// behind its last one, in which no region ends before it starts.
pub open spec fn regions_ok(regions: Seq<(u64, u64)>) -> bool {
    forall|i: int| 0 <= i < regions.len() ==> (#[trigger] regions[i]).0 <= regions[i].1
}

/// How many slots of a region of `size` bytes leave room for `span` bytes.
pub open spec fn slot_count(size: int, span: int) -> int {
    if size >= span {
        (size - span) / (SLOT as int) + 1
    } else {
        0
    }
}

/// The addresses of those of the first `n` slots from `start` on that are wanted.
pub open spec fn slot_hits(wanted: spec_fn(int) -> bool, start: int, n: int) -> Seq<int>
    decreases n,
{
    if n <= 0 {
        Seq::empty()
    } else {
        let a = start + SLOT * (n - 1);
        let before = slot_hits(wanted, start, n - 1);
        if wanted(a) {
            before.push(a)
        } else {
            before
        }
    }
}

/// The wanted slots of a region; none where part of the region cannot be read.
pub open spec fn region_hits(
    mem: Map<int, u8>,
    region: (u64, u64),
    span: int,
    wanted: spec_fn(int) -> bool,
) -> Seq<int> {
    let size = region.1 - region.0;
    if memory::mapped(mem, region.0 as int, size) {
        slot_hits(wanted, region.0 as int, slot_count(size, span))
    } else {
        Seq::empty()
    }
}

/// The wanted slots of a list of regions, in the order of the walk.
pub open spec fn heap_hits(
    mem: Map<int, u8>,
    regions: Seq<(u64, u64)>,
    span: int,
    wanted: spec_fn(int) -> bool,
) -> Seq<int>
    decreases regions.len(),
{
    if regions.len() == 0 {
        Seq::empty()
    } else {
        heap_hits(mem, regions.drop_last(), span, wanted) + region_hits(
            mem,
            regions.last(),
            span,
            wanted,
        )
    }
}

/// What is left of `hits` when a later one takes the place of an earlier one
/// only where it is better.
pub open spec fn best_of(hits: Seq<int>, better: spec_fn(int, int) -> bool) -> Option<int>
    decreases hits.len(),
{
    if hits.len() == 0 {
        None
    } else {
        match best_of(hits.drop_last(), better) {
            None => Some(hits.last()),
            Some(best) => if better(hits.last(), best) {
                Some(hits.last())
            } else {
                Some(best)
            },
        }
    }
}

/// `better` compares by some rank, of which the greater is better.
pub open spec fn ranks(better: spec_fn(int, int) -> bool) -> bool {
    &&& forall|a: int, b: int| #[trigger] better(a, b) ==> !better(b, a)
    &&& forall|a: int, b: int, c: int| #[trigger]
        better(a, b) && !#[trigger] better(c, b) ==> better(a, c)
    &&& forall|a: int, b: int, c: int| #[trigger]
        better(a, b) && #[trigger] better(b, c) ==> better(a, c)
}

/// Position `k` of `hits` holds the first of the best ones.
pub open spec fn is_first_best(hits: Seq<int>, better: spec_fn(int, int) -> bool, k: int) -> bool {
    &&& 0 <= k < hits.len()
    &&& forall|j: int| 0 <= j < k ==> better(hits[k], #[trigger] hits[j])
    &&& forall|j: int| k < j < hits.len() ==> !better(#[trigger] hits[j], hits[k])
}

/// What a scan keeps is the first of the best hits: none before it is as good,
/// and none behind it is better. There is one as soon as there is a hit.
pub proof fn law_best_is_first_best(hits: Seq<int>, better: spec_fn(int, int) -> bool)
    requires
        ranks(better),
    ensures
        match best_of(hits, better) {
            None => hits.len() == 0,
            Some(best) => exists|k: int| is_first_best(hits, better, k) && hits[k] == best,
        },
    decreases hits.len(),
{
    if hits.len() > 0 {
        let before = hits.drop_last();
        law_best_is_first_best(before, better);
        let last = hits.len() - 1;
        match best_of(before, better) {
            None => {
                assert(is_first_best(hits, better, last));
            },
            Some(best) => {
                let k = choose|k: int| is_first_best(before, better, k) && before[k] == best;
                assert(hits[k] == best);
                if better(hits.last(), best) {
                    assert forall|j: int| 0 <= j < last implies better(
                        hits[last],
                        #[trigger] hits[j],
                    ) by {
                        assert(before[j] == hits[j]);
                    }
                    assert(is_first_best(hits, better, last));
                } else {
                    assert forall|j: int| 0 <= j < k implies better(hits[k], #[trigger] hits[j]) by {
                        assert(before[j] == hits[j]);
                    }
                    assert forall|j: int| k < j < hits.len() implies !better(
                        #[trigger] hits[j],
                        hits[k],
                    ) by {
                        if j < last {
                            assert(before[j] == hits[j]);
                        }
                    }
                    assert(is_first_best(hits, better, k));
                }
            },
        }
    }
}

/// Only one position holds the first of the best hits.
pub proof fn law_first_best_is_unique(
    hits: Seq<int>,
    better: spec_fn(int, int) -> bool,
    j: int,
    k: int,
)
    requires
        is_first_best(hits, better, j),
        is_first_best(hits, better, k),
    ensures
        j == k,
{
    if j < k {
        assert(better(hits[k], hits[j]));
    } else if k < j {
        assert(better(hits[j], hits[k]));
    }
}

/// Every hit of a region is a wanted slot with room for the span in it.
proof fn lemma_slot_hits(wanted: spec_fn(int) -> bool, start: int, n: int, k: int)
    requires
        0 <= k < slot_hits(wanted, start, n).len(),
    ensures
        wanted(slot_hits(wanted, start, n)[k]),
        exists|i: int| 0 <= i < n && slot_hits(wanted, start, n)[k] == #[trigger] (start + SLOT * i),
    decreases n,
{
    let before = slot_hits(wanted, start, n - 1);
    if k < before.len() {
        lemma_slot_hits(wanted, start, n - 1, k);
        let i = choose|i: int| 0 <= i < n - 1 && before[k] == #[trigger] (start + SLOT * i);
        assert(slot_hits(wanted, start, n)[k] == start + SLOT * i);
    } else {
        assert(slot_hits(wanted, start, n)[k] == start + SLOT * (n - 1));
    }
}

/// Every hit of a heap walk is wanted, and the bytes that its span covers are
/// in the image and inside one of the regions.
pub proof fn law_hits_are_wanted(
    mem: Map<int, u8>,
    regions: Seq<(u64, u64)>,
    span: int,
    wanted: spec_fn(int) -> bool,
    k: int,
)
    requires
        span >= 0,
        0 <= k < heap_hits(mem, regions, span, wanted).len(),
    ensures
        ({
            let a = heap_hits(mem, regions, span, wanted)[k];
            &&& wanted(a)
            &&& memory::mapped(mem, a, span)
            &&& exists|r: int|
                0 <= r < regions.len() && (#[trigger] regions[r]).0 <= a && a + span <= regions[r].1
        }),
    decreases regions.len(),
{
    let hits = heap_hits(mem, regions, span, wanted);
    let before = heap_hits(mem, regions.drop_last(), span, wanted);
    let a = hits[k];
    if k < before.len() {
        law_hits_are_wanted(mem, regions.drop_last(), span, wanted, k);
        let r = choose|r: int|
            0 <= r < regions.drop_last().len() && (#[trigger] regions.drop_last()[r]).0 <= a && a
                + span <= regions.drop_last()[r].1;
        assert(regions[r] == regions.drop_last()[r]);
    } else {
        let region = regions.last();
        let size = region.1 - region.0;
        let n = slot_count(size, span);
        lemma_slot_hits(wanted, region.0 as int, n, k - before.len());
        let i = choose|i: int| 0 <= i < n && a == #[trigger] (region.0 + SLOT * i);
        assert(SLOT * i + span <= size);
        assert(regions[regions.len() - 1] == region);
    }
}

/// What is kept of hits is one of them.
pub proof fn lemma_best_is_hit(hits: Seq<int>, better: spec_fn(int, int) -> bool)
    ensures
        match best_of(hits, better) {
            None => hits.len() == 0,
            Some(best) => hits.contains(best),
        },
    decreases hits.len(),
{
    if hits.len() > 0 {
        lemma_best_is_hit(hits.drop_last(), better);
        match best_of(hits.drop_last(), better) {
            None => {},
            Some(best) => {
                let k = hits.drop_last().index_of(best);
                assert(hits[k] == best);
            },
        }
        assert(hits[hits.len() - 1] == hits.last());
    }
}

/// One more slot of a region.
pub(crate) proof fn lemma_next_slot(
    seen: Seq<int>,
    wanted: spec_fn(int) -> bool,
    better: spec_fn(int, int) -> bool,
    start: int,
    i: int,
)
    requires
        i >= 0,
    ensures
        ({
            let before = best_of(seen + slot_hits(wanted, start, i), better);
            let after = best_of(seen + slot_hits(wanted, start, i + 1), better);
            let a = start + SLOT * i;
            after == (if !wanted(a) {
                before
            } else {
                match before {
                    None => Some(a),
                    Some(best) => if better(a, best) {
                        Some(a)
                    } else {
                        before
                    },
                }
            })
        }),
{
    let a = start + SLOT * i;
    let hits = slot_hits(wanted, start, i);
    if wanted(a) {
        let all = seen + hits.push(a);
        assert(all.drop_last() =~= seen + hits);
        assert(all.last() == a);
    }
}

/// One more region.
pub(crate) proof fn lemma_next_region(
    mem: Map<int, u8>,
    regions: Seq<(u64, u64)>,
    span: int,
    wanted: spec_fn(int) -> bool,
    r: int,
)
    requires
        0 <= r < regions.len(),
    ensures
        heap_hits(mem, regions.take(r + 1), span, wanted) == heap_hits(
            mem,
            regions.take(r),
            span,
            wanted,
        ) + region_hits(mem, regions[r], span, wanted),
{
    assert(regions.take(r + 1).drop_last() =~= regions.take(r));
}

/// The bytes of a region, or `None` where part of it cannot be read.
pub fn region_bytes(reader: &MonoReader, region: (u64, u64)) -> (res: Option<Vec<u8>>)
    requires
        region.0 <= region.1,
    ensures
        ({
            let size = region.1 - region.0;
            match res {
                Some(buf) => {
                    &&& memory::mapped(reader@, region.0 as int, size)
                    &&& buf@ == memory::bytes_at(reader@, region.0 as int, size)
                },
                None => !memory::mapped(reader@, region.0 as int, size),
            }
        }),
{
    let size: u64 = region.1 - region.0;
    let buf: Vec<u8> = reader.read_bytes(region.0, size);
    if buf.len() as u64 != size {
        return None;
    }
    assert(memory::bytes_at(reader@, region.0 as int, size as int).len() == size);
    Some(buf)
}

/// A slot of a region that can be read, with room for the span in it.
pub open spec fn is_slot(
    mem: Map<int, u8>,
    regions: Seq<(u64, u64)>,
    span: int,
    r: int,
    i: int,
) -> bool {
    &&& 0 <= r < regions.len()
    &&& regions[r].0 <= regions[r].1
    &&& memory::mapped(mem, regions[r].0 as int, regions[r].1 - regions[r].0)
    &&& 0 <= i
    &&& regions[r].0 + SLOT * i + span <= regions[r].1
}

/// A heap walk misses nothing: every wanted slot of a region that can be read
/// is among its hits.
pub proof fn law_wanted_slot_is_hit(
    mem: Map<int, u8>,
    regions: Seq<(u64, u64)>,
    span: int,
    wanted: spec_fn(int) -> bool,
    r: int,
    i: int,
)
    requires
        span >= 0,
        is_slot(mem, regions, span, r, i),
        wanted(regions[r].0 + SLOT * i),
    ensures
        heap_hits(mem, regions, span, wanted).contains(regions[r].0 + SLOT * i),
    decreases regions.len(),
{
    let a = regions[r].0 + SLOT * i;
    let before = heap_hits(mem, regions.drop_last(), span, wanted);
    let last = region_hits(mem, regions.last(), span, wanted);
    let all = heap_hits(mem, regions, span, wanted);
    if r < regions.len() - 1 {
        assert(regions.drop_last()[r] == regions[r]);
        law_wanted_slot_is_hit(mem, regions.drop_last(), span, wanted, r, i);
        let k = before.index_of(a);
        assert(all[k] == a);
    } else {
        let size = regions[r].1 - regions[r].0;
        assert(i < slot_count(size, span));
        lemma_slot_is_hit(wanted, regions[r].0 as int, slot_count(size, span), i);
        let k = last.index_of(a);
        assert(all[before.len() + k] == a);
    }
}

proof fn lemma_slot_is_hit(wanted: spec_fn(int) -> bool, start: int, n: int, i: int)
    requires
        0 <= i < n,
        wanted(start + SLOT * i),
    ensures
        slot_hits(wanted, start, n).contains(start + SLOT * i),
    decreases n,
{
    let a = start + SLOT * i;
    let before = slot_hits(wanted, start, n - 1);
    let all = slot_hits(wanted, start, n);
    if i < n - 1 {
        lemma_slot_is_hit(wanted, start, n - 1, i);
        let k = before.index_of(a);
        assert(all[k] == a);
    } else {
        assert(all.last() == a);
        assert(all[all.len() - 1] == a);
    }
}

/// No hit is better than what a scan keeps.
pub proof fn law_no_hit_is_better(hits: Seq<int>, better: spec_fn(int, int) -> bool, a: int)
    requires
        ranks(better),
        hits.contains(a),
    ensures
        best_of(hits, better) matches Some(best) && !better(a, best),
{
    law_best_is_first_best(hits, better);
    match best_of(hits, better) {
        None => {},
        Some(best) => {
            let k = choose|k: int| is_first_best(hits, better, k) && hits[k] == best;
            let j = hits.index_of(a);
            assert(hits[j] == a);
            if j < k {
                assert(better(hits[k], hits[j]));
            } else if j == k {
                if better(a, a) {
                    assert(!better(a, a));
                }
            } else {
                assert(!better(hits[j], hits[k]));
            }
        },
    }
}

/// `a` is a place where a scan looks: a multiple of 8 bytes behind the start of
/// region `r`, the `i`th of them, with `span` bytes of the region from there on.
/// All of the region is in the image.
pub open spec fn is_place(
    mem: Map<int, u8>,
    regions: Seq<(u64, u64)>,
    span: int,
    r: int,
    i: int,
    a: int,
) -> bool {
    &&& 0 <= r < regions.len()
    &&& 0 <= i
    &&& a == regions[r].0 + 8 * i
    &&& a + span <= regions[r].1
    &&& forall|b: int| regions[r].0 <= b < regions[r].1 ==> #[trigger] mem.contains_key(b)
}

/// Place `i` of region `r` comes before place `j` of region `q`.
pub open spec fn comes_before(r: int, i: int, q: int, j: int) -> bool {
    r < q || (r == q && i < j)
}

/// The place `i` of region `r`, at `a`, is wanted, is better than every wanted
/// place before it, and no wanted place behind it is better.
pub open spec fn is_first_best_place(
    mem: Map<int, u8>,
    regions: Seq<(u64, u64)>,
    span: int,
    wanted: spec_fn(int) -> bool,
    better: spec_fn(int, int) -> bool,
    r: int,
    i: int,
    a: int,
) -> bool {
    &&& is_place(mem, regions, span, r, i, a)
    &&& wanted(a)
    &&& forall|q: int, j: int, b: int| #[trigger]
        is_place(mem, regions, span, q, j, b) && wanted(b) ==> if comes_before(q, j, r, i) {
            better(a, b)
        } else {
            !better(b, a)
        }
}

/// `best` is the best of the wanted places before place `stop` of region `end`.
spec fn is_kept(
    mem: Map<int, u8>,
    regions: Seq<(u64, u64)>,
    span: int,
    wanted: spec_fn(int) -> bool,
    better: spec_fn(int, int) -> bool,
    end: int,
    stop: int,
    best: Option<int>,
) -> bool {
    &&& best is None ==> forall|q: int, j: int, b: int| #[trigger]
        is_place(mem, regions, span, q, j, b) && comes_before(q, j, end, stop) ==> !wanted(b)
    &&& best is Some ==> exists|r: int, i: int| #[trigger]
        is_kept_at(mem, regions, span, wanted, better, end, stop, r, i, best->0)
}

spec fn is_kept_at(
    mem: Map<int, u8>,
    regions: Seq<(u64, u64)>,
    span: int,
    wanted: spec_fn(int) -> bool,
    better: spec_fn(int, int) -> bool,
    end: int,
    stop: int,
    r: int,
    i: int,
    a: int,
) -> bool {
    &&& is_place(mem, regions, span, r, i, a)
    &&& comes_before(r, i, end, stop)
    &&& wanted(a)
    &&& forall|q: int, j: int, b: int| #[trigger]
        is_place(mem, regions, span, q, j, b) && comes_before(q, j, end, stop) && wanted(b) ==> if
        comes_before(q, j, r, i) {
            better(a, b)
        } else {
            !better(b, a)
        }
}

/// What a scan keeps is the first of the best wanted places of the heap, in the
/// order of the regions and of the addresses in each; it keeps none only where
/// no place is wanted.
pub proof fn law_scan_keeps_first_best_place(
    mem: Map<int, u8>,
    regions: Seq<(u64, u64)>,
    span: int,
    wanted: spec_fn(int) -> bool,
    better: spec_fn(int, int) -> bool,
)
    requires
        span >= 0,
        ranks(better),
    ensures
        match best_of(heap_hits(mem, regions, span, wanted), better) {
            None => forall|r: int, i: int, a: int| #[trigger]
                is_place(mem, regions, span, r, i, a) ==> !wanted(a),
            Some(a) => exists|r: int, i: int| #[trigger]
                is_first_best_place(mem, regions, span, wanted, better, r, i, a),
        },
{
    let n = regions.len() as int;
    lemma_kept_of_regions(mem, regions, span, wanted, better, n);
    assert(regions.take(n) =~= regions);
    match best_of(heap_hits(mem, regions, span, wanted), better) {
        None => {},
        Some(a) => {
            let (r, i) = choose|r: int, i: int| #[trigger]
                is_kept_at(mem, regions, span, wanted, better, n, 0, r, i, a);
            assert(is_first_best_place(mem, regions, span, wanted, better, r, i, a));
        },
    }
}

proof fn lemma_kept_of_regions(
    mem: Map<int, u8>,
    regions: Seq<(u64, u64)>,
    span: int,
    wanted: spec_fn(int) -> bool,
    better: spec_fn(int, int) -> bool,
    end: int,
)
    requires
        0 <= end <= regions.len(),
        span >= 0,
        ranks(better),
    ensures
        is_kept(
            mem,
            regions,
            span,
            wanted,
            better,
            end,
            0,
            best_of(heap_hits(mem, regions.take(end), span, wanted), better),
        ),
    decreases end,
{
    if end == 0 {
        assert(regions.take(0).len() == 0);
    } else {
        let r = end - 1;
        let seen = heap_hits(mem, regions.take(r), span, wanted);
        let size = regions[r].1 - regions[r].0;
        lemma_kept_of_regions(mem, regions, span, wanted, better, r);
        lemma_next_region(mem, regions, span, wanted, r);
        let n = if memory::mapped(mem, regions[r].0 as int, size) {
            slot_count(size, span)
        } else {
            0
        };
        let hits = slot_hits(wanted, regions[r].0 as int, n);
        assert(region_hits(mem, regions[r], span, wanted) == hits);
        lemma_kept_of_slots(mem, regions, span, wanted, better, r, seen, n);
        let best = best_of(seen + hits, better);
        assert forall|q: int, j: int, b: int| #[trigger]
            is_place(mem, regions, span, q, j, b) implies comes_before(q, j, end, 0)
            == comes_before(q, j, r, n) by {
            if q == r {
                assert(memory::mapped(mem, regions[r].0 as int, size));
                assert(8 * j + span <= size);
            }
        }
        match best {
            None => {},
            Some(a) => {
                let (s, i) = choose|s: int, i: int| #[trigger]
                    is_kept_at(mem, regions, span, wanted, better, r, n, s, i, a);
                assert(is_kept_at(mem, regions, span, wanted, better, end, 0, s, i, a));
            },
        }
    }
}

proof fn lemma_kept_at(
    mem: Map<int, u8>,
    regions: Seq<(u64, u64)>,
    span: int,
    wanted: spec_fn(int) -> bool,
    better: spec_fn(int, int) -> bool,
    end: int,
    stop: int,
    r: int,
    i: int,
    a: int,
)
    requires
        is_kept_at(mem, regions, span, wanted, better, end, stop, r, i, a),
    ensures
        is_kept(mem, regions, span, wanted, better, end, stop, Some(a)),
{
    let best = Some(a);
    assert(is_kept_at(mem, regions, span, wanted, better, end, stop, r, i, best->0));
}

proof fn lemma_kept_of_slots(
    mem: Map<int, u8>,
    regions: Seq<(u64, u64)>,
    span: int,
    wanted: spec_fn(int) -> bool,
    better: spec_fn(int, int) -> bool,
    r: int,
    seen: Seq<int>,
    n: int,
)
    requires
        0 <= r < regions.len(),
        span >= 0,
        ranks(better),
        is_kept(mem, regions, span, wanted, better, r, 0, best_of(seen, better)),
        0 <= n,
        n > 0 ==> {
            let size = regions[r].1 - regions[r].0;
            memory::mapped(mem, regions[r].0 as int, size) && n <= slot_count(size, span)
        },
    ensures
        is_kept(
            mem,
            regions,
            span,
            wanted,
            better,
            r,
            n,
            best_of(seen + slot_hits(wanted, regions[r].0 as int, n), better),
        ),
    decreases n,
{
    let start = regions[r].0 as int;
    if n == 0 {
        assert(seen + slot_hits(wanted, start, n) =~= seen);
    } else {
        let m = n - 1;
        let a = start + SLOT * m;
        lemma_kept_of_slots(mem, regions, span, wanted, better, r, seen, m);
        lemma_next_slot(seen, wanted, better, start, m);
        let before = best_of(seen + slot_hits(wanted, start, m), better);
        let after = best_of(seen + slot_hits(wanted, start, n), better);
        assert(is_place(mem, regions, span, r, m, a));
        assert forall|q: int, j: int, b: int| #[trigger]
            is_place(mem, regions, span, q, j, b) && comes_before(q, j, r, n) implies comes_before(
            q,
            j,
            r,
            m,
        ) || (q == r && j == m && b == a) by {}
        match before {
            None => {
                if wanted(a) {
                    assert(is_kept_at(mem, regions, span, wanted, better, r, n, r, m, a)) by {
                        assert(!better(a, a)) by {
                            if better(a, a) {
                                assert(!better(a, a));
                            }
                        }
                    }
                    lemma_kept_at(mem, regions, span, wanted, better, r, n, r, m, a);
                }
            },
            Some(best) => {
                let (s, i) = choose|s: int, i: int| #[trigger]
                    is_kept_at(mem, regions, span, wanted, better, r, m, s, i, best);
                if wanted(a) && better(a, best) {
                    assert(!better(a, a)) by {
                        if better(a, a) {
                            assert(!better(a, a));
                        }
                    }
                    assert forall|q: int, j: int, b: int| #[trigger]
                        is_place(mem, regions, span, q, j, b) && comes_before(q, j, r, n) && wanted(
                        b,
                    ) implies if comes_before(q, j, r, m) {
                        better(a, b)
                    } else {
                        !better(b, a)
                    } by {
                        if comes_before(q, j, r, m) {
                            if comes_before(q, j, s, i) {
                                assert(better(best, b));
                            } else {
                                assert(!better(b, best));
                            }
                        }
                    }
                    assert(is_kept_at(mem, regions, span, wanted, better, r, n, r, m, a));
                    lemma_kept_at(mem, regions, span, wanted, better, r, n, r, m, a);
                } else {
                    assert(is_kept_at(mem, regions, span, wanted, better, r, n, s, i, best));
                }
            },
        }
    }
}

} // verus!
