//! The regions of a process's address space, from the listing that `vmmap` prints.
use vstd::prelude::*;

use crate::heap;
use crate::text;

verus! {

/// Smaller regions are not scanned.
pub const MIN_REGION: u64 = 0x10_0000;

/// Larger regions are not scanned.
pub const MAX_REGION: u64 = 0x1_0000_0000;

/// A word that can be a range of addresses: it starts with a hexadecimal digit
/// and has exactly one dash.
pub open spec fn is_range_word(w: Seq<char>) -> bool {
    &&& w.len() > 0
    &&& text::digit_value(w[0]) < 16
    &&& exists|d: int| #[trigger] is_only_dash(w, d)
}

/// The dash at position `d` is the only one.
pub open spec fn is_only_dash(w: Seq<char>, d: int) -> bool {
    &&& 0 <= d < w.len()
    &&& forall|j: int| 0 <= j < w.len() ==> (#[trigger] w[j] == '-' <==> j == d)
}

/// The first of the words that can be a range.
pub open spec fn range_word(words: Seq<Seq<char>>) -> Option<Seq<char>>
    decreases words.len(),
{
    if words.len() == 0 {
        None
    } else if is_range_word(words[0]) {
        Some(words[0])
    } else {
        range_word(words.skip(1))
    }
}

/// An address, written in hexadecimal.
pub open spec fn address(s: Seq<char>) -> Option<int> {
    text::parsed(s, 16, u64::MAX as int)
}

/// The range of addresses that a word denotes: what stands before the dash and
/// what stands behind it.
pub open spec fn range_of_word(w: Seq<char>) -> Option<(u64, u64)> {
    let d = text::prefix_len(w, text::is_dash()) as int;
    match (address(w.take(d)), address(w.skip(d + 1))) {
        (Some(start), Some(end)) => if start < end {
            Some((start as u64, end as u64))
        } else {
            None
        },
        _ => None,
    }
}

/// The range of addresses that a line of the listing is about.
pub open spec fn range_of_line(line: Seq<char>) -> Option<(u64, u64)> {
    match range_word(text::words(line)) {
        Some(w) => range_of_word(w),
        None => None,
    }
}

/// The line is about a module of the runtime, whose data is not the program's.
pub open spec fn is_runtime_line(line: Seq<char>) -> bool {
    ||| text::occurs(line, "mono-2.0-bdwgc"@)
    ||| text::occurs(line, "UnityPlayer"@)
}

/// The heap region that a line is about: a writable range of a proper size
/// that belongs to no module of the runtime.
pub open spec fn heap_region_of_line(line: Seq<char>) -> Option<(u64, u64)> {
    if is_runtime_line(line) || !text::occurs(line, "rw-"@) {
        None
    } else {
        match range_of_line(line) {
            Some((start, end)) => if MIN_REGION <= end - start <= MAX_REGION {
                Some((start, end))
            } else {
                None
            },
            None => None,
        }
    }
}

/// The line shows a permission to read.
pub open spec fn is_readable_line(line: Seq<char>) -> bool {
    ||| text::occurs(line, "rw-"@)
    ||| text::occurs(line, "r--"@)
    ||| text::occurs(line, "r-x"@)
    ||| text::occurs(line, "rwx/"@)
}

/// The readable range that a line is about.
pub open spec fn readable_range_of_line(line: Seq<char>) -> Option<(u64, u64)> {
    if is_readable_line(line) {
        range_of_line(line)
    } else {
        None
    }
}

/// Order by the start, then by the end.
pub open spec fn before(a: (u64, u64), b: (u64, u64)) -> bool {
    a.0 < b.0 || (a.0 == b.0 && a.1 < b.1)
}

/// In ascending order, and no two alike.
pub open spec fn ascending(s: Seq<(u64, u64)>) -> bool {
    forall|i: int, j: int| 0 <= i < j < s.len() ==> before(#[trigger] s[i], #[trigger] s[j])
}

/// `regions` holds, in ascending order and each once, exactly the ranges that
/// `of_line` finds in the lines.
pub open spec fn holds_ranges(
    regions: Seq<(u64, u64)>,
    lines: Seq<Seq<char>>,
    of_line: spec_fn(Seq<char>) -> Option<(u64, u64)>,
) -> bool {
    &&& ascending(regions)
    &&& forall|r: (u64, u64)| #[trigger]
        regions.contains(r) <==> exists|k: int|
            0 <= k < lines.len() && of_line(#[trigger] lines[k]) == Some(r)
}

pub open spec fn heap_regions() -> spec_fn(Seq<char>) -> Option<(u64, u64)> {
    |line: Seq<char>| heap_region_of_line(line)
}

pub open spec fn readable_ranges() -> spec_fn(Seq<char>) -> Option<(u64, u64)> {
    |line: Seq<char>| readable_range_of_line(line)
}

/// Whatever is scanned is captured: a heap region is one of the readable ranges.
pub proof fn law_heap_regions_are_readable(
    heap: Seq<(u64, u64)>,
    readable: Seq<(u64, u64)>,
    lines: Seq<Seq<char>>,
    r: (u64, u64),
)
    requires
        holds_ranges(heap, lines, heap_regions()),
        holds_ranges(readable, lines, readable_ranges()),
        heap.contains(r),
    ensures
        readable.contains(r),
{
    let k = choose|k: int| 0 <= k < lines.len() && heap_regions()(#[trigger] lines[k]) == Some(r);
    assert(readable_ranges()(lines[k]) == Some(r));
}

/// What the lines say fixes the list of regions: neither the order of the
/// lines nor their number counts, only which ranges they are about.
pub proof fn law_regions_are_determined(
    a: Seq<(u64, u64)>,
    b: Seq<(u64, u64)>,
    lines_a: Seq<Seq<char>>,
    lines_b: Seq<Seq<char>>,
    of_line: spec_fn(Seq<char>) -> Option<(u64, u64)>,
)
    requires
        holds_ranges(a, lines_a, of_line),
        holds_ranges(b, lines_b, of_line),
        forall|line: Seq<char>| #[trigger] lines_a.contains(line) <==> lines_b.contains(line),
    ensures
        a == b,
{
    assert forall|r: (u64, u64)| #[trigger] a.contains(r) == b.contains(r) by {
        if a.contains(r) {
            let k = choose|k: int|
                0 <= k < lines_a.len() && of_line(#[trigger] lines_a[k]) == Some(r);
            assert(lines_a.contains(lines_a[k]));
            let j = choose|j: int| 0 <= j < lines_b.len() && lines_b[j] == lines_a[k];
            assert(of_line(lines_b[j]) == Some(r));
        }
        if b.contains(r) {
            let k = choose|k: int|
                0 <= k < lines_b.len() && of_line(#[trigger] lines_b[k]) == Some(r);
            assert(lines_b.contains(lines_b[k]));
            assert(lines_a.contains(lines_b[k]));
            let j = choose|j: int| 0 <= j < lines_a.len() && lines_a[j] == lines_b[k];
            assert(of_line(lines_a[j]) == Some(r));
        }
    }
    lemma_ascending_is_unique(a, b);
}

/// Two ascending lists of the same ranges are the same list.
proof fn lemma_ascending_is_unique(a: Seq<(u64, u64)>, b: Seq<(u64, u64)>)
    requires
        ascending(a),
        ascending(b),
        forall|r: (u64, u64)| #[trigger] a.contains(r) <==> b.contains(r),
    ensures
        a == b,
    decreases a.len(),
{
    if a.len() == 0 {
        if b.len() > 0 {
            assert(b.contains(b[0]));
            assert(a.contains(b[0]));
        }
        assert(a =~= b);
    } else {
        assert(a.contains(a.last()));
        assert(b.contains(a.last()));
        let j = choose|j: int| 0 <= j < b.len() && b[j] == a.last();
        assert(b.contains(b.last()));
        assert(a.contains(b.last()));
        let i = choose|i: int| 0 <= i < a.len() && a[i] == b.last();
        assert(a.last() == b.last()) by {
            if j < b.len() - 1 {
                assert(before(b[j], b[b.len() - 1]));
                assert(i < a.len() - 1 ==> before(a[i], a[a.len() - 1]));
            }
        }
        let a0 = a.drop_last();
        let b0 = b.drop_last();
        assert forall|r: (u64, u64)| #[trigger] a0.contains(r) <==> b0.contains(r) by {
            if a0.contains(r) {
                let k = choose|k: int| 0 <= k < a0.len() && a0[k] == r;
                assert(a[k] == r);
                assert(before(a[k], a[a.len() - 1]));
                assert(a.contains(r));
                assert(b.contains(r));
                let m = choose|m: int| 0 <= m < b.len() && b[m] == r;
                assert(b0[m] == r);
            }
            if b0.contains(r) {
                let k = choose|k: int| 0 <= k < b0.len() && b0[k] == r;
                assert(b[k] == r);
                assert(before(b[k], b[b.len() - 1]));
                assert(b.contains(r));
                assert(a.contains(r));
                let m = choose|m: int| 0 <= m < a.len() && a[m] == r;
                assert(a0[m] == r);
            }
        }
        lemma_ascending_is_unique(a0, b0);
        assert(a =~= a0.push(a.last()));
        assert(b =~= b0.push(b.last()));
    }
}

/// Adds a range to an ascending list, unless it is there.
fn insert_range(list: &mut Vec<(u64, u64)>, r: (u64, u64))
    requires
        ascending(old(list)@),
    ensures
        ascending(final(list)@),
        forall|x: (u64, u64)| #[trigger]
            final(list)@.contains(x) <==> old(list)@.contains(x) || x == r,
{
    let n: usize = list.len();
    let mut lo: usize = 0;
    let mut hi: usize = n;
    while lo < hi
        invariant
            lo <= hi <= n,
            n == list.len(),
            *list == *old(list),
            ascending(list@),
            forall|k: int| 0 <= k < lo ==> before(#[trigger] list@[k], r),
            forall|k: int| hi <= k < n ==> !before(#[trigger] list@[k], r),
        decreases hi - lo,
    {
        let mid: usize = lo + (hi - lo) / 2;
        let m: (u64, u64) = list[mid];
        if m.0 < r.0 || (m.0 == r.0 && m.1 < r.1) {
            lo = mid + 1;
        } else {
            hi = mid;
        }
    }
    if lo < n {
        let m: (u64, u64) = list[lo];
        if m.0 == r.0 && m.1 == r.1 {
            assert(list@[lo as int] == r);
            return;
        }
    }
    list.insert(lo, r);
    proof {
        let old_list = old(list)@;
        let new_list = list@;
        assert(new_list =~= old_list.insert(lo as int, r));
        assert forall|x: (u64, u64)| #[trigger] new_list.contains(x) <==> old_list.contains(x) || x
            == r by {
            if old_list.contains(x) {
                let k = choose|k: int| 0 <= k < old_list.len() && old_list[k] == x;
                assert(new_list[if k < lo {
                    k
                } else {
                    k + 1
                }] == x);
            }
            assert(new_list[lo as int] == r);
        }
        assert forall|i: int, j: int| 0 <= i < j < new_list.len() implies before(
            #[trigger] new_list[i],
            #[trigger] new_list[j],
        ) by {
            let oi = if i < lo {
                i
            } else {
                i - 1
            };
            let oj = if j < lo {
                j
            } else {
                j - 1
            };
            if i != lo && j != lo {
                assert(old_list[oi] == new_list[i]);
                assert(old_list[oj] == new_list[j]);
            } else if j == lo {
                assert(old_list[i] == new_list[i]);
            } else {
                assert(old_list[oj] == new_list[j]);
                assert(!before(old_list[oj], r));
                if oj > lo {
                    assert(before(old_list[lo as int], old_list[oj]));
                }
            }
        }
    }
}

/// The first word that can be a range, with the position of its dash.
fn find_range_word(words: &Vec<Vec<char>>) -> (res: Option<(usize, usize)>)
    ensures
        match res {
            Some((k, d)) => {
                &&& k < words.len()
                &&& range_word(text::texts(words@)) == Some(words@[k as int]@)
                &&& is_only_dash(words@[k as int]@, d as int)
                &&& text::prefix_len(words@[k as int]@, text::is_dash()) == d
            },
            None => range_word(text::texts(words@)) is None,
        },
{
    let n: usize = words.len();
    let ghost all = text::texts(words@);
    let mut k: usize = 0;
    assert(all.skip(0) =~= all);
    while k < n
        invariant
            k <= n,
            n == words.len(),
            all == text::texts(words@),
            range_word(all.skip(k as int)) == range_word(all),
        decreases n - k,
    {
        let ghost rest = all.skip(k as int);
        assert(rest[0] == words@[k as int]@);
        assert(rest.skip(1) =~= all.skip(k + 1));
        match only_dash(&words[k]) {
            Some(d) => {
                if text::is_hex_digit(words[k][0]) {
                    return Some((k, d));
                }
            },
            None => {},
        }
        k = k + 1;
    }
    assert(all.skip(n as int).len() == 0);
    None
}

/// The position of the dash in a word that has exactly one.
fn only_dash(w: &Vec<char>) -> (res: Option<usize>)
    ensures
        match res {
            Some(d) => is_only_dash(w@, d as int) && text::prefix_len(w@, text::is_dash()) == d,
            None => forall|d: int| !#[trigger] is_only_dash(w@, d),
        },
{
    let n: usize = w.len();
    let mut found: Option<usize> = None;
    let mut i: usize = 0;
    while i < n
        invariant
            i <= n,
            n == w.len(),
            match found {
                Some(d) => d < i && forall|j: int|
                    0 <= j < i ==> (#[trigger] w@[j] == '-' <==> j == d),
                None => forall|j: int| 0 <= j < i ==> #[trigger] w@[j] != '-',
            },
        decreases n - i,
    {
        if w[i] == '-' {
            match found {
                Some(d) => {
                    assert forall|e: int| !#[trigger] is_only_dash(w@, e) by {
                        assert(w@[d as int] == '-');
                        assert(w@[i as int] == '-');
                    }
                    return None;
                },
                None => {
                    found = Some(i);
                },
            }
        }
        i = i + 1;
    }
    match found {
        Some(d) => {
            proof {
                assert(is_only_dash(w@, d as int));
                assert forall|j: int| 0 <= j < d implies !text::is_dash()(#[trigger] w@[j]) by {}
                text::lemma_prefix_len(w@, text::is_dash(), d as int);
            }
        },
        None => {
            assert forall|e: int| !#[trigger] is_only_dash(w@, e) by {
                if 0 <= e < w@.len() {
                    assert(w@[e] != '-');
                }
            }
        },
    }
    found
}

/// The range of addresses that a line is about.
fn read_range(line: &Vec<char>) -> (res: Option<(u64, u64)>)
    ensures
        res == range_of_line(line@),
        res matches Some((start, end)) ==> start < end,
{
    let words: Vec<Vec<char>> = text::split_words(line);
    match find_range_word(&words) {
        None => None,
        Some((k, d)) => {
            let w: &Vec<char> = &words[k];
            let left: Vec<char> = text::part(w, 0, d);
            let right: Vec<char> = text::part(w, d + 1, w.len());
            assert(left@ =~= w@.take(d as int));
            assert(right@ =~= w@.skip(d + 1));
            match (text::parse(&left, 16, u64::MAX), text::parse(&right, 16, u64::MAX)) {
                (Some(start), Some(end)) => {
                    if end <= start {
                        None
                    } else {
                        Some((start, end))
                    }
                },
                _ => None,
            }
        },
    }
}

/// The heap region that a line is about.
fn read_heap_region(line: &Vec<char>) -> (res: Option<(u64, u64)>)
    ensures
        res == heap_region_of_line(line@),
{
    if text::contains_str(line, "mono-2.0-bdwgc") || text::contains_str(line, "UnityPlayer") {
        return None;
    }
    if !text::contains_str(line, "rw-") {
        return None;
    }
    match read_range(line) {
        None => None,
        Some((start, end)) => {
            let size: u64 = end - start;
            if size < MIN_REGION || size > MAX_REGION {
                None
            } else {
                Some((start, end))
            }
        },
    }
}

/// The readable range that a line is about.
fn read_readable_range(line: &Vec<char>) -> (res: Option<(u64, u64)>)
    ensures
        res == readable_range_of_line(line@),
{
    if text::contains_str(line, "rw-") || text::contains_str(line, "r--") || text::contains_str(
        line,
        "r-x",
    ) || text::contains_str(line, "rwx/") {
        read_range(line)
    } else {
        None
    }
}

/// The heap regions that a listing shows.
pub fn heap_regions_in(listing: &str) -> (res: Vec<(u64, u64)>)
    ensures
        holds_ranges(res@, text::lines(listing@), heap_regions()),
        forall|i: int|
            0 <= i < res.len() ==> MIN_REGION <= (#[trigger] res@[i]).1 - res@[i].0 <= MAX_REGION,
        heap::regions_ok(res@),
{
    let lines: Vec<Vec<char>> = text::split_lines(&text::chars_of(listing));
    let ghost all = text::lines(listing@);
    let mut res: Vec<(u64, u64)> = Vec::new();
    let mut k: usize = 0;
    assert(text::texts(lines@) == all);
    while k < lines.len()
        invariant
            k <= lines.len(),
            all == text::texts(lines@),
            holds_ranges(res@, all.take(k as int), heap_regions()),
        decreases lines.len() - k,
    {
        let found: Option<(u64, u64)> = read_heap_region(&lines[k]);
        let ghost seen = res@;
        assert(all[k as int] == lines@[k as int]@);
        match found {
            Some(r) => {
                insert_range(&mut res, r);
            },
            None => {},
        }
        proof {
            lemma_one_more_line(seen, res@, all, k as int, heap_regions());
        }
        k = k + 1;
    }
    proof {
        assert(all.take(lines@.len() as int) =~= all);
        assert forall|i: int| 0 <= i < res.len() implies MIN_REGION <= (#[trigger] res@[i]).1
            - res@[i].0 <= MAX_REGION by {
            assert(res@.contains(res@[i]));
        }
    }
    res
}

/// The readable ranges that a listing shows.
pub fn readable_ranges_in(listing: &str) -> (res: Vec<(u64, u64)>)
    ensures
        holds_ranges(res@, text::lines(listing@), readable_ranges()),
{
    let lines: Vec<Vec<char>> = text::split_lines(&text::chars_of(listing));
    let ghost all = text::lines(listing@);
    let mut res: Vec<(u64, u64)> = Vec::new();
    let mut k: usize = 0;
    assert(text::texts(lines@) == all);
    while k < lines.len()
        invariant
            k <= lines.len(),
            all == text::texts(lines@),
            holds_ranges(res@, all.take(k as int), readable_ranges()),
        decreases lines.len() - k,
    {
        let found: Option<(u64, u64)> = read_readable_range(&lines[k]);
        let ghost seen = res@;
        assert(all[k as int] == lines@[k as int]@);
        match found {
            Some(r) => {
                insert_range(&mut res, r);
            },
            None => {},
        }
        proof {
            lemma_one_more_line(seen, res@, all, k as int, readable_ranges());
        }
        k = k + 1;
    }
    assert(all.take(lines@.len() as int) =~= all);
    res
}

/// One more line adds the range that it is about.
proof fn lemma_one_more_line(
    seen: Seq<(u64, u64)>,
    now: Seq<(u64, u64)>,
    all: Seq<Seq<char>>,
    k: int,
    of_line: spec_fn(Seq<char>) -> Option<(u64, u64)>,
)
    requires
        0 <= k < all.len(),
        holds_ranges(seen, all.take(k), of_line),
        ascending(now),
        forall|x: (u64, u64)| #[trigger]
            now.contains(x) <==> seen.contains(x) || of_line(all[k]) == Some(x),
    ensures
        holds_ranges(now, all.take(k + 1), of_line),
{
    let head = all.take(k);
    let more = all.take(k + 1);
    assert forall|r: (u64, u64)| #[trigger] now.contains(r) <==> exists|j: int|
        0 <= j < more.len() && of_line(#[trigger] more[j]) == Some(r) by {
        if seen.contains(r) {
            let j = choose|j: int| 0 <= j < head.len() && of_line(#[trigger] head[j]) == Some(r);
            assert(more[j] == head[j]);
        }
        if of_line(all[k]) == Some(r) {
            assert(more[k] == all[k]);
        }
        if exists|j: int| 0 <= j < more.len() && of_line(#[trigger] more[j]) == Some(r) {
            let j = choose|j: int| 0 <= j < more.len() && of_line(#[trigger] more[j]) == Some(r);
            if j < k {
                assert(head[j] == more[j]);
            } else {
                assert(more[j] == all[k]);
            }
        }
    }
}

/// Finds the heap regions to scan in what `vmmap` printed; there are none where
/// it could not be run.
pub fn find_scannable_heap_regions(vmmap_stdout: Option<&Vec<u8>>) -> (res: Vec<(u64, u64)>)
    ensures
        match vmmap_stdout {
            Some(bytes) => {
                &&& holds_ranges(res@, text::lines(text::lossy_text(bytes@)), heap_regions())
                &&& vstd::utf8::valid_utf8(bytes@) ==> text::lossy_text(bytes@)
                    == vstd::utf8::decode_utf8(bytes@)
            },
            None => res@.len() == 0,
        },
        forall|i: int|
            0 <= i < res.len() ==> MIN_REGION <= (#[trigger] res@[i]).1 - res@[i].0 <= MAX_REGION,
        heap::regions_ok(res@),
{
    match vmmap_stdout {
        None => Vec::new(),
        Some(bytes) => {
            let listing: String = text::text_of(bytes);
            heap_regions_in(listing.as_str())
        },
    }
}

/// Finds the readable ranges in what `vmmap` printed: what there is to capture.
pub fn find_readable_ranges(vmmap_stdout: Option<&Vec<u8>>) -> (res: Vec<(u64, u64)>)
    ensures
        match vmmap_stdout {
            Some(bytes) => {
                &&& holds_ranges(res@, text::lines(text::lossy_text(bytes@)), readable_ranges())
                &&& vstd::utf8::valid_utf8(bytes@) ==> text::lossy_text(bytes@)
                    == vstd::utf8::decode_utf8(bytes@)
            },
            None => res@.len() == 0,
        },
{
    match vmmap_stdout {
        None => Vec::new(),
        Some(bytes) => {
            let listing: String = text::text_of(bytes);
            readable_ranges_in(listing.as_str())
        },
    }
}

/// The word is made of two parts with a dash between them, neither of which has
/// another one, and starts with a hexadecimal digit.
pub open spec fn is_range(word: Seq<char>, left: Seq<char>, right: Seq<char>) -> bool {
    &&& word == left + seq!['-'] + right
    &&& !left.contains('-')
    &&& !right.contains('-')
    &&& left.len() > 0
    &&& text::digit_value(left[0]) < 16
}

/// Word `k` of the line is its first range of addresses.
pub open spec fn is_first_range(
    line: Seq<char>,
    k: int,
    left: Seq<char>,
    right: Seq<char>,
) -> bool {
    let words = text::words(line);
    &&& 0 <= k < words.len()
    &&& is_range(words[k], left, right)
    &&& forall|j: int, l: Seq<char>, r: Seq<char>|
        0 <= j < k ==> !#[trigger] is_range(words[j], l, r)
}

/// The line is about the addresses from `start` to `end`: its first range has
/// them as hexadecimal numbers of at most 64 bits.
pub open spec fn is_about(line: Seq<char>, start: u64, end: u64) -> bool {
    exists|k: int, left: Seq<char>, right: Seq<char>| #[trigger]
        is_first_range(line, k, left, right) && text::parsed(left, 16, 0xFFFF_FFFF_FFFF_FFFF)
            == Some(start as int) && text::parsed(right, 16, 0xFFFF_FFFF_FFFF_FFFF) == Some(
            end as int,
        )
}

/// A word that can be a range has one dash, and is cut there.
proof fn lemma_is_range(w: Seq<char>)
    ensures
        is_range_word(w) <==> exists|left: Seq<char>, right: Seq<char>| #[trigger]
            is_range(w, left, right),
        forall|left: Seq<char>, right: Seq<char>| #[trigger]
            is_range(w, left, right) ==> {
                let d = text::prefix_len(w, text::is_dash()) as int;
                left == w.take(d) && right == w.skip(d + 1)
            },
{
    if is_range_word(w) {
        let d = choose|d: int| #[trigger] is_only_dash(w, d);
        let left = w.take(d);
        let right = w.skip(d + 1);
        assert(w[d] == '-');
        assert(w =~= left + seq!['-'] + right);
        assert(!left.contains('-')) by {
            if left.contains('-') {
                let j = left.index_of('-');
                assert(w[j] == '-');
            }
        }
        assert(!right.contains('-')) by {
            if right.contains('-') {
                let j = right.index_of('-');
                assert(w[d + 1 + j] == '-');
            }
        }
        assert(d > 0) by {
            if d == 0 {
                assert(w[0] == '-');
            }
        }
        assert(is_range(w, left, right));
    }
    assert forall|left: Seq<char>, right: Seq<char>| #[trigger] is_range(w, left, right) implies {
        let d = text::prefix_len(w, text::is_dash()) as int;
        &&& left == w.take(d)
        &&& right == w.skip(d + 1)
        &&& is_range_word(w)
    } by {
        let d = left.len() as int;
        assert(w.take(d) =~= left);
        assert(w.skip(d + 1) =~= right);
        assert forall|j: int| 0 <= j < w.len() implies (#[trigger] w[j] == '-' <==> j == d) by {
            if j < d {
                assert(w[j] == left[j]);
                assert(left.contains(left[j]));
            } else if j > d {
                assert(w[j] == right[j - d - 1]);
                assert(right.contains(right[j - d - 1]));
            }
        }
        assert(is_only_dash(w, d));
        assert(w[0] == left[0]);
        assert forall|j: int| 0 <= j < d implies !text::is_dash()(#[trigger] w[j]) by {}
        text::lemma_prefix_len(w, text::is_dash(), d);
    }
}

/// The word found is the first of the words that can be a range.
proof fn lemma_first_range_word(words: Seq<Seq<char>>)
    ensures
        match range_word(words) {
            Some(w) => exists|k: int|
                {
                    &&& 0 <= k < words.len()
                    &&& #[trigger] words[k] == w
                    &&& is_range_word(w)
                    &&& forall|j: int| 0 <= j < k ==> !is_range_word(#[trigger] words[j])
                },
            None => forall|j: int| 0 <= j < words.len() ==> !is_range_word(#[trigger] words[j]),
        },
    decreases words.len(),
{
    if words.len() > 0 && !is_range_word(words[0]) {
        let rest = words.skip(1);
        lemma_first_range_word(rest);
        match range_word(rest) {
            Some(w) => {
                let k = choose|k: int|
                    {
                        &&& 0 <= k < rest.len()
                        &&& #[trigger] rest[k] == w
                        &&& is_range_word(w)
                        &&& forall|j: int| 0 <= j < k ==> !is_range_word(#[trigger] rest[j])
                    };
                assert(words[k + 1] == w);
                assert forall|j: int| 0 <= j < k + 1 implies !is_range_word(#[trigger] words[j]) by {
                    if j > 0 {
                        assert(rest[j - 1] == words[j]);
                    }
                }
            },
            None => {
                assert forall|j: int| 0 <= j < words.len() implies !is_range_word(
                    #[trigger] words[j],
                ) by {
                    if j > 0 {
                        assert(rest[j - 1] == words[j]);
                    }
                }
            },
        }
    }
}

/// What stands in a line's first range is what the line is about.
proof fn lemma_is_about(line: Seq<char>, start: u64, end: u64)
    ensures
        range_of_line(line) == Some((start, end)) <==> is_about(line, start, end) && start < end,
{
    let words = text::words(line);
    lemma_first_range_word(words);
    match range_word(words) {
        None => {
            if is_about(line, start, end) {
                let (k, left, right) = choose|k: int, left: Seq<char>, right: Seq<char>| #[trigger]
                    is_first_range(line, k, left, right);
                lemma_is_range(words[k]);
                assert(is_range_word(words[k]));
            }
        },
        Some(w) => {
            let k = choose|k: int|
                {
                    &&& 0 <= k < words.len()
                    &&& #[trigger] words[k] == w
                    &&& is_range_word(w)
                    &&& forall|j: int| 0 <= j < k ==> !is_range_word(#[trigger] words[j])
                };
            lemma_is_range(w);
            let (left, right) = choose|left: Seq<char>, right: Seq<char>| #[trigger]
                is_range(w, left, right);
            assert forall|j: int, l: Seq<char>, r: Seq<char>| 0 <= j < k implies !#[trigger]
                is_range(words[j], l, r) by {
                lemma_is_range(words[j]);
            }
            assert(is_first_range(line, k, left, right));
            lemma_address(left);
            lemma_address(right);
            if is_about(line, start, end) {
                let (m, l, r) = choose|m: int, l: Seq<char>, r: Seq<char>| #[trigger]
                    is_first_range(line, m, l, r) && text::parsed(l, 16, 0xFFFF_FFFF_FFFF_FFFF)
                        == Some(start as int) && text::parsed(r, 16, 0xFFFF_FFFF_FFFF_FFFF)
                        == Some(end as int);
                if m < k {
                    assert(!is_range(words[m], l, r));
                } else if k < m {
                    assert(!is_range(words[k], left, right));
                }
                assert(is_range(w, l, r));
            }
        },
    }
}

/// An address has 64 bits.
proof fn lemma_address(s: Seq<char>)
    ensures
        address(s) matches Some(a) ==> 0 <= a <= u64::MAX,
{
    match address(s) {
        Some(a) => {
            if s.len() > 0 && s[0] == '+' {
                let digits = s.skip(1);
                assert(s =~= seq!['+'] + digits);
                if digits[0] == '+' {
                    assert(text::digit_value(digits[0]) < 16);
                }
                text::law_parsed_is_the_number(digits, 16, u64::MAX as int, a);
            } else {
                text::law_parsed_is_the_number(s, 16, u64::MAX as int, a);
            }
        },
        None => {},
    }
}

/// The regions to scan are, each once and in ascending order, the ranges of the
/// lines that show write permission, name neither of the runtime's modules, and
/// are about 1 MB to 4 GB. Where in the address space a range lies plays no
/// part.
pub proof fn law_heap_regions_are_what_lines_say(
    regions: Seq<(u64, u64)>,
    lines: Seq<Seq<char>>,
    start: u64,
    end: u64,
)
    requires
        holds_ranges(regions, lines, heap_regions()),
    ensures
        forall|i: int, j: int|
            0 <= i < j < regions.len() ==> (#[trigger] regions[i]).0 < (#[trigger] regions[j]).0 || (
            regions[i].0 == regions[j].0 && regions[i].1 < regions[j].1),
        regions.contains((start, end)) <==> exists|k: int|
            {
                &&& 0 <= k < lines.len()
                &&& is_about(#[trigger] lines[k], start, end)
                &&& text::occurs(lines[k], "rw-"@)
                &&& !text::occurs(lines[k], "mono-2.0-bdwgc"@)
                &&& !text::occurs(lines[k], "UnityPlayer"@)
                &&& 0x10_0000 <= end - start <= 0x1_0000_0000
            },
{
    assert forall|k: int| 0 <= k < lines.len() implies (heap_regions()(#[trigger] lines[k]) == Some(
        (start, end),
    ) <==> {
        &&& is_about(lines[k], start, end)
        &&& text::occurs(lines[k], "rw-"@)
        &&& !text::occurs(lines[k], "mono-2.0-bdwgc"@)
        &&& !text::occurs(lines[k], "UnityPlayer"@)
        &&& 0x10_0000 <= end - start <= 0x1_0000_0000
    }) by {
        lemma_is_about(lines[k], start, end);
    }
    assert(ascending(regions));
}

/// The ranges to capture are, each once and in ascending order, those of the
/// lines that show permission to read.
pub proof fn law_readable_ranges_are_what_lines_say(
    ranges: Seq<(u64, u64)>,
    lines: Seq<Seq<char>>,
    start: u64,
    end: u64,
)
    requires
        holds_ranges(ranges, lines, readable_ranges()),
    ensures
        forall|i: int, j: int|
            0 <= i < j < ranges.len() ==> (#[trigger] ranges[i]).0 < (#[trigger] ranges[j]).0 || (
            ranges[i].0 == ranges[j].0 && ranges[i].1 < ranges[j].1),
        ranges.contains((start, end)) <==> exists|k: int|
            {
                &&& 0 <= k < lines.len()
                &&& is_about(#[trigger] lines[k], start, end)
                &&& start < end
                &&& text::occurs(lines[k], "rw-"@) || text::occurs(lines[k], "r--"@)
                    || text::occurs(lines[k], "r-x"@) || text::occurs(lines[k], "rwx/"@)
            },
{
    assert forall|k: int| 0 <= k < lines.len() implies (readable_ranges()(#[trigger] lines[k])
        == Some((start, end)) <==> {
        &&& is_about(lines[k], start, end)
        &&& start < end
        &&& text::occurs(lines[k], "rw-"@) || text::occurs(lines[k], "r--"@) || text::occurs(
            lines[k],
            "r-x"@,
        ) || text::occurs(lines[k], "rwx/"@)
    }) by {
        lemma_is_about(lines[k], start, end);
    }
    assert(ascending(ranges));
}

} // verus!
