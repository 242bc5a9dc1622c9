//! The layout of a managed dictionary: a header with two arrays and a count,
//! and entries that start with the hash and the key.
use vstd::prelude::*;

use crate::class;
use crate::memory;

verus! {

/// Offset of the pointer to the buckets in a dictionary.
pub const DICT_BUCKETS: usize = 0x10;

/// Offset of the pointer to the entries in a dictionary.
pub const DICT_ENTRIES: usize = 0x18;

/// Offset of the count in a dictionary.
pub const DICT_COUNT: usize = 0x20;

/// A dictionary is looked for only in slots with this many bytes behind them.
pub const DICT_SPAN: usize = 0x30;

/// Offset of the first entry in the array of entries.
pub const FIRST_ENTRY: u64 = 0x20;

/// Offset of the key in an entry, whose hash stands at its start.
pub const ENTRY_KEY: u64 = 8;

/// Lowest and highest card id, which are the keys of the dictionaries of cards.
pub const MIN_CARD_ID: i32 = 1;

pub const MAX_CARD_ID: i32 = 200_000;

/// How many of a dictionary's first entries are looked at to recognise it.
pub const SAMPLE_ENTRIES: u64 = 30;

/// The pointer to the entries of the dictionary at `dict`.
pub open spec fn dict_entries(mem: Map<int, u8>, dict: int) -> int {
    memory::ptr_at(mem, memory::wrap(dict + DICT_ENTRIES))
}

/// The count of the dictionary at `dict`.
pub open spec fn dict_count(mem: Map<int, u8>, dict: int) -> int {
    memory::i32_at(mem, memory::wrap(dict + DICT_COUNT))
}

/// The slot at `a` reads like the header of a dictionary with `min` to `max` entries.
pub open spec fn is_header(mem: Map<int, u8>, a: int, min: int, max: int) -> bool {
    &&& min <= dict_count(mem, a) <= max
    &&& class::plausible(memory::ptr_at(mem, memory::wrap(a + DICT_BUCKETS)))
    &&& class::plausible(dict_entries(mem, a))
}

/// A used entry has its key as its hash, and here the key is a card id.
pub open spec fn is_card_key(hash: int, key: int) -> bool {
    hash == key && MIN_CARD_ID <= key <= MAX_CARD_ID
}

/// Whether a used entry with this hash and key is one of a card. The hash -1
/// marks an entry that is not in use.
pub fn card_key_ok(hash: i32, key: i32) -> (res: bool)
    ensures
        res == is_card_key(hash as int, key as int),
{
    if hash == -1 {
        return false;
    }
    hash == key && key >= MIN_CARD_ID && key <= MAX_CARD_ID
}

/// The header of a dictionary.
pub struct Header {
    pub entries: u64,
    pub count: i32,
}

/// Reads the header at position `base` of a region that starts at `start`.
#[verifier::spinoff_prover]
pub(crate) fn header_in(
    buf: &Vec<u8>,
    base: usize,
    min: i32,
    max: i32,
    Ghost(mem): Ghost<Map<int, u8>>,
    Ghost(start): Ghost<int>,
) -> (res: Option<Header>)
    requires
        base + DICT_SPAN <= buf.len(),
        start >= 0,
        start + buf@.len() <= memory::address_space(),
        memory::mapped(mem, start, buf@.len() as int),
        buf@ == memory::bytes_at(mem, start, buf@.len() as int),
    ensures
        match res {
            Some(h) => {
                &&& is_header(mem, start + base, min as int, max as int)
                &&& h.entries == dict_entries(mem, start + base)
                &&& h.count == dict_count(mem, start + base)
            },
            None => !is_header(mem, start + base, min as int, max as int),
        },
{
    proof {
        memory::lemma_numbers_in(mem, start, buf@.len() as int, base + DICT_BUCKETS);
        memory::lemma_numbers_in(mem, start, buf@.len() as int, base + DICT_ENTRIES);
        memory::lemma_numbers_in(mem, start, buf@.len() as int, base + DICT_COUNT);
        memory::law_addresses_wrap(start + base + DICT_BUCKETS, 0);
        memory::law_addresses_wrap(start + base + DICT_ENTRIES, 0);
        memory::law_addresses_wrap(start + base + DICT_COUNT, 0);
    }
    let count: i32 = memory::i32_in(buf, base + DICT_COUNT);
    if count < min || count > max {
        return None;
    }
    let buckets: u64 = memory::u64_in(buf, base + DICT_BUCKETS);
    let entries: u64 = memory::u64_in(buf, base + DICT_ENTRIES);
    if !class::is_plausible(buckets) || !class::is_plausible(entries) {
        return None;
    }
    Some(Header { entries, count })
}

/// The count of the dictionary at `a`, 32 bytes behind its start.
pub open spec fn count_there(mem: Map<int, u8>, a: int) -> int {
    memory::i32_at(mem, memory::wrap(a + 0x20))
}

/// The entries of the dictionary at `a` are where the pointer 24 bytes behind
/// its start leads to.
pub open spec fn entries_there(mem: Map<int, u8>, a: int) -> int {
    memory::ptr_at(mem, memory::wrap(a + 0x18))
}

/// The count and the entries of a dictionary are read where they stand.
pub proof fn law_dictionary_layout(mem: Map<int, u8>, a: int)
    ensures
        dict_count(mem, a) == count_there(mem, a),
        dict_entries(mem, a) == entries_there(mem, a),
{
}

/// The good ones of the entries `from` to `to`, up to the first one that cannot
/// be read.
pub open spec fn good_entries(
    readable: spec_fn(int) -> bool,
    good: spec_fn(int) -> bool,
    from: int,
    to: int,
) -> Set<int> {
    Set::new(
        |k: int|
            from <= k < to && good(k) && forall|j: int| from <= j <= k ==> #[trigger] readable(j),
    )
}

/// Good entries are counted one by one.
pub(crate) proof fn lemma_good_entries(
    readable: spec_fn(int) -> bool,
    good: spec_fn(int) -> bool,
    from: int,
    to: int,
)
    ensures
        ({
            let now = good_entries(readable, good, from, to);
            let rest = good_entries(readable, good, from + 1, to);
            &&& now.finite()
            &&& rest.finite()
            &&& now.len() == if from >= to || !readable(from) {
                0
            } else if good(from) {
                1 + rest.len()
            } else {
                rest.len()
            }
        }),
    decreases to - from,
{
    let now = good_entries(readable, good, from, to);
    let rest = good_entries(readable, good, from + 1, to);
    if from >= to {
        assert(now =~= Set::<int>::empty());
        assert(rest =~= Set::<int>::empty());
    } else {
        lemma_good_entries(readable, good, from + 1, to);
        if !readable(from) {
            assert(now =~= Set::<int>::empty()) by {
                assert forall|k: int| !now.contains(k) by {
                    if now.contains(k) {
                        assert(readable(from));
                    }
                }
            }
        } else {
            assert forall|k: int| now.contains(k) <==> rest.contains(k) || (k == from && good(
                from,
            )) by {
                if rest.contains(k) {
                    assert forall|j: int| from <= j <= k implies #[trigger] readable(j) by {
                        if j > from {
                            assert(from + 1 <= j);
                        }
                    }
                }
            }
            if good(from) {
                assert(now =~= rest.insert(from));
            } else {
                assert(now =~= rest);
            }
        }
    }
}

} // verus!
