//! The player's collection: a dictionary from card ids to quantities.
use vstd::prelude::*;

use crate::class;
use crate::dictionary::{
    self, Header, DICT_COUNT, DICT_ENTRIES, DICT_SPAN, ENTRY_KEY, FIRST_ENTRY, MAX_CARD_ID,
    MIN_CARD_ID, SAMPLE_ENTRIES,
};
use crate::heap::{self, SLOT};
use crate::memory::{self, MonoReader};
use crate::text;

verus! {

/// Bytes from one entry of the collection to the next.
pub const CARD_STRIDE: u64 = 16;

/// Offset of the quantity in an entry.
pub const CARD_QUANTITY: u64 = 12;

pub const MIN_QUANTITY: i32 = 1;

pub const MAX_QUANTITY: i32 = 4;

/// A collection has at least this many cards.
pub const MIN_CARDS: i32 = 500;

/// A collection has at most this many cards, and no more entries are read.
pub const MAX_CARDS: i32 = 50_000;

/// So many of the entries looked at must be proper ones.
pub const MIN_VALID_SAMPLES: u64 = 12;

/// The address of entry `i` of the array at `entries`.
pub open spec fn card_entry(entries: int, i: int) -> int {
    memory::wrap(entries + FIRST_ENTRY + CARD_STRIDE * i)
}

pub open spec fn card_hash(mem: Map<int, u8>, e: int) -> int {
    memory::i32_at(mem, e)
}

pub open spec fn card_key(mem: Map<int, u8>, e: int) -> int {
    memory::i32_at(mem, memory::wrap(e + ENTRY_KEY))
}

pub open spec fn card_quantity(mem: Map<int, u8>, e: int) -> int {
    memory::i32_at(mem, memory::wrap(e + CARD_QUANTITY))
}

/// The entry at `e` is that of a card: a used entry with a card id and a
/// quantity that a collection can hold.
pub open spec fn is_card(mem: Map<int, u8>, e: int) -> bool {
    &&& dictionary::is_card_key(card_hash(mem, e), card_key(mem, e))
    &&& MIN_QUANTITY <= card_quantity(mem, e) <= MAX_QUANTITY
}

/// How many of the entries `i` to `n` are cards, up to the first one that
/// cannot be read.
pub open spec fn cards_sampled(mem: Map<int, u8>, entries: int, i: int, n: int) -> int
    decreases n - i,
{
    let e = card_entry(entries, i);
    if i >= n || !memory::mapped(mem, e, CARD_STRIDE as int) {
        0
    } else if is_card(mem, e) {
        1 + cards_sampled(mem, entries, i + 1, n)
    } else {
        cards_sampled(mem, entries, i + 1, n)
    }
}

/// The slot at `a` reads like the collection.
pub open spec fn is_cards_dictionary(mem: Map<int, u8>, a: int) -> bool {
    &&& dictionary::is_header(mem, a, MIN_CARDS as int, MAX_CARDS as int)
    &&& cards_sampled(mem, dictionary::dict_entries(mem, a), 0, SAMPLE_ENTRIES as int)
        >= MIN_VALID_SAMPLES
}

pub open spec fn cards_wanted(mem: Map<int, u8>) -> spec_fn(int) -> bool {
    |a: int| is_cards_dictionary(mem, a)
}

/// Of two dictionaries the one with more entries is the better.
pub open spec fn cards_better(mem: Map<int, u8>) -> spec_fn(int, int) -> bool {
    |a: int, b: int|
        dictionary::dict_count(mem, a) > dictionary::dict_count(mem, b)
}

/// The address of the collection: of the first of the largest dictionaries in
/// the heap that read like it.
pub open spec fn cards_dictionary(mem: Map<int, u8>, regions: Seq<(u64, u64)>) -> Option<int> {
    heap::best_of(
        heap::heap_hits(mem, regions, DICT_SPAN as int, cards_wanted(mem)),
        cards_better(mem),
    )
}

/// The cards among the first `n` entries of the array at `entries`, with their
/// quantities.
pub open spec fn cards_listed(mem: Map<int, u8>, entries: int, n: int) -> Seq<(i32, i32)>
    decreases n,
{
    if n <= 0 {
        Seq::empty()
    } else {
        let e = card_entry(entries, n - 1);
        let before = cards_listed(mem, entries, n - 1);
        if is_card(mem, e) {
            before.push((card_key(mem, e) as i32, card_quantity(mem, e) as i32))
        } else {
            before
        }
    }
}

/// How many entries of the collection at `dict` are read.
pub open spec fn cards_read(mem: Map<int, u8>, dict: int) -> int {
    let count = dictionary::dict_count(mem, dict);
    if dictionary::dict_entries(mem, dict) < class::MIN_PTR || count <= 0 {
        0
    } else if count < MAX_CARDS {
        count
    } else {
        MAX_CARDS as int
    }
}

/// The cards of the collection at `dict`.
pub open spec fn collection(mem: Map<int, u8>, dict: int) -> Seq<(i32, i32)> {
    cards_listed(mem, dictionary::dict_entries(mem, dict), cards_read(mem, dict))
}

/// Counts the cards among the first entries of the array at `entries`.
fn sample_cards(reader: &MonoReader, entries: u64) -> (res: u64)
    requires
        class::plausible(entries as int),
    ensures
        res == cards_sampled(reader@, entries as int, 0, SAMPLE_ENTRIES as int),
{
    let mut valid: u64 = 0;
    let mut i: u64 = 0;
    while i < SAMPLE_ENTRIES
        invariant
            i <= SAMPLE_ENTRIES,
            valid <= i,
            class::plausible(entries as int),
            valid + cards_sampled(reader@, entries as int, i as int, SAMPLE_ENTRIES as int)
                == cards_sampled(reader@, entries as int, 0, SAMPLE_ENTRIES as int),
        decreases SAMPLE_ENTRIES - i,
    {
        let e: u64 = entries + FIRST_ENTRY + i * CARD_STRIDE;
        assert(e == card_entry(entries as int, i as int));
        let bytes: Vec<u8> = reader.read_bytes(e, CARD_STRIDE);
        if bytes.len() as u64 != CARD_STRIDE {
            return valid;
        }
        proof {
            memory::lemma_numbers_in(reader@, e as int, CARD_STRIDE as int, 0);
            memory::lemma_numbers_in(reader@, e as int, CARD_STRIDE as int, ENTRY_KEY as int);
            memory::lemma_numbers_in(
                reader@,
                e as int,
                CARD_STRIDE as int,
                CARD_QUANTITY as int,
            );
        }
        let hash: i32 = memory::i32_in(&bytes, 0);
        let key: i32 = memory::i32_in(&bytes, ENTRY_KEY as usize);
        let value: i32 = memory::i32_in(&bytes, CARD_QUANTITY as usize);
        if dictionary::card_key_ok(hash, key) && value >= MIN_QUANTITY && value
            <= MAX_QUANTITY {
            valid = valid + 1;
        }
        i = i + 1;
    }
    valid
}

/// Scans the heap for the collection, recognised by the shape of its data
/// alone. The answer is its address, or 0.
pub fn scan_heap_for_cards_dictionary(
    reader: &MonoReader,
    heap_regions: &Vec<(u64, u64)>,
) -> (res: u64)
    requires
        heap::regions_ok(heap_regions@),
    ensures
        res == (match cards_dictionary(reader@, heap_regions@) {
            Some(dict) => dict,
            None => 0,
        }),
{
    let ghost mem = reader@;
    let ghost wanted = cards_wanted(mem);
    let ghost better = cards_better(mem);
    let mut best: Option<(u64, i32)> = None;
    let mut r: usize = 0;
    while r < heap_regions.len()
        invariant
            r <= heap_regions.len(),
            heap::regions_ok(heap_regions@),
            mem == reader@,
            wanted == cards_wanted(mem),
            better == cards_better(mem),
            heap::best_of(
                heap::heap_hits(
                    mem,
                    heap_regions@.take(r as int),
                    DICT_SPAN as int,
                    wanted,
                ),
                better,
            ) == (match best {
                Some((dict, _)) => Some(dict as int),
                None => None,
            }),
            best matches Some((dict, count)) ==> count == dictionary::dict_count(
                mem,
                dict as int,
            ),
        decreases heap_regions.len() - r,
    {
        let region: (u64, u64) = heap_regions[r];
        let start: u64 = region.0;
        let ghost seen = heap::heap_hits(
            mem,
            heap_regions@.take(r as int),
            DICT_SPAN as int,
            wanted,
        );
        proof {
            heap::lemma_next_region(mem, heap_regions@, DICT_SPAN as int, wanted, r as int);
        }
        match heap::region_bytes(reader, region) {
            None => {
                assert(seen + Seq::<int>::empty() =~= seen);
            },
            Some(buf) => {
                let len: usize = buf.len();
                let mut base: usize = 0;
                let ghost mut i: int = 0;
                assert(seen + Seq::<int>::empty() =~= seen);
                while DICT_SPAN <= len && base <= len - DICT_SPAN
                    invariant
                        0 <= i <= heap::slot_count(len as int, DICT_SPAN as int),
                        base == SLOT * i,
                        len == buf.len(),
                        len == region.1 - start,
                        memory::mapped(mem, start as int, len as int),
                        buf@ == memory::bytes_at(mem, start as int, len as int),
                        mem == reader@,
                        wanted == cards_wanted(mem),
                        better == cards_better(mem),
                        heap::best_of(
                            seen + heap::slot_hits(wanted, start as int, i),
                            better,
                        ) == (match best {
                            Some((dict, _)) => Some(dict as int),
                            None => None,
                        }),
                        best matches Some((dict, count)) ==> count
                            == dictionary::dict_count(mem, dict as int),
                    decreases len + SLOT - base,
                {
                    proof {
                        heap::lemma_next_slot(seen, wanted, better, start as int, i);
                    }
                    let found: Option<Header> = dictionary::header_in(
                        &buf,
                        base,
                        MIN_CARDS,
                        MAX_CARDS,
                        Ghost(mem),
                        Ghost(start as int),
                    );
                    if let Some(header) = found {
                        if sample_cards(reader, header.entries) >= MIN_VALID_SAMPLES {
                            let better_one: bool = match best {
                                Some((_, count)) => header.count > count,
                                None => true,
                            };
                            if better_one {
                                best = Some((start + base as u64, header.count));
                            }
                        }
                    }
                    base = base + SLOT;
                    proof {
                        i = i + 1;
                    }
                }
                assert(i == heap::slot_count(len as int, DICT_SPAN as int));
            },
        }
        r = r + 1;
    }
    assert(heap_regions@.take(heap_regions@.len() as int) =~= heap_regions@);
    match best {
        Some((dict, _)) => dict,
        None => 0,
    }
}

/// Reads the cards of the collection at `dict_addr`.
pub fn read_cards_dictionary_entries(reader: &MonoReader, dict_addr: u64) -> (res: Vec<(i32, i32)>)
    ensures
        res@ == collection(reader@, dict_addr as int),
{
    let mut cards: Vec<(i32, i32)> = Vec::new();
    let entries: u64 = reader.read_ptr(memory::offset(dict_addr, DICT_ENTRIES as u64));
    let count: i32 = reader.read_i32(memory::offset(dict_addr, DICT_COUNT as u64));
    if entries < class::MIN_PTR || count <= 0 {
        return cards;
    }
    let n: u64 = if count < MAX_CARDS {
        count as u64
    } else {
        MAX_CARDS as u64
    };
    let mut i: u64 = 0;
    while i < n
        invariant
            i <= n <= MAX_CARDS,
            cards@ == cards_listed(reader@, entries as int, i as int),
        decreases n - i,
    {
        let e: u64 = memory::offset(entries, FIRST_ENTRY + i * CARD_STRIDE);
        assert(e == card_entry(entries as int, i as int));
        let hash: i32 = reader.read_i32(e);
        let key: i32 = reader.read_i32(memory::offset(e, ENTRY_KEY));
        let value: i32 = reader.read_i32(memory::offset(e, CARD_QUANTITY));
        if dictionary::card_key_ok(hash, key) && value >= MIN_QUANTITY && value
            <= MAX_QUANTITY {
            cards.push((key, value));
        }
        i = i + 1;
    }
    cards
}

pub const CARDS_NOT_FOUND: &'static str = "Cards dictionary not found via Mono heap scan. Either Arena isn't fully loaded or the Dictionary<int,int> layout has changed.";

pub const CARDS_EMPTY_HEAD: &'static str = "Found Cards dictionary at 0x";

pub const CARDS_EMPTY_TAIL: &'static str = " but it had no valid entries.";

/// The outcome of reading the collection: its cards, or why there are none.
pub open spec fn cards_outcome(mem: Map<int, u8>, regions: Seq<(u64, u64)>) -> Result<
    Seq<(i32, i32)>,
    Seq<char>,
> {
    match cards_dictionary(mem, regions) {
        Some(dict) => if dict == 0 {
            Err(CARDS_NOT_FOUND@)
        } else if collection(mem, dict).len() == 0 {
            Err(CARDS_EMPTY_HEAD@ + text::hex_of(dict as nat) + CARDS_EMPTY_TAIL@)
        } else {
            Ok(collection(mem, dict))
        },
        None => Err(CARDS_NOT_FOUND@),
    }
}

/// Reads the player's collection: pairs of a card id and a quantity.
pub fn read_mtga_cards_mono(reader: &MonoReader, heap_regions: &Vec<(u64, u64)>) -> (res: Result<
    Vec<(i32, i32)>,
    String,
>)
    requires
        heap::regions_ok(heap_regions@),
    ensures
        match res {
            Ok(cards) => cards_outcome(reader@, heap_regions@) == Ok::<Seq<(i32, i32)>, Seq<char>>(
                cards@,
            ),
            Err(message) => cards_outcome(reader@, heap_regions@) == Err::<
                Seq<(i32, i32)>,
                Seq<char>,
            >(message@),
        },
{
    let dict: u64 = scan_heap_for_cards_dictionary(reader, heap_regions);
    if dict == 0 {
        return Err(CARDS_NOT_FOUND.to_owned());
    }
    let cards: Vec<(i32, i32)> = read_cards_dictionary_entries(reader, dict);
    if cards.len() == 0 {
        let mut message: String = CARDS_EMPTY_HEAD.to_owned();
        text::push_hex(&mut message, dict);
        return Err(message.concat(CARDS_EMPTY_TAIL));
    }
    Ok(cards)
}

/// Every card of a collection has a card id and a quantity that can be.
pub proof fn law_collection_in_range(mem: Map<int, u8>, dict: int, k: int)
    requires
        0 <= k < collection(mem, dict).len(),
    ensures
        MIN_CARD_ID <= collection(mem, dict)[k].0 <= MAX_CARD_ID,
        MIN_QUANTITY <= collection(mem, dict)[k].1 <= MAX_QUANTITY,
{
    let n = cards_read(mem, dict);
    lemma_listed_in_range(mem, dictionary::dict_entries(mem, dict), n, k);
}

proof fn lemma_listed_in_range(mem: Map<int, u8>, entries: int, n: int, k: int)
    requires
        0 <= k < cards_listed(mem, entries, n).len(),
    ensures
        MIN_CARD_ID <= cards_listed(mem, entries, n)[k].0 <= MAX_CARD_ID,
        MIN_QUANTITY <= cards_listed(mem, entries, n)[k].1 <= MAX_QUANTITY,
    decreases n,
{
    if k < cards_listed(mem, entries, n - 1).len() {
        lemma_listed_in_range(mem, entries, n - 1, k);
    }
}

/// The samples that are cards are all in the list.
proof fn lemma_sampled_are_listed(mem: Map<int, u8>, entries: int, i: int, n: int)
    requires
        0 <= i <= n,
    ensures
        cards_listed(mem, entries, i).len() + cards_sampled(mem, entries, i, n) <= cards_listed(
            mem,
            entries,
            n,
        ).len(),
    decreases n - i,
{
    if i < n {
        lemma_sampled_are_listed(mem, entries, i + 1, n);
        lemma_list_grows(mem, entries, i, n);
    }
}

/// Looking at more entries loses no card.
proof fn lemma_list_grows(mem: Map<int, u8>, entries: int, i: int, n: int)
    requires
        i <= n,
    ensures
        cards_listed(mem, entries, i).len() <= cards_listed(mem, entries, n).len(),
    decreases n - i,
{
    if i < n {
        lemma_list_grows(mem, entries, i, n - 1);
    }
}

/// A collection that the scan finds can be read: it has at least as many cards
/// as were asked of its first entries. So reading never ends with the message
/// that a collection was found but held nothing.
pub proof fn law_found_collection_has_cards(mem: Map<int, u8>, regions: Seq<(u64, u64)>)
    ensures
        match cards_dictionary(mem, regions) {
            Some(dict) => {
                &&& is_cards_dictionary(mem, dict)
                &&& collection(mem, dict).len() >= MIN_VALID_SAMPLES
                &&& dict != 0 ==> cards_outcome(mem, regions) == Ok::<
                    Seq<(i32, i32)>,
                    Seq<char>,
                >(collection(mem, dict))
            },
            None => cards_outcome(mem, regions) is Err,
        },
{
    let hits = heap::heap_hits(mem, regions, DICT_SPAN as int, cards_wanted(mem));
    heap::lemma_best_is_hit(hits, cards_better(mem));
    match cards_dictionary(mem, regions) {
        Some(dict) => {
            let k = hits.index_of(dict);
            heap::law_hits_are_wanted(
                mem,
                regions,
                DICT_SPAN as int,
                cards_wanted(mem),
                k,
            );
            assert(cards_wanted(mem)(dict));
            let entries = dictionary::dict_entries(mem, dict);
            let count = dictionary::dict_count(mem, dict);
            lemma_sampled_are_listed(mem, entries, 0, SAMPLE_ENTRIES as int);
            lemma_list_grows(mem, entries, SAMPLE_ENTRIES as int, count);
            lemma_list_grows(mem, entries, SAMPLE_ENTRIES as int, MAX_CARDS as int);
        },
        None => {},
    }
}

/// The collection is the first of the largest dictionaries that read like it.
pub proof fn law_collection_is_first_largest(mem: Map<int, u8>, regions: Seq<(u64, u64)>)
    ensures
        ({
            let hits = heap::heap_hits(mem, regions, DICT_SPAN as int, cards_wanted(mem));
            match cards_dictionary(mem, regions) {
                None => hits.len() == 0,
                Some(dict) => exists|k: int|
                    {
                        &&& 0 <= k < hits.len()
                        &&& #[trigger] hits[k] == dict
                        &&& forall|j: int|
                            0 <= j < k ==> dictionary::dict_count(mem, #[trigger] hits[j])
                                < dictionary::dict_count(mem, dict)
                        &&& forall|j: int|
                            k < j < hits.len() ==> dictionary::dict_count(
                                mem,
                                #[trigger] hits[j],
                            ) <= dictionary::dict_count(mem, dict)
                    },
            }
        }),
{
    let hits = heap::heap_hits(mem, regions, DICT_SPAN as int, cards_wanted(mem));
    let better = cards_better(mem);
    heap::law_best_is_first_best(hits, better);
    match cards_dictionary(mem, regions) {
        None => {},
        Some(dict) => {
            let k = choose|k: int|
                heap::is_first_best(hits, better, k) && hits[k] == dict;
            assert(hits[k] == dict);
            assert forall|j: int| 0 <= j < k implies dictionary::dict_count(
                mem,
                #[trigger] hits[j],
            ) < dictionary::dict_count(mem, dict) by {
                assert(better(hits[k], hits[j]));
            }
            assert forall|j: int| k < j < hits.len() implies dictionary::dict_count(
                mem,
                #[trigger] hits[j],
            ) <= dictionary::dict_count(mem, dict) by {
                assert(!better(hits[j], hits[k]));
            }
        },
    }
}

/// The scan finds a collection wherever there is one, and none that it passes
/// over is larger than what it finds.
pub proof fn law_scan_finds_collection(
    mem: Map<int, u8>,
    regions: Seq<(u64, u64)>,
    r: int,
    i: int,
)
    requires
        heap::is_slot(mem, regions, DICT_SPAN as int, r, i),
        is_cards_dictionary(mem, regions[r].0 + SLOT * i),
    ensures
        cards_dictionary(mem, regions) matches Some(dict) && dictionary::dict_count(mem, dict)
            >= dictionary::dict_count(mem, regions[r].0 + SLOT * i),
{
    let a = regions[r].0 + SLOT * i;
    let hits = heap::heap_hits(mem, regions, DICT_SPAN as int, cards_wanted(mem));
    assert(cards_wanted(mem)(a));
    heap::law_wanted_slot_is_hit(mem, regions, DICT_SPAN as int, cards_wanted(mem), r, i);
    heap::law_no_hit_is_better(hits, cards_better(mem), a);
}

/// Reading a collection misses no card and makes none up: a pair is in the
/// result if and only if an entry is that of a card with this id and quantity.
pub proof fn law_collection_is_exact(mem: Map<int, u8>, dict: int, card: (i32, i32))
    ensures
        collection(mem, dict).contains(card) <==> exists|i: int|
            #![trigger card_entry(dictionary::dict_entries(mem, dict), i)]
            {
                let e = card_entry(dictionary::dict_entries(mem, dict), i);
                &&& 0 <= i < cards_read(mem, dict)
                &&& is_card(mem, e)
                &&& card == (card_key(mem, e) as i32, card_quantity(mem, e) as i32)
            },
{
    lemma_list_is_exact(mem, dictionary::dict_entries(mem, dict), cards_read(mem, dict), card);
}

proof fn lemma_list_is_exact(mem: Map<int, u8>, entries: int, n: int, card: (i32, i32))
    ensures
        cards_listed(mem, entries, n).contains(card) <==> exists|i: int|
            #![trigger card_entry(entries, i)]
            {
                let e = card_entry(entries, i);
                &&& 0 <= i < n
                &&& is_card(mem, e)
                &&& card == (card_key(mem, e) as i32, card_quantity(mem, e) as i32)
            },
    decreases n,
{
    if n > 0 {
        lemma_list_is_exact(mem, entries, n - 1, card);
        let before = cards_listed(mem, entries, n - 1);
        let all = cards_listed(mem, entries, n);
        let e = card_entry(entries, n - 1);
        if before.contains(card) {
            let k = before.index_of(card);
            assert(all[k] == card);
        }
        if is_card(mem, e) {
            assert(all[all.len() - 1] == (card_key(mem, e) as i32, card_quantity(mem, e) as i32));
        }
        if all.contains(card) && !before.contains(card) {
            let k = all.index_of(card);
            assert(all[k] == card);
            if k < before.len() {
                assert(before[k] == card);
            }
        }
    }
}

/// Entry `i` of the array at `entries` starts here: entries of 16 bytes follow
/// the array's own 32.
pub open spec fn entry_place(entries: int, i: int) -> int {
    memory::wrap(entries + 0x20 + 16 * i)
}

/// The card id in the entry at `e`, 8 bytes behind its start.
pub open spec fn id_there(mem: Map<int, u8>, e: int) -> int {
    memory::i32_at(mem, memory::wrap(e + 8))
}

/// The quantity in the entry at `e`, 12 bytes behind its start.
pub open spec fn quantity_there(mem: Map<int, u8>, e: int) -> int {
    memory::i32_at(mem, memory::wrap(e + 12))
}

/// A player has one to four of the card in the entry at `e`, whose hash, at the
/// start of the entry, is its id.
pub open spec fn holds_card(mem: Map<int, u8>, e: int) -> bool {
    &&& memory::i32_at(mem, e) == id_there(mem, e)
    &&& 1 <= id_there(mem, e) <= 200_000
    &&& 1 <= quantity_there(mem, e) <= 4
}

/// A dictionary that can be the collection: it has 500 to 50000 entries, its
/// pointers lead somewhere, and at least 12 of its first 30 entries, before
/// any that cannot be read, hold cards.
pub open spec fn reads_like_collection(mem: Map<int, u8>, a: int) -> bool {
    let buckets = memory::ptr_at(mem, memory::wrap(a + 0x10));
    let entries = dictionary::entries_there(mem, a);
    &&& 500 <= dictionary::count_there(mem, a) <= 50_000
    &&& 0x1_0000 <= buckets <= 0x7FFF_FFFF_FFFF
    &&& 0x1_0000 <= entries <= 0x7FFF_FFFF_FFFF
    &&& dictionary::good_entries(
        |i: int| memory::mapped(mem, entry_place(entries, i), 16),
        |i: int| holds_card(mem, entry_place(entries, i)),
        0,
        30,
    ).len() >= 12
}

/// The scan finds the first of the largest dictionaries that can be the
/// collection, among all places of the heap that are 8 bytes apart and have 48
/// bytes; it finds none only where there is none.
pub proof fn law_scan_finds_first_largest_collection(mem: Map<int, u8>, regions: Seq<(u64, u64)>)
    ensures
        match cards_dictionary(mem, regions) {
            None => forall|r: int, i: int, a: int| #[trigger]
                heap::is_place(mem, regions, 0x30, r, i, a) ==> !reads_like_collection(mem, a),
            Some(dict) => reads_like_collection(mem, dict) && exists|r: int, i: int| #[trigger]
                heap::is_place(mem, regions, 0x30, r, i, dict) && forall|
                    q: int,
                    j: int,
                    b: int,
                | #[trigger]
                    heap::is_place(mem, regions, 0x30, q, j, b) && reads_like_collection(mem, b)
                        ==> if heap::comes_before(q, j, r, i) {
                        dictionary::count_there(mem, b) < dictionary::count_there(mem, dict)
                    } else {
                        dictionary::count_there(mem, b) <= dictionary::count_there(mem, dict)
                    },
        },
{
    let wanted = cards_wanted(mem);
    let better = cards_better(mem);
    heap::law_scan_keeps_first_best_place(mem, regions, 0x30, wanted, better);
    assert forall|a: int| wanted(a) == #[trigger] reads_like_collection(mem, a) by {
        lemma_reads_like_collection(mem, a);
    }
    match cards_dictionary(mem, regions) {
        None => {},
        Some(dict) => {
            let (r, i) = choose|r: int, i: int| #[trigger]
                heap::is_first_best_place(mem, regions, 0x30, wanted, better, r, i, dict);
            assert(heap::is_place(mem, regions, 0x30, r, i, dict));
            assert forall|q: int, j: int, b: int| #[trigger]
                heap::is_place(mem, regions, 0x30, q, j, b) && reads_like_collection(
                    mem,
                    b,
                ) implies if heap::comes_before(q, j, r, i) {
                dictionary::count_there(mem, b) < dictionary::count_there(mem, dict)
            } else {
                dictionary::count_there(mem, b) <= dictionary::count_there(mem, dict)
            } by {
                assert(wanted(b));
            }
        },
    }
}

proof fn lemma_reads_like_collection(mem: Map<int, u8>, a: int)
    ensures
        is_cards_dictionary(mem, a) == reads_like_collection(mem, a),
{
    lemma_samples_are_counted(mem, dictionary::dict_entries(mem, a), 0);
}

proof fn lemma_samples_are_counted(mem: Map<int, u8>, entries: int, i: int)
    requires
        i <= 30,
    ensures
        cards_sampled(mem, entries, i, 30) == dictionary::good_entries(
            |i: int| memory::mapped(mem, entry_place(entries, i), 16),
            |i: int| holds_card(mem, entry_place(entries, i)),
            i,
            30,
        ).len(),
    decreases 30 - i,
{
    dictionary::lemma_good_entries(
        |i: int| memory::mapped(mem, entry_place(entries, i), 16),
        |i: int| holds_card(mem, entry_place(entries, i)),
        i,
        30,
    );
    if i < 30 {
        lemma_samples_are_counted(mem, entries, i + 1);
        assert(card_entry(entries, i) == entry_place(entries, i));
    }
}

/// Entry `at[k]` of the dictionary at `dict` is where card `k` of the list comes
/// from.
pub open spec fn comes_from(
    mem: Map<int, u8>,
    dict: int,
    cards: Seq<(i32, i32)>,
    at: Seq<int>,
    k: int,
) -> bool {
    let e = entry_place(dictionary::entries_there(mem, dict), at[k]);
    &&& 0 <= at[k] < dictionary::count_there(mem, dict)
    &&& at[k] < 50_000
    &&& holds_card(mem, e)
    &&& cards[k].0 == id_there(mem, e)
    &&& cards[k].1 == quantity_there(mem, e)
}

/// The cards of the list come from the entries `at`, which ascend and are below `n`.
pub open spec fn come_in_order(
    mem: Map<int, u8>,
    dict: int,
    cards: Seq<(i32, i32)>,
    at: Seq<int>,
    n: int,
) -> bool {
    &&& at.len() == cards.len()
    &&& forall|k: int| 0 <= k < at.len() ==> #[trigger] comes_from(mem, dict, cards, at, k)
    &&& forall|j: int, k: int| 0 <= j < k < at.len() ==> #[trigger] at[j] < #[trigger] at[k]
    &&& forall|k: int| 0 <= k < at.len() ==> #[trigger] at[k] < n
}

/// The list of a collection's cards goes through the entries in order: each
/// card comes from an entry behind that of the card before it.
pub proof fn law_cards_come_in_order(mem: Map<int, u8>, dict: int)
    ensures
        exists|at: Seq<int>| #[trigger]
            come_in_order(mem, dict, collection(mem, dict), at, dictionary::count_there(mem, dict)),
{
    let n = cards_read(mem, dict);
    let cards = collection(mem, dict);
    lemma_cards_come_in_order(mem, dict, n);
    let at = choose|at: Seq<int>| #[trigger] come_in_order(mem, dict, cards, at, n);
    let count = dictionary::count_there(mem, dict);
    assert forall|k: int| 0 <= k < at.len() implies #[trigger] at[k] < count by {
        assert(comes_from(mem, dict, cards, at, k));
    }
    assert(come_in_order(mem, dict, cards, at, count));
}

proof fn lemma_cards_come_in_order(mem: Map<int, u8>, dict: int, n: int)
    requires
        n <= cards_read(mem, dict),
    ensures
        exists|at: Seq<int>| #[trigger]
            come_in_order(
                mem,
                dict,
                cards_listed(mem, dictionary::dict_entries(mem, dict), n),
                at,
                n,
            ),
    decreases n,
{
    let entries = dictionary::dict_entries(mem, dict);
    let list = cards_listed(mem, entries, n);
    if n <= 0 {
        assert(come_in_order(mem, dict, list, Seq::<int>::empty(), n));
    } else {
        lemma_cards_come_in_order(mem, dict, n - 1);
        let before = cards_listed(mem, entries, n - 1);
        let old_at = choose|at: Seq<int>| #[trigger]
            come_in_order(mem, dict, before, at, n - 1);
        let e = card_entry(entries, n - 1);
        assert(e == entry_place(dictionary::entries_there(mem, dict), n - 1));
        let at = if is_card(mem, e) {
            old_at.push(n - 1)
        } else {
            old_at
        };
        assert(at.len() == list.len());
        assert forall|k: int| 0 <= k < at.len() implies #[trigger] comes_from(
            mem,
            dict,
            list,
            at,
            k,
        ) by {
            if k < before.len() {
                assert(comes_from(mem, dict, before, old_at, k));
                assert(list[k] == before[k]);
                assert(at[k] == old_at[k]);
            } else {
                memory::lemma_number_range(mem, memory::wrap(e + 8));
                memory::lemma_number_range(mem, memory::wrap(e + 12));
            }
        }
        assert(come_in_order(mem, dict, list, at, n));
    }
}

/// No card of a collection is lost: each of the first 50000 entries that the
/// dictionary counts and that holds a card is in the list.
pub proof fn law_no_card_is_lost(mem: Map<int, u8>, dict: int, i: int)
    requires
        dictionary::entries_there(mem, dict) >= 0x1_0000,
        0 <= i < dictionary::count_there(mem, dict),
        i < 50_000,
        holds_card(mem, entry_place(dictionary::entries_there(mem, dict), i)),
    ensures
        ({
            let e = entry_place(dictionary::entries_there(mem, dict), i);
            collection(mem, dict).contains(
                (id_there(mem, e) as i32, quantity_there(mem, e) as i32),
            )
        }),
{
    let entries = dictionary::dict_entries(mem, dict);
    let e = card_entry(entries, i);
    assert(e == entry_place(dictionary::entries_there(mem, dict), i));
    law_collection_is_exact(
        mem,
        dict,
        (card_key(mem, e) as i32, card_quantity(mem, e) as i32),
    );
}

/// As many cards are listed as entries hold one.
pub proof fn law_cards_are_counted(mem: Map<int, u8>, dict: int)
    requires
        dictionary::entries_there(mem, dict) >= 0x1_0000,
    ensures
        collection(mem, dict).len() == dictionary::good_entries(
            |i: int| true,
            |i: int| i < 50_000 && holds_card(mem, entry_place(dictionary::entries_there(mem, dict), i)),
            0,
            dictionary::count_there(mem, dict),
        ).len(),
{
    let entries = dictionary::entries_there(mem, dict);
    let n = cards_read(mem, dict);
    let good = |i: int| i < 50_000 && holds_card(mem, entry_place(entries, i));
    let all = dictionary::good_entries(|i: int| true, good, 0, dictionary::count_there(mem, dict));
    lemma_cards_are_counted(mem, entries, n);
    assert(all =~= Set::new(|k: int| 0 <= k < n && holds_card(mem, entry_place(entries, k))));
}

proof fn lemma_cards_are_counted(mem: Map<int, u8>, entries: int, n: int)
    ensures
        ({
            let cards = Set::new(|k: int| 0 <= k < n && holds_card(mem, entry_place(entries, k)));
            cards.finite() && cards.len() == cards_listed(mem, entries, n).len()
        }),
    decreases n,
{
    let cards = Set::new(|k: int| 0 <= k < n && holds_card(mem, entry_place(entries, k)));
    if n <= 0 {
        assert(cards =~= Set::<int>::empty());
    } else {
        lemma_cards_are_counted(mem, entries, n - 1);
        let before = Set::new(
            |k: int| 0 <= k < n - 1 && holds_card(mem, entry_place(entries, k)),
        );
        assert(card_entry(entries, n - 1) == entry_place(entries, n - 1));
        if holds_card(mem, entry_place(entries, n - 1)) {
            assert(cards =~= before.insert(n - 1));
        } else {
            assert(cards =~= before);
        }
    }
}

/// A dictionary without entries, or with a pointer to them that leads nowhere,
/// has no cards.
pub proof fn law_no_entries_no_cards(mem: Map<int, u8>, dict: int)
    requires
        dictionary::entries_there(mem, dict) < 0x1_0000 || dictionary::count_there(mem, dict) <= 0,
    ensures
        collection(mem, dict).len() == 0,
{
}

/// Reading the collection gives the cards of the dictionary that the scan
/// finds, and fails only where it finds none (or one at address 0, which stands
/// for none).
pub proof fn law_cards_outcome(mem: Map<int, u8>, regions: Seq<(u64, u64)>)
    ensures
        match cards_outcome(mem, regions) {
            Ok(cards) => cards_dictionary(mem, regions) matches Some(dict) && dict != 0 && cards
                == collection(mem, dict) && cards.len() >= 12,
            Err(message) => {
                &&& cards_dictionary(mem, regions) matches Some(dict) ==> dict == 0
                &&& message
                    == "Cards dictionary not found via Mono heap scan. Either Arena isn't fully loaded or the Dictionary<int,int> layout has changed."@
            },
        },
{
    law_found_collection_has_cards(mem, regions);
}

} // verus!
