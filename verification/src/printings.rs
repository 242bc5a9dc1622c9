//! The card database: a dictionary from card ids to the printings of cards.
use vstd::prelude::*;

use crate::class::{self, MonoFieldInfo, NameCache};
use crate::dictionary::{
    self, Header, DICT_COUNT, DICT_ENTRIES, DICT_SPAN, ENTRY_KEY, FIRST_ENTRY, MAX_CARD_ID,
    MIN_CARD_ID, SAMPLE_ENTRIES,
};
use crate::heap::{self, SLOT};
use crate::memory::{self, MonoReader};
use crate::strings;

verus! {

/// Bytes from one entry of the database to the next.
pub const PRINTING_STRIDE: u64 = 24;

/// Offset of the pointer to the printing in an entry.
pub const PRINTING_VALUE: u64 = 16;

/// A database has at least this many printings.
pub const MIN_PRINTINGS: i32 = 5_000;

/// A database has at most this many printings, and no more entries are read.
pub const MAX_PRINTINGS: i32 = 100_000;

/// So many of the entries looked at must have a card id as hash and key.
pub const MIN_HASH_KEY_MATCHES: u64 = 10;

/// The size of an object's header, which a struct inside another object lacks.
pub const OBJECT_HEADER: u64 = 0x10;

/// The address of entry `i` of the array at `entries`.
pub open spec fn printing_entry(entries: int, i: int) -> int {
    memory::wrap(entries + FIRST_ENTRY + PRINTING_STRIDE * i)
}

pub open spec fn printing_key(mem: Map<int, u8>, e: int) -> int {
    memory::i32_at(mem, memory::wrap(e + ENTRY_KEY))
}

pub open spec fn printing_value(mem: Map<int, u8>, e: int) -> int {
    memory::ptr_at(mem, memory::wrap(e + PRINTING_VALUE))
}

/// The entry at `e` is a used one with a card id.
pub open spec fn has_card_key(mem: Map<int, u8>, e: int) -> bool {
    dictionary::is_card_key(memory::i32_at(mem, e), printing_key(mem, e))
}

/// The class of the object that the entry at `e` points to, where both can be
/// pointers; else 0.
pub open spec fn value_class(mem: Map<int, u8>, e: int) -> int {
    let class = class::class_of(mem, printing_value(mem, e));
    if class::plausible(printing_value(mem, e)) && class::plausible(class) {
        class
    } else {
        0
    }
}

/// How many of the entries `i` to `n` have a card id, up to the first one that
/// cannot be read.
pub open spec fn keys_sampled(mem: Map<int, u8>, entries: int, i: int, n: int) -> int
    decreases n - i,
{
    let e = printing_entry(entries, i);
    if i >= n || !memory::mapped(mem, e, PRINTING_STRIDE as int) {
        0
    } else if has_card_key(mem, e) {
        1 + keys_sampled(mem, entries, i + 1, n)
    } else {
        keys_sampled(mem, entries, i + 1, n)
    }
}

/// The class of the first value with a class among the entries `i` to `n` that
/// have a card id, up to the first one that cannot be read; 0 without one.
pub open spec fn class_sampled(mem: Map<int, u8>, entries: int, i: int, n: int) -> int
    decreases n - i,
{
    let e = printing_entry(entries, i);
    if i >= n || !memory::mapped(mem, e, PRINTING_STRIDE as int) {
        0
    } else if has_card_key(mem, e) && value_class(mem, e) != 0 {
        value_class(mem, e)
    } else {
        class_sampled(mem, entries, i + 1, n)
    }
}

/// The name of a class of printings.
pub open spec fn is_printing_class_name(name: Seq<char>) -> bool {
    name == "CardPrintingData"@ || name == "CardPrintingRecord"@
}

/// How many of the first entries of the dictionary at `a` have a card id.
pub open spec fn dict_matches(mem: Map<int, u8>, a: int) -> int {
    keys_sampled(mem, dictionary::dict_entries(mem, a), 0, SAMPLE_ENTRIES as int)
}

/// The class of the values of the dictionary at `a`.
pub open spec fn dict_class(mem: Map<int, u8>, a: int) -> int {
    class_sampled(mem, dictionary::dict_entries(mem, a), 0, SAMPLE_ENTRIES as int)
}

/// The slot at `a` reads like the database.
pub open spec fn is_printing_dictionary(mem: Map<int, u8>, a: int) -> bool {
    &&& dictionary::is_header(mem, a, MIN_PRINTINGS as int, MAX_PRINTINGS as int)
    &&& dict_matches(mem, a) >= MIN_HASH_KEY_MATCHES
    &&& dict_class(mem, a) != 0
    &&& is_printing_class_name(class::class_name(mem, dict_class(mem, a)))
}

pub open spec fn printing_wanted(mem: Map<int, u8>) -> spec_fn(int) -> bool {
    |a: int| is_printing_dictionary(mem, a)
}

/// Of two dictionaries the one with more card ids among its first entries is
/// the better, and of two with equally many the one with more entries.
pub open spec fn printing_better(mem: Map<int, u8>) -> spec_fn(int, int) -> bool {
    |a: int, b: int|
        {
            ||| dict_matches(mem, a) > dict_matches(mem, b)
            ||| dict_matches(mem, a) == dict_matches(mem, b) && dictionary::dict_count(mem, a)
                > dictionary::dict_count(mem, b)
        }
}

/// The address of the database: of the first of the best dictionaries in the
/// heap that read like it.
pub open spec fn printing_dictionary(mem: Map<int, u8>, regions: Seq<(u64, u64)>) -> Option<int> {
    heap::best_of(
        heap::heap_hits(mem, regions, DICT_SPAN as int, printing_wanted(mem)),
        printing_better(mem),
    )
}

/// The entry at `e` is that of a printing of the given class.
pub open spec fn is_printing(mem: Map<int, u8>, e: int, class: int) -> bool {
    &&& has_card_key(mem, e)
    &&& printing_value(mem, e) >= class::MIN_PTR
    &&& class::class_of(mem, printing_value(mem, e)) == class
}

/// The printings among the first `n` entries of the array at `entries`: card
/// ids and the addresses of the objects.
pub open spec fn printings_listed(mem: Map<int, u8>, entries: int, n: int, class: int) -> Seq<
    (i32, u64),
>
    decreases n,
{
    if n <= 0 {
        Seq::empty()
    } else {
        let e = printing_entry(entries, n - 1);
        let before = printings_listed(mem, entries, n - 1, class);
        if is_printing(mem, e, class) {
            before.push((printing_key(mem, e) as i32, printing_value(mem, e) as u64))
        } else {
            before
        }
    }
}

/// How many entries of the database at `dict` are read.
pub open spec fn printings_read(mem: Map<int, u8>, dict: int) -> int {
    let count = dictionary::dict_count(mem, dict);
    if dictionary::dict_entries(mem, dict) < class::MIN_PTR || count <= 0 {
        0
    } else if count < MAX_PRINTINGS {
        count
    } else {
        MAX_PRINTINGS as int
    }
}

/// The printings of the database at `dict`.
pub open spec fn printings(mem: Map<int, u8>, dict: int, class: int) -> Seq<(i32, u64)> {
    printings_listed(mem, dictionary::dict_entries(mem, dict), printings_read(mem, dict), class)
}

/// What a look at the first entries of a dictionary shows.
struct Sample {
    matches: u64,
    class: u64,
}

/// Looks at the entry at `e`: the class of its value, where it has a card id.
/// `None` where the entry cannot be read.
fn sample_printing(reader: &MonoReader, e: u64) -> (res: Option<Option<u64>>)
    requires
        e + PRINTING_STRIDE <= u64::MAX,
    ensures
        match res {
            None => !memory::mapped(reader@, e as int, PRINTING_STRIDE as int),
            Some(class) => {
                &&& memory::mapped(reader@, e as int, PRINTING_STRIDE as int)
                &&& has_card_key(reader@, e as int) == class is Some
                &&& class matches Some(c) ==> c == value_class(reader@, e as int)
            },
        },
{
    let bytes: Vec<u8> = reader.read_bytes(e, PRINTING_STRIDE);
    if bytes.len() as u64 != PRINTING_STRIDE {
        return None;
    }
    proof {
        let n = PRINTING_STRIDE as int;
        memory::lemma_numbers_in(reader@, e as int, n, 0);
        memory::lemma_numbers_in(reader@, e as int, n, ENTRY_KEY as int);
        memory::lemma_numbers_in(reader@, e as int, n, PRINTING_VALUE as int);
    }
    let hash: i32 = memory::i32_in(&bytes, 0);
    let key: i32 = memory::i32_in(&bytes, ENTRY_KEY as usize);
    if !dictionary::card_key_ok(hash, key) {
        return Some(None);
    }
    let value: u64 = memory::u64_in(&bytes, PRINTING_VALUE as usize);
    if !class::is_plausible(value) {
        return Some(Some(0));
    }
    let class: u64 = class::obj_to_mono_class(reader, value);
    if !class::is_plausible(class) {
        return Some(Some(0));
    }
    Some(Some(class))
}

/// Looks at the first entries of the array at `entries`.
fn sample_printings(reader: &MonoReader, entries: u64) -> (res: Sample)
    requires
        class::plausible(entries as int),
    ensures
        res.matches == keys_sampled(reader@, entries as int, 0, SAMPLE_ENTRIES as int),
        res.class == class_sampled(reader@, entries as int, 0, SAMPLE_ENTRIES as int),
{
    let mut matches: u64 = 0;
    let mut class: u64 = 0;
    let mut i: u64 = 0;
    while i < SAMPLE_ENTRIES
        invariant
            i <= SAMPLE_ENTRIES,
            matches <= i,
            class::plausible(entries as int),
            matches + keys_sampled(reader@, entries as int, i as int, SAMPLE_ENTRIES as int)
                == keys_sampled(reader@, entries as int, 0, SAMPLE_ENTRIES as int),
            class_sampled(reader@, entries as int, 0, SAMPLE_ENTRIES as int) == (if class != 0 {
                class as int
            } else {
                class_sampled(reader@, entries as int, i as int, SAMPLE_ENTRIES as int)
            }),
        decreases SAMPLE_ENTRIES - i,
    {
        let e: u64 = entries + FIRST_ENTRY + i * PRINTING_STRIDE;
        assert(e == printing_entry(entries as int, i as int));
        match sample_printing(reader, e) {
            None => {
                return Sample { matches, class };
            },
            Some(None) => {},
            Some(Some(c)) => {
                matches = matches + 1;
                if class == 0 {
                    class = c;
                }
            },
        }
        i = i + 1;
    }
    Sample { matches, class }
}

/// The best database found so far.
struct Found {
    dict: u64,
    count: i32,
    matches: u64,
    class: u64,
}

impl Found {
    spec fn is_at(self, mem: Map<int, u8>) -> bool {
        &&& self.count == dictionary::dict_count(mem, self.dict as int)
        &&& self.matches == dict_matches(mem, self.dict as int)
        &&& self.class == dict_class(mem, self.dict as int)
    }
}

/// Whether the class of that name is one of printings.
fn is_printing_name(name: &str) -> (res: bool)
    ensures
        res == is_printing_class_name(name@),
{
    strings::same_text(name, "CardPrintingData") || strings::same_text(
        name,
        "CardPrintingRecord",
    )
}

/// Scans the heap for the database, recognised by its hashes and keys and by
/// the class of its values. The answer is its address, its count and that class.
pub fn scan_heap_for_card_printing_dictionary(
    reader: &MonoReader,
    heap_regions: &Vec<(u64, u64)>,
) -> (res: Option<(u64, i32, u64)>)
    requires
        heap::regions_ok(heap_regions@),
    ensures
        match res {
            Some((dict, count, class)) => {
                &&& printing_dictionary(reader@, heap_regions@) == Some(dict as int)
                &&& count == dictionary::dict_count(reader@, dict as int)
                &&& class == dict_class(reader@, dict as int)
            },
            None => printing_dictionary(reader@, heap_regions@) is None,
        },
{
    let ghost mem = reader@;
    let ghost wanted = printing_wanted(mem);
    let ghost better = printing_better(mem);
    let mut names: NameCache = NameCache::new(Ghost(mem));
    let mut best: Option<Found> = None;
    let mut r: usize = 0;
    while r < heap_regions.len()
        invariant
            r <= heap_regions.len(),
            heap::regions_ok(heap_regions@),
            mem == reader@,
            wanted == printing_wanted(mem),
            better == printing_better(mem),
            names.agrees(mem),
            heap::best_of(
                heap::heap_hits(
                    mem,
                    heap_regions@.take(r as int),
                    DICT_SPAN as int,
                    wanted,
                ),
                better,
            ) == (match best {
                Some(f) => Some(f.dict as int),
                None => None,
            }),
            best matches Some(f) ==> f.is_at(mem),
        decreases heap_regions.len() - r,
    {
        let region: (u64, u64) = heap_regions[r];
        let start: u64 = region.0;
        let ghost seen = heap::heap_hits(
            mem,
            heap_regions@.take(r as int),
            DICT_SPAN as int,
            wanted,
        );
        proof {
            heap::lemma_next_region(mem, heap_regions@, DICT_SPAN as int, wanted, r as int);
        }
        match heap::region_bytes(reader, region) {
            None => {
                assert(seen + Seq::<int>::empty() =~= seen);
            },
            Some(buf) => {
                let len: usize = buf.len();
                let mut base: usize = 0;
                let ghost mut i: int = 0;
                assert(seen + Seq::<int>::empty() =~= seen);
                while DICT_SPAN <= len && base <= len - DICT_SPAN
                    invariant
                        0 <= i <= heap::slot_count(len as int, DICT_SPAN as int),
                        base == SLOT * i,
                        len == buf.len(),
                        len == region.1 - start,
                        memory::mapped(mem, start as int, len as int),
                        buf@ == memory::bytes_at(mem, start as int, len as int),
                        mem == reader@,
                        wanted == printing_wanted(mem),
                        better == printing_better(mem),
                        names.agrees(mem),
                        heap::best_of(
                            seen + heap::slot_hits(wanted, start as int, i),
                            better,
                        ) == (match best {
                            Some(f) => Some(f.dict as int),
                            None => None,
                        }),
                        best matches Some(f) ==> f.is_at(mem),
                    decreases len + SLOT - base,
                {
                    proof {
                        heap::lemma_next_slot(seen, wanted, better, start as int, i);
                    }
                    let found: Option<Header> = dictionary::header_in(
                        &buf,
                        base,
                        MIN_PRINTINGS,
                        MAX_PRINTINGS,
                        Ghost(mem),
                        Ghost(start as int),
                    );
                    if let Some(header) = found {
                        let sample: Sample = sample_printings(reader, header.entries);
                        if sample.matches >= MIN_HASH_KEY_MATCHES && sample.class != 0 {
                            let name: String = names.name_of(reader, sample.class);
                            if is_printing_name(name.as_str()) {
                                let better_one: bool = match &best {
                                    Some(f) => sample.matches > f.matches || (sample.matches
                                        == f.matches && header.count > f.count),
                                    None => true,
                                };
                                if better_one {
                                    best = Some(
                                        Found {
                                            dict: start + base as u64,
                                            count: header.count,
                                            matches: sample.matches,
                                            class: sample.class,
                                        },
                                    );
                                }
                            }
                        }
                    }
                    base = base + SLOT;
                    proof {
                        i = i + 1;
                    }
                }
                assert(i == heap::slot_count(len as int, DICT_SPAN as int));
            },
        }
        r = r + 1;
    }
    assert(heap_regions@.take(heap_regions@.len() as int) =~= heap_regions@);
    match best {
        Some(f) => Some((f.dict, f.count, f.class)),
        None => None,
    }
}

/// Reads the printings of the database at `dict_addr`: those of its entries
/// whose object is of the class `value_class`.
pub fn read_card_printing_entries(
    reader: &MonoReader,
    dict_addr: u64,
    value_class: u64,
) -> (res: Vec<(i32, u64)>)
    ensures
        res@ == printings(reader@, dict_addr as int, value_class as int),
{
    let mut result: Vec<(i32, u64)> = Vec::new();
    let entries: u64 = reader.read_ptr(memory::offset(dict_addr, DICT_ENTRIES as u64));
    let count: i32 = reader.read_i32(memory::offset(dict_addr, DICT_COUNT as u64));
    if entries < class::MIN_PTR || count <= 0 {
        return result;
    }
    let n: u64 = if count < MAX_PRINTINGS {
        count as u64
    } else {
        MAX_PRINTINGS as u64
    };
    let mut i: u64 = 0;
    while i < n
        invariant
            i <= n <= MAX_PRINTINGS,
            result@ == printings_listed(reader@, entries as int, i as int, value_class as int),
        decreases n - i,
    {
        let e: u64 = memory::offset(entries, FIRST_ENTRY + i * PRINTING_STRIDE);
        assert(e == printing_entry(entries as int, i as int));
        let hash: i32 = reader.read_i32(e);
        let key: i32 = reader.read_i32(memory::offset(e, ENTRY_KEY));
        if dictionary::card_key_ok(hash, key) {
            let value: u64 = reader.read_ptr(memory::offset(e, PRINTING_VALUE));
            if value >= class::MIN_PTR {
                if class::obj_to_mono_class(reader, value) == value_class {
                    result.push((key, value));
                }
            }
        }
        i = i + 1;
    }
    result
}

/// Where the fields of a card stand in the object of a printing.
#[derive(Debug, Clone)]
pub struct CardFieldOffsets {
    pub grp_id: u64,
    pub title_id: u64,
    pub expansion_code: u64,
    pub collector_number: u64,
}

/// The offsets in a printing record whose fields are listed.
pub open spec fn record_offsets(fields: Seq<class::FieldModel>) -> Option<CardFieldOffsets> {
    match (
        class::field_offset(fields, class::named("GrpId"@)),
        class::field_offset(fields, class::named("TitleId"@)),
        class::field_offset(fields, class::named("ExpansionCode"@)),
        class::field_offset(fields, class::named("CollectorNumber"@)),
    ) {
        (Some(g), Some(t), Some(e), Some(c)) => Some(
            CardFieldOffsets { grp_id: g, title_id: t, expansion_code: e, collector_number: c },
        ),
        _ => None,
    }
}

/// The offsets in a printing record whose fields are not known.
pub open spec fn known_record_offsets() -> CardFieldOffsets {
    CardFieldOffsets { grp_id: 0x10, title_id: 0x20, expansion_code: 0x50, collector_number: 0x70 }
}

/// The names that the field of the embedded record goes by.
pub open spec fn record_names() -> spec_fn(Seq<char>) -> bool {
    |n: Seq<char>| n == "Record"@ || n == "<Record>k__BackingField"@ || n == "_record"@
}

/// An offset in a record as one in the object that the record is embedded in.
/// The record has no object header there.
pub open spec fn embedded(record: u64, off: u64) -> u64 {
    memory::wrap(
        record + (if off > OBJECT_HEADER {
            off - OBJECT_HEADER
        } else {
            0
        }),
    ) as u64
}

/// All offsets in a record as ones in the object that it is embedded in.
pub open spec fn embedded_offsets(record: u64, o: CardFieldOffsets) -> CardFieldOffsets {
    CardFieldOffsets {
        grp_id: embedded(record, o.grp_id),
        title_id: embedded(record, o.title_id),
        expansion_code: embedded(record, o.expansion_code),
        collector_number: embedded(record, o.collector_number),
    }
}

/// The offsets in the objects of a class of printings. A printing record has
/// the fields itself; another class has a record embedded, whose own offsets
/// come from the class `hint`, or are the known ones.
pub open spec fn card_offsets(mem: Map<int, u8>, class: int, hint: int) -> Option<
    CardFieldOffsets,
> {
    let fields = class::class_fields(mem, class);
    if class::class_name(mem, class) == "CardPrintingRecord"@ {
        record_offsets(fields)
    } else {
        match class::field_offset(fields, record_names()) {
            Some(record) => Some(
                embedded_offsets(
                    record,
                    match record_offsets(class::class_fields(mem, hint)) {
                        Some(o) => o,
                        None => known_record_offsets(),
                    },
                ),
            ),
            None => None,
        }
    }
}

/// Finds the offsets in a printing record whose fields are listed.
fn find_record_offsets(fields: &Vec<MonoFieldInfo>) -> (res: Option<CardFieldOffsets>)
    ensures
        res == record_offsets(class::models(fields@)),
{
    let list: &[MonoFieldInfo] = fields.as_slice();
    match (
        class::find_field(list, "GrpId"),
        class::find_field(list, "TitleId"),
        class::find_field(list, "ExpansionCode"),
        class::find_field(list, "CollectorNumber"),
    ) {
        (Some(g), Some(t), Some(e), Some(c)) => Some(
            CardFieldOffsets { grp_id: g, title_id: t, expansion_code: e, collector_number: c },
        ),
        _ => None,
    }
}

/// Finds the offset of the embedded record.
fn find_record(fields: &Vec<MonoFieldInfo>) -> (res: Option<u64>)
    ensures
        res == class::field_offset(class::models(fields@), record_names()),
{
    let ghost all = class::models(fields@);
    let mut i: usize = 0;
    assert(all.skip(0) =~= all);
    while i < fields.len()
        invariant
            i <= fields.len(),
            all == class::models(fields@),
            class::field_offset(all.skip(i as int), record_names())
                == class::field_offset(all, record_names()),
        decreases fields.len() - i,
    {
        let ghost rest = all.skip(i as int);
        assert(rest[0] == fields@[i as int]@);
        let name: &str = fields[i].name.as_str();
        if !fields[i].is_static && (strings::same_text(name, "Record")
            || strings::same_text(name, "<Record>k__BackingField")
            || strings::same_text(name, "_record")) {
            return Some(class::word_of(fields[i].offset));
        }
        assert(rest.skip(1) =~= all.skip(i + 1));
        i = i + 1;
    }
    assert(all.skip(i as int).len() == 0);
    None
}

/// An offset in a record as one in the object that the record is embedded in.
fn embed(record: u64, off: u64) -> (res: u64)
    ensures
        res == embedded(record, off),
{
    memory::offset(record, off.saturating_sub(OBJECT_HEADER))
}

/// Resolves where the fields of a card stand in the objects of the class
/// `runtime_value_class`.
pub fn resolve_card_field_offsets(
    reader: &MonoReader,
    runtime_value_class: u64,
    cpr_class_hint: u64,
) -> (res: Option<CardFieldOffsets>)
    ensures
        res == card_offsets(reader@, runtime_value_class as int, cpr_class_hint as int),
{
    let name: String = class::read_mono_class_name(reader, runtime_value_class);
    let fields: Vec<MonoFieldInfo> = class::mono_get_class_fields(
        reader,
        runtime_value_class,
    );
    if strings::same_text(name.as_str(), "CardPrintingRecord") {
        return find_record_offsets(&fields);
    }
    match find_record(&fields) {
        None => None,
        Some(record) => {
            let hinted: Vec<MonoFieldInfo> = class::mono_get_class_fields(
                reader,
                cpr_class_hint,
            );
            let o: CardFieldOffsets = match find_record_offsets(&hinted) {
                Some(o) => o,
                None => CardFieldOffsets {
                    grp_id: 0x10,
                    title_id: 0x20,
                    expansion_code: 0x50,
                    collector_number: 0x70,
                },
            };
            Some(
                CardFieldOffsets {
                    grp_id: embed(record, o.grp_id),
                    title_id: embed(record, o.title_id),
                    expansion_code: embed(record, o.expansion_code),
                    collector_number: embed(record, o.collector_number),
                },
            )
        },
    }
}

/// A row of the card database.
pub struct CardRow {
    pub grp_id: i32,
    pub set: Seq<char>,
    pub number: Seq<char>,
    pub title_id: i32,
}

/// The row that a row of plain values stands for.
pub open spec fn row_of(row: (i32, String, String, i32)) -> CardRow {
    CardRow { grp_id: row.0, set: row.1@, number: row.2@, title_id: row.3 }
}

pub open spec fn rows_of(rows: Seq<(i32, String, String, i32)>) -> Seq<CardRow> {
    Seq::new(rows.len(), |i: int| row_of(rows[i]))
}

/// The managed string that the pointer at `a` points to; empty without one.
pub open spec fn string_field(mem: Map<int, u8>, a: int) -> Seq<char> {
    match strings::mono_string_at(mem, memory::ptr_at(mem, a)) {
        Some(s) => s,
        None => Seq::empty(),
    }
}

/// The row of a printing: its card id and what the object says.
pub open spec fn card_row(mem: Map<int, u8>, printing: (i32, u64), o: CardFieldOffsets) -> CardRow {
    CardRow {
        grp_id: printing.0,
        set: string_field(mem, memory::wrap(printing.1 + o.expansion_code)),
        number: string_field(mem, memory::wrap(printing.1 + o.collector_number)),
        title_id: memory::i32_at(mem, memory::wrap(printing.1 + o.title_id)) as i32,
    }
}

pub open spec fn card_rows(
    mem: Map<int, u8>,
    printings: Seq<(i32, u64)>,
    o: CardFieldOffsets,
) -> Seq<CardRow> {
    Seq::new(printings.len(), |i: int| card_row(mem, printings[i], o))
}

pub const DATABASE_NOT_FOUND: &'static str = "Could not find card-printing dictionary in Arena's heap.";

pub const OFFSETS_NOT_FOUND: &'static str = "Could not resolve card field offsets on Mono runtime class.";

pub const DATABASE_EMPTY: &'static str = "Found printing dict but walked zero valid entries.";

/// The outcome of reading the database: its rows, or why there are none.
pub open spec fn database_outcome(mem: Map<int, u8>, regions: Seq<(u64, u64)>) -> Result<
    Seq<CardRow>,
    Seq<char>,
> {
    match printing_dictionary(mem, regions) {
        None => Err(DATABASE_NOT_FOUND@),
        Some(dict) => {
            let class = dict_class(mem, dict);
            match card_offsets(mem, class, 0) {
                None => Err(OFFSETS_NOT_FOUND@),
                Some(o) => if printings(mem, dict, class).len() == 0 {
                    Err(DATABASE_EMPTY@)
                } else {
                    Ok(card_rows(mem, printings(mem, dict, class), o))
                },
            }
        },
    }
}

/// The managed string that the pointer at `addr` points to; empty without one.
fn read_string_field(reader: &MonoReader, addr: u64) -> (res: String)
    ensures
        res@ == string_field(reader@, addr as int),
{
    match reader.read_mono_string(reader.read_ptr(addr)) {
        Some(s) => s,
        None => String::new(),
    }
}

/// Reads the card database: rows of a card id, a set code, a collector number
/// and a title id.
pub fn read_mtga_card_database_mono(reader: &MonoReader, heap_regions: &Vec<(u64, u64)>) -> (res:
    Result<Vec<(i32, String, String, i32)>, String>)
    requires
        heap::regions_ok(heap_regions@),
    ensures
        match res {
            Ok(rows) => database_outcome(reader@, heap_regions@) == Ok::<Seq<CardRow>, Seq<char>>(
                rows_of(rows@),
            ),
            Err(message) => database_outcome(reader@, heap_regions@) == Err::<
                Seq<CardRow>,
                Seq<char>,
            >(message@),
        },
{
    let (dict, _count, class): (u64, i32, u64) = match scan_heap_for_card_printing_dictionary(
        reader,
        heap_regions,
    ) {
        Some(found) => found,
        None => {
            return Err(DATABASE_NOT_FOUND.to_owned());
        },
    };
    // Nothing leads to the class of the embedded record, so there is no hint.
    let o: CardFieldOffsets = match resolve_card_field_offsets(reader, class, 0) {
        Some(o) => o,
        None => {
            return Err(OFFSETS_NOT_FOUND.to_owned());
        },
    };
    let list: Vec<(i32, u64)> = read_card_printing_entries(reader, dict, class);
    if list.len() == 0 {
        return Err(DATABASE_EMPTY.to_owned());
    }
    let mut rows: Vec<(i32, String, String, i32)> = Vec::new();
    let mut i: usize = 0;
    while i < list.len()
        invariant
            i <= list.len(),
            rows_of(rows@) == card_rows(reader@, list@, o).take(i as int),
        decreases list.len() - i,
    {
        let (grp_id, value): (i32, u64) = list[i];
        let title_id: i32 = reader.read_i32(memory::offset(value, o.title_id));
        let set: String = read_string_field(
            reader,
            memory::offset(value, o.expansion_code),
        );
        let number: String = read_string_field(
            reader,
            memory::offset(value, o.collector_number),
        );
        let ghost before = rows_of(rows@);
        let ghost all = card_rows(reader@, list@, o);
        let row: (i32, String, String, i32) = (grp_id, set, number, title_id);
        assert(row_of(row) == all[i as int]);
        rows.push(row);
        proof {
            assert(rows_of(rows@) =~= before.push(all[i as int]));
            assert(all.take(i + 1) =~= all.take(i as int).push(all[i as int]));
        }
        i = i + 1;
    }
    assert(rows_of(rows@) =~= card_rows(reader@, list@, o));
    Ok(rows)
}

/// Every printing of a database has a card id, and its object is of the class
/// asked for.
pub proof fn law_printings_are_proper(mem: Map<int, u8>, dict: int, class: int, k: int)
    requires
        0 <= k < printings(mem, dict, class).len(),
    ensures
        MIN_CARD_ID <= printings(mem, dict, class)[k].0 <= MAX_CARD_ID,
        printings(mem, dict, class)[k].1 >= class::MIN_PTR,
        class::class_of(mem, printings(mem, dict, class)[k].1 as int) == class,
{
    let n = printings_read(mem, dict);
    lemma_listed_are_proper(mem, dictionary::dict_entries(mem, dict), n, class, k);
}

proof fn lemma_listed_are_proper(mem: Map<int, u8>, entries: int, n: int, class: int, k: int)
    requires
        0 <= k < printings_listed(mem, entries, n, class).len(),
    ensures
        ({
            let p = printings_listed(mem, entries, n, class)[k];
            &&& MIN_CARD_ID <= p.0 <= MAX_CARD_ID
            &&& p.1 >= class::MIN_PTR
            &&& class::class_of(mem, p.1 as int) == class
        }),
    decreases n,
{
    if k < printings_listed(mem, entries, n - 1, class).len() {
        lemma_listed_are_proper(mem, entries, n - 1, class, k);
    } else {
        let e = printing_entry(entries, n - 1);
        memory::lemma_number_range(mem, memory::wrap(e + PRINTING_VALUE));
    }
}

/// Looking at more entries loses no printing.
proof fn lemma_list_grows(mem: Map<int, u8>, entries: int, i: int, n: int, class: int)
    requires
        i <= n,
    ensures
        printings_listed(mem, entries, i, class).len() <= printings_listed(
            mem,
            entries,
            n,
            class,
        ).len(),
    decreases n - i,
{
    if i < n {
        lemma_list_grows(mem, entries, i, n - 1, class);
    }
}

/// The entry that gives the class is that of a printing of this class.
proof fn lemma_sampled_class_is_listed(mem: Map<int, u8>, entries: int, i: int, n: int)
    requires
        0 <= i <= n,
        class_sampled(mem, entries, i, n) != 0,
    ensures
        printings_listed(mem, entries, n, class_sampled(mem, entries, i, n)).len() > 0,
    decreases n - i,
{
    let class = class_sampled(mem, entries, i, n);
    let e = printing_entry(entries, i);
    if has_card_key(mem, e) && value_class(mem, e) != 0 {
        assert(is_printing(mem, e, class));
        lemma_list_grows(mem, entries, i + 1, n, class);
    } else {
        lemma_sampled_class_is_listed(mem, entries, i + 1, n);
    }
}

/// A database that the scan finds can be read: it has a printing of the class
/// found. So reading it ends with rows as soon as the offsets resolve, and
/// never with the message that nothing was in it.
pub proof fn law_found_database_has_printings(mem: Map<int, u8>, regions: Seq<(u64, u64)>)
    ensures
        match printing_dictionary(mem, regions) {
            Some(dict) => {
                &&& is_printing_dictionary(mem, dict)
                &&& printings(mem, dict, dict_class(mem, dict)).len() > 0
                &&& database_outcome(mem, regions) is Ok <==> card_offsets(
                    mem,
                    dict_class(mem, dict),
                    0,
                ) is Some
            },
            None => database_outcome(mem, regions) is Err,
        },
{
    let hits = heap::heap_hits(mem, regions, DICT_SPAN as int, printing_wanted(mem));
    heap::lemma_best_is_hit(hits, printing_better(mem));
    match printing_dictionary(mem, regions) {
        Some(dict) => {
            let k = hits.index_of(dict);
            heap::law_hits_are_wanted(
                mem,
                regions,
                DICT_SPAN as int,
                printing_wanted(mem),
                k,
            );
            assert(printing_wanted(mem)(dict));
            let entries = dictionary::dict_entries(mem, dict);
            let count = dictionary::dict_count(mem, dict);
            let class = dict_class(mem, dict);
            lemma_sampled_class_is_listed(mem, entries, 0, SAMPLE_ENTRIES as int);
            lemma_list_grows(mem, entries, SAMPLE_ENTRIES as int, count, class);
            lemma_list_grows(mem, entries, SAMPLE_ENTRIES as int, MAX_PRINTINGS as int, class);
        },
        None => {},
    }
}

/// The database is the first of the best dictionaries that read like it: none
/// before it has as many card ids among its first entries and as many entries,
/// and none behind it has more of the former, or equally many and more of the
/// latter.
pub proof fn law_database_is_first_best(mem: Map<int, u8>, regions: Seq<(u64, u64)>)
    ensures
        ({
            let hits = heap::heap_hits(mem, regions, DICT_SPAN as int, printing_wanted(mem));
            match printing_dictionary(mem, regions) {
                None => hits.len() == 0,
                Some(dict) => exists|k: int|
                    #![trigger hits[k]]
                    {
                        &&& 0 <= k < hits.len()
                        &&& hits[k] == dict
                        &&& forall|j: int|
                            0 <= j < k ==> printing_better(mem)(dict, #[trigger] hits[j])
                        &&& forall|j: int|
                            k < j < hits.len() ==> !printing_better(mem)(#[trigger] hits[j], dict)
                    },
            }
        }),
{
    let hits = heap::heap_hits(mem, regions, DICT_SPAN as int, printing_wanted(mem));
    let better = printing_better(mem);
    heap::law_best_is_first_best(hits, better);
    match printing_dictionary(mem, regions) {
        None => {},
        Some(dict) => {
            let k = choose|k: int|
                heap::is_first_best(hits, better, k) && hits[k] == dict;
            assert(hits[k] == dict);
        },
    }
}

/// Where neither end of the address space is in the way, the effective offset
/// of a field is that of the record, plus that of the field in a record of its
/// own, less the object header.
pub proof fn law_effective_offset(record: u64, off: u64)
    requires
        off >= OBJECT_HEADER,
        record + off - OBJECT_HEADER <= u64::MAX,
    ensures
        embedded(record, off) == record + off - OBJECT_HEADER,
{
}

/// In a class that embeds its record, the offsets without a hint are the known
/// ones, moved to where the record stands.
pub proof fn law_offsets_without_hint(mem: Map<int, u8>, class: int, hint: int, record: u64)
    requires
        class::class_name(mem, class) != "CardPrintingRecord"@,
        class::field_offset(class::class_fields(mem, class), record_names()) == Some(
            record,
        ),
        record_offsets(class::class_fields(mem, hint)) is None,
        record + 0x60 <= u64::MAX,
    ensures
        card_offsets(mem, class, hint) == Some(
            CardFieldOffsets {
                grp_id: record,
                title_id: (record + 0x10) as u64,
                expansion_code: (record + 0x40) as u64,
                collector_number: (record + 0x60) as u64,
            },
        ),
{
    let o = known_record_offsets();
    assert(card_offsets(mem, class, hint) == Some(embedded_offsets(record, o)));
    law_effective_offset(record, o.grp_id);
    law_effective_offset(record, o.title_id);
    law_effective_offset(record, o.expansion_code);
    law_effective_offset(record, o.collector_number);
}

/// The scan finds a database wherever there is one, and none that it passes
/// over is better than what it finds.
pub proof fn law_scan_finds_database(
    mem: Map<int, u8>,
    regions: Seq<(u64, u64)>,
    r: int,
    i: int,
)
    requires
        heap::is_slot(mem, regions, DICT_SPAN as int, r, i),
        is_printing_dictionary(mem, regions[r].0 + SLOT * i),
    ensures
        printing_dictionary(mem, regions) matches Some(dict) && !printing_better(mem)(
            regions[r].0 + SLOT * i,
            dict,
        ),
{
    let a = regions[r].0 + SLOT * i;
    let hits = heap::heap_hits(mem, regions, DICT_SPAN as int, printing_wanted(mem));
    assert(printing_wanted(mem)(a));
    heap::law_wanted_slot_is_hit(mem, regions, DICT_SPAN as int, printing_wanted(mem), r, i);
    heap::law_no_hit_is_better(hits, printing_better(mem), a);
}

/// Reading a database misses no printing and makes none up: a pair is in the
/// result if and only if an entry is that of a printing with this id and object.
pub proof fn law_printings_are_exact(
    mem: Map<int, u8>,
    dict: int,
    class: int,
    printing: (i32, u64),
)
    ensures
        printings(mem, dict, class).contains(printing) <==> exists|i: int|
            #![trigger printing_entry(dictionary::dict_entries(mem, dict), i)]
            {
                let e = printing_entry(dictionary::dict_entries(mem, dict), i);
                &&& 0 <= i < printings_read(mem, dict)
                &&& is_printing(mem, e, class)
                &&& printing == (printing_key(mem, e) as i32, printing_value(mem, e) as u64)
            },
{
    lemma_list_is_exact(
        mem,
        dictionary::dict_entries(mem, dict),
        printings_read(mem, dict),
        class,
        printing,
    );
}

proof fn lemma_list_is_exact(
    mem: Map<int, u8>,
    entries: int,
    n: int,
    class: int,
    printing: (i32, u64),
)
    ensures
        printings_listed(mem, entries, n, class).contains(printing) <==> exists|i: int|
            #![trigger printing_entry(entries, i)]
            {
                let e = printing_entry(entries, i);
                &&& 0 <= i < n
                &&& is_printing(mem, e, class)
                &&& printing == (printing_key(mem, e) as i32, printing_value(mem, e) as u64)
            },
    decreases n,
{
    if n > 0 {
        lemma_list_is_exact(mem, entries, n - 1, class, printing);
        let before = printings_listed(mem, entries, n - 1, class);
        let all = printings_listed(mem, entries, n, class);
        let e = printing_entry(entries, n - 1);
        if before.contains(printing) {
            let k = before.index_of(printing);
            assert(all[k] == printing);
        }
        if is_printing(mem, e, class) {
            assert(all[all.len() - 1] == (
                printing_key(mem, e) as i32,
                printing_value(mem, e) as u64,
            ));
        }
        if all.contains(printing) && !before.contains(printing) {
            let k = all.index_of(printing);
            assert(all[k] == printing);
            if k < before.len() {
                assert(before[k] == printing);
            }
        }
    }
}

/// Entry `i` of the array at `entries` starts here: entries of 24 bytes follow
/// the array's own 32.
pub open spec fn entry_place(entries: int, i: int) -> int {
    memory::wrap(entries + 0x20 + 24 * i)
}

/// The card id in the entry at `e`, 8 bytes behind its start.
pub open spec fn id_there(mem: Map<int, u8>, e: int) -> int {
    memory::i32_at(mem, memory::wrap(e + 8))
}

/// The object of the entry at `e` is where the pointer 16 bytes behind its start
/// leads to.
pub open spec fn object_there(mem: Map<int, u8>, e: int) -> int {
    memory::ptr_at(mem, memory::wrap(e + 16))
}

/// The entry at `e` has a card id, which is its hash at the start of the entry too.
pub open spec fn holds_id(mem: Map<int, u8>, e: int) -> bool {
    memory::i32_at(mem, e) == id_there(mem, e) && 1 <= id_there(mem, e) <= 200_000
}

/// The entry at `e` has a card id and leads to an object with a class.
pub open spec fn holds_classed_object(mem: Map<int, u8>, e: int) -> bool {
    &&& holds_id(mem, e)
    &&& 0x1_0000 <= object_there(mem, e) <= 0x7FFF_FFFF_FFFF
    &&& 0x1_0000 <= class::class_of(mem, object_there(mem, e)) <= 0x7FFF_FFFF_FFFF
}

/// Entry `i` is the first of the entries from `from` to 30 that leads to an
/// object with a class, and all of them up to it can be read.
pub open spec fn is_first_classed(mem: Map<int, u8>, entries: int, from: int, i: int) -> bool {
    &&& from <= i < 30
    &&& holds_classed_object(mem, entry_place(entries, i))
    &&& forall|j: int| from <= j <= i ==> memory::mapped(mem, #[trigger] entry_place(entries, j), 24)
    &&& forall|j: int|
        from <= j < i ==> !holds_classed_object(mem, #[trigger] entry_place(entries, j))
}

/// How many of the first 30 entries of the dictionary at `a`, before any that
/// cannot be read, have a card id.
pub open spec fn ids_there(mem: Map<int, u8>, a: int) -> nat {
    let entries = dictionary::entries_there(mem, a);
    dictionary::good_entries(
        |i: int| memory::mapped(mem, entry_place(entries, i), 24),
        |i: int| holds_id(mem, entry_place(entries, i)),
        0,
        30,
    ).len()
}

/// `class` is that of the first object with a class that the first 30 entries of
/// the dictionary at `a` lead to.
pub open spec fn is_class_of_values(mem: Map<int, u8>, a: int, class: int) -> bool {
    let entries = dictionary::entries_there(mem, a);
    exists|i: int| #[trigger]
        is_first_classed(mem, entries, 0, i) && class == class::class_of(
            mem,
            object_there(mem, entry_place(entries, i)),
        )
}

/// A dictionary that can be the database: it has 5000 to 100000 entries, its
/// pointers lead somewhere, at least 10 of its first 30 entries have a card id,
/// and the class of its values is one of printings.
pub open spec fn reads_like_database(mem: Map<int, u8>, a: int) -> bool {
    let buckets = memory::ptr_at(mem, memory::wrap(a + 0x10));
    let entries = dictionary::entries_there(mem, a);
    &&& 5_000 <= dictionary::count_there(mem, a) <= 100_000
    &&& 0x1_0000 <= buckets <= 0x7FFF_FFFF_FFFF
    &&& 0x1_0000 <= entries <= 0x7FFF_FFFF_FFFF
    &&& ids_there(mem, a) >= 10
    &&& exists|class: int| #[trigger]
        is_class_of_values(mem, a, class) && (class::class_name(mem, class) == "CardPrintingData"@
            || class::class_name(mem, class) == "CardPrintingRecord"@)
}

/// The dictionary at `b` has fewer card ids among its first entries than that at
/// `a`, or equally many and fewer entries.
pub open spec fn is_poorer(mem: Map<int, u8>, b: int, a: int) -> bool {
    ||| ids_there(mem, b) < ids_there(mem, a)
    ||| ids_there(mem, b) == ids_there(mem, a) && dictionary::count_there(mem, b)
        < dictionary::count_there(mem, a)
}

/// The scan finds the first of the richest dictionaries that can be the
/// database, among all places of the heap that are 8 bytes apart and have 48
/// bytes, and gives its address, its count and the class of its values; it finds
/// none only where there is none.
pub proof fn law_scan_finds_first_richest_database(
    mem: Map<int, u8>,
    regions: Seq<(u64, u64)>,
    found: Option<(u64, i32, u64)>,
)
    requires
        match found {
            Some((dict, count, class)) => {
                &&& printing_dictionary(mem, regions) == Some(dict as int)
                &&& count == dictionary::dict_count(mem, dict as int)
                &&& class == dict_class(mem, dict as int)
            },
            None => printing_dictionary(mem, regions) is None,
        },
    ensures
        match found {
            None => forall|r: int, i: int, a: int| #[trigger]
                heap::is_place(mem, regions, 0x30, r, i, a) ==> !reads_like_database(mem, a),
            Some((dict, count, class)) => {
                &&& reads_like_database(mem, dict as int)
                &&& count == memory::i32_at(mem, memory::wrap(dict + 0x20))
                &&& is_class_of_values(mem, dict as int, class as int)
                &&& exists|r: int, i: int| #[trigger]
                    heap::is_place(mem, regions, 0x30, r, i, dict as int) && forall|
                        q: int,
                        j: int,
                        b: int,
                    | #[trigger]
                        heap::is_place(mem, regions, 0x30, q, j, b) && reads_like_database(mem, b)
                            ==> if heap::comes_before(q, j, r, i) {
                            is_poorer(mem, b, dict as int)
                        } else {
                            !is_poorer(mem, dict as int, b)
                        }
            },
        },
{
    let wanted = printing_wanted(mem);
    let better = printing_better(mem);
    heap::law_scan_keeps_first_best_place(mem, regions, 0x30, wanted, better);
    assert forall|a: int| wanted(a) == #[trigger] reads_like_database(mem, a) by {
        lemma_reads_like_database(mem, a);
    }
    assert forall|a: int, b: int| #[trigger] is_poorer(mem, b, a) == better(a, b) by {
        lemma_ids_there(mem, a);
        lemma_ids_there(mem, b);
    }
    match found {
        None => {},
        Some((d, count, class)) => {
            let dict = d as int;
            let (r, i) = choose|r: int, i: int| #[trigger]
                heap::is_first_best_place(mem, regions, 0x30, wanted, better, r, i, dict);
            assert(heap::is_place(mem, regions, 0x30, r, i, dict));
            assert(wanted(dict));
            lemma_class_of_values(mem, dict);
            assert forall|q: int, j: int, b: int| #[trigger]
                heap::is_place(mem, regions, 0x30, q, j, b) && reads_like_database(
                    mem,
                    b,
                ) implies if heap::comes_before(q, j, r, i) {
                is_poorer(mem, b, dict)
            } else {
                !is_poorer(mem, dict, b)
            } by {
                assert(wanted(b));
                assert(is_poorer(mem, b, dict) == better(dict, b));
                assert(is_poorer(mem, dict, b) == better(b, dict));
            }
        },
    }
}

proof fn lemma_ids_are_counted(mem: Map<int, u8>, entries: int, i: int)
    requires
        i <= 30,
    ensures
        keys_sampled(mem, entries, i, 30) == dictionary::good_entries(
            |i: int| memory::mapped(mem, entry_place(entries, i), 24),
            |i: int| holds_id(mem, entry_place(entries, i)),
            i,
            30,
        ).len(),
    decreases 30 - i,
{
    dictionary::lemma_good_entries(
        |i: int| memory::mapped(mem, entry_place(entries, i), 24),
        |i: int| holds_id(mem, entry_place(entries, i)),
        i,
        30,
    );
    if i < 30 {
        lemma_ids_are_counted(mem, entries, i + 1);
        assert(printing_entry(entries, i) == entry_place(entries, i));
    }
}

/// The class sampled is that of the first object with a class.
proof fn lemma_class_is_first(mem: Map<int, u8>, entries: int, from: int)
    requires
        from <= 30,
    ensures
        ({
            let class = class_sampled(mem, entries, from, 30);
            if class != 0 {
                exists|i: int| #[trigger]
                    is_first_classed(mem, entries, from, i) && class == class::class_of(
                        mem,
                        object_there(mem, entry_place(entries, i)),
                    )
            } else {
                forall|i: int| !#[trigger] is_first_classed(mem, entries, from, i)
            }
        }),
    decreases 30 - from,
{
    if from < 30 {
        let e = printing_entry(entries, from);
        assert(e == entry_place(entries, from));
        let class = class_sampled(mem, entries, from, 30);
        lemma_class_is_first(mem, entries, from + 1);
        if !memory::mapped(mem, e, 24) {
            assert forall|i: int| !#[trigger] is_first_classed(mem, entries, from, i) by {
                if is_first_classed(mem, entries, from, i) {
                    assert(memory::mapped(mem, entry_place(entries, from), 24));
                }
            }
        } else if holds_classed_object(mem, e) {
            assert(value_class(mem, e) != 0);
            assert(is_first_classed(mem, entries, from, from));
        } else {
            assert(!(has_card_key(mem, e) && value_class(mem, e) != 0));
            assert forall|i: int| is_first_classed(mem, entries, from, i)
                == #[trigger] is_first_classed(mem, entries, from + 1, i) by {
                if is_first_classed(mem, entries, from, i) {
                    assert(i != from);
                }
                if is_first_classed(mem, entries, from + 1, i) {
                    assert forall|j: int| from <= j <= i implies memory::mapped(
                        mem,
                        #[trigger] entry_place(entries, j),
                        24,
                    ) by {
                        if j > from {
                            assert(from + 1 <= j);
                        }
                    }
                    assert forall|j: int| from <= j < i implies !holds_classed_object(
                        mem,
                        #[trigger] entry_place(entries, j),
                    ) by {
                        if j > from {
                            assert(from + 1 <= j);
                        }
                    }
                }
            }
            if class != 0 {
                let i = choose|i: int| #[trigger]
                    is_first_classed(mem, entries, from + 1, i) && class == class::class_of(
                        mem,
                        object_there(mem, entry_place(entries, i)),
                    );
                assert(is_first_classed(mem, entries, from, i));
            } else {
                assert forall|i: int| !#[trigger] is_first_classed(mem, entries, from, i) by {
                    assert(!is_first_classed(mem, entries, from + 1, i));
                }
            }
        }
    }
}

/// The class of a dictionary's values is the class sampled, and there is no other.
proof fn lemma_class_of_values(mem: Map<int, u8>, a: int)
    ensures
        dict_class(mem, a) != 0 ==> is_class_of_values(mem, a, dict_class(mem, a)),
        forall|class: int| #[trigger]
            is_class_of_values(mem, a, class) ==> dict_class(mem, a) == class && class != 0,
{
    let entries = dictionary::entries_there(mem, a);
    lemma_class_is_first(mem, entries, 0);
    assert forall|class: int| #[trigger] is_class_of_values(mem, a, class) implies dict_class(mem, a)
        == class && class != 0 by {
        lemma_class_is_unique(mem, a, class);
    }
}

/// How many card ids are sampled.
proof fn lemma_ids_there(mem: Map<int, u8>, a: int)
    ensures
        dict_matches(mem, a) == ids_there(mem, a),
{
    lemma_ids_are_counted(mem, dictionary::dict_entries(mem, a), 0);
}

/// Only one class is that of the values.
proof fn lemma_class_is_unique(mem: Map<int, u8>, a: int, class: int)
    requires
        is_class_of_values(mem, a, class),
    ensures
        dict_class(mem, a) == class,
{
    let entries = dictionary::entries_there(mem, a);
    lemma_class_is_first(mem, entries, 0);
    let i = choose|i: int| #[trigger]
        is_first_classed(mem, entries, 0, i) && class == class::class_of(
            mem,
            object_there(mem, entry_place(entries, i)),
        );
    let sampled = class_sampled(mem, entries, 0, 30);
    let j = choose|j: int| #[trigger]
        is_first_classed(mem, entries, 0, j) && sampled == class::class_of(
            mem,
            object_there(mem, entry_place(entries, j)),
        );
    if i < j {
        assert(!holds_classed_object(mem, entry_place(entries, i)));
    } else if j < i {
        assert(!holds_classed_object(mem, entry_place(entries, j)));
    }
}

proof fn lemma_reads_like_database(mem: Map<int, u8>, a: int)
    ensures
        is_printing_dictionary(mem, a) == reads_like_database(mem, a),
{
    lemma_ids_there(mem, a);
    lemma_class_of_values(mem, a);
}

/// The entry at `e` has a card id and leads to an object of the given class.
pub open spec fn holds_printing(mem: Map<int, u8>, e: int, class: int) -> bool {
    &&& holds_id(mem, e)
    &&& object_there(mem, e) >= 0x1_0000
    &&& class::class_of(mem, object_there(mem, e)) == class
}

/// Entry `at[k]` of the dictionary at `dict` is where printing `k` of the list
/// comes from.
pub open spec fn comes_from(
    mem: Map<int, u8>,
    dict: int,
    class: int,
    list: Seq<(i32, u64)>,
    at: Seq<int>,
    k: int,
) -> bool {
    let e = entry_place(dictionary::entries_there(mem, dict), at[k]);
    &&& 0 <= at[k] < dictionary::count_there(mem, dict)
    &&& at[k] < 100_000
    &&& holds_printing(mem, e, class)
    &&& list[k].0 == id_there(mem, e)
    &&& list[k].1 == object_there(mem, e)
}

/// The printings of the list come from the entries `at`, which ascend and are
/// below `n`.
pub open spec fn come_in_order(
    mem: Map<int, u8>,
    dict: int,
    class: int,
    list: Seq<(i32, u64)>,
    at: Seq<int>,
    n: int,
) -> bool {
    &&& at.len() == list.len()
    &&& forall|k: int| 0 <= k < at.len() ==> #[trigger] comes_from(mem, dict, class, list, at, k)
    &&& forall|j: int, k: int| 0 <= j < k < at.len() ==> #[trigger] at[j] < #[trigger] at[k]
    &&& forall|k: int| 0 <= k < at.len() ==> #[trigger] at[k] < n
}

/// The list of a database's printings goes through the entries in order: each
/// printing comes from an entry behind that of the printing before it.
pub proof fn law_printings_come_in_order(mem: Map<int, u8>, dict: int, class: int)
    ensures
        exists|at: Seq<int>| #[trigger]
            come_in_order(
                mem,
                dict,
                class,
                printings(mem, dict, class),
                at,
                dictionary::count_there(mem, dict),
            ),
{
    let n = printings_read(mem, dict);
    let list = printings(mem, dict, class);
    lemma_printings_come_in_order(mem, dict, class, n);
    let at = choose|at: Seq<int>| #[trigger] come_in_order(mem, dict, class, list, at, n);
    let count = dictionary::count_there(mem, dict);
    assert forall|k: int| 0 <= k < at.len() implies #[trigger] at[k] < count by {
        assert(comes_from(mem, dict, class, list, at, k));
    }
    assert(come_in_order(mem, dict, class, list, at, count));
}

proof fn lemma_printings_come_in_order(mem: Map<int, u8>, dict: int, class: int, n: int)
    requires
        n <= printings_read(mem, dict),
    ensures
        exists|at: Seq<int>| #[trigger]
            come_in_order(
                mem,
                dict,
                class,
                printings_listed(mem, dictionary::dict_entries(mem, dict), n, class),
                at,
                n,
            ),
    decreases n,
{
    let entries = dictionary::dict_entries(mem, dict);
    let list = printings_listed(mem, entries, n, class);
    if n <= 0 {
        assert(come_in_order(mem, dict, class, list, Seq::<int>::empty(), n));
    } else {
        lemma_printings_come_in_order(mem, dict, class, n - 1);
        let before = printings_listed(mem, entries, n - 1, class);
        let old_at = choose|at: Seq<int>| #[trigger]
            come_in_order(mem, dict, class, before, at, n - 1);
        let e = printing_entry(entries, n - 1);
        assert(e == entry_place(dictionary::entries_there(mem, dict), n - 1));
        let at = if is_printing(mem, e, class) {
            old_at.push(n - 1)
        } else {
            old_at
        };
        assert(at.len() == list.len());
        assert forall|k: int| 0 <= k < at.len() implies #[trigger] comes_from(
            mem,
            dict,
            class,
            list,
            at,
            k,
        ) by {
            if k < before.len() {
                assert(comes_from(mem, dict, class, before, old_at, k));
                assert(list[k] == before[k]);
                assert(at[k] == old_at[k]);
            } else {
                memory::lemma_number_range(mem, memory::wrap(e + 8));
                memory::lemma_number_range(mem, memory::wrap(e + 16));
            }
        }
        assert(come_in_order(mem, dict, class, list, at, n));
    }
}

/// No printing of a database is lost: each of the first 100000 entries that the
/// dictionary counts and that holds a printing is in the list.
pub proof fn law_no_printing_is_lost(mem: Map<int, u8>, dict: int, class: int, i: int)
    requires
        dictionary::entries_there(mem, dict) >= 0x1_0000,
        0 <= i < dictionary::count_there(mem, dict),
        i < 100_000,
        holds_printing(mem, entry_place(dictionary::entries_there(mem, dict), i), class),
    ensures
        ({
            let e = entry_place(dictionary::entries_there(mem, dict), i);
            printings(mem, dict, class).contains(
                (id_there(mem, e) as i32, object_there(mem, e) as u64),
            )
        }),
{
    let entries = dictionary::dict_entries(mem, dict);
    let e = printing_entry(entries, i);
    assert(e == entry_place(dictionary::entries_there(mem, dict), i));
    law_printings_are_exact(
        mem,
        dict,
        class,
        (printing_key(mem, e) as i32, printing_value(mem, e) as u64),
    );
}

/// As many printings are listed as entries hold one.
pub proof fn law_printings_are_counted(mem: Map<int, u8>, dict: int, class: int)
    requires
        dictionary::entries_there(mem, dict) >= 0x1_0000,
    ensures
        printings(mem, dict, class).len() == dictionary::good_entries(
            |i: int| true,
            |i: int|
                i < 100_000 && holds_printing(
                    mem,
                    entry_place(dictionary::entries_there(mem, dict), i),
                    class,
                ),
            0,
            dictionary::count_there(mem, dict),
        ).len(),
{
    let entries = dictionary::entries_there(mem, dict);
    let n = printings_read(mem, dict);
    let good = |i: int| i < 100_000 && holds_printing(mem, entry_place(entries, i), class);
    let all = dictionary::good_entries(
        |i: int| true,
        good,
        0,
        dictionary::count_there(mem, dict),
    );
    lemma_printings_are_counted(mem, entries, n, class);
    assert(all =~= Set::new(
        |k: int| 0 <= k < n && holds_printing(mem, entry_place(entries, k), class),
    ));
}

proof fn lemma_printings_are_counted(mem: Map<int, u8>, entries: int, n: int, class: int)
    ensures
        ({
            let all = Set::new(
                |k: int| 0 <= k < n && holds_printing(mem, entry_place(entries, k), class),
            );
            all.finite() && all.len() == printings_listed(mem, entries, n, class).len()
        }),
    decreases n,
{
    let all = Set::new(|k: int| 0 <= k < n && holds_printing(mem, entry_place(entries, k), class));
    if n <= 0 {
        assert(all =~= Set::<int>::empty());
    } else {
        lemma_printings_are_counted(mem, entries, n - 1, class);
        let before = Set::new(
            |k: int| 0 <= k < n - 1 && holds_printing(mem, entry_place(entries, k), class),
        );
        assert(printing_entry(entries, n - 1) == entry_place(entries, n - 1));
        if holds_printing(mem, entry_place(entries, n - 1), class) {
            assert(all =~= before.insert(n - 1));
        } else {
            assert(all =~= before);
        }
    }
}

/// A dictionary without entries, or with a pointer to them that leads nowhere,
/// has no printings.
pub proof fn law_no_entries_no_printings(mem: Map<int, u8>, dict: int, class: int)
    requires
        dictionary::entries_there(mem, dict) < 0x1_0000 || dictionary::count_there(mem, dict) <= 0,
    ensures
        printings(mem, dict, class).len() == 0,
{
}

/// The fields of a printing record stand at the offsets.
pub open spec fn stand_at(fields: Seq<MonoFieldInfo>, o: CardFieldOffsets) -> bool {
    &&& class::stands_at(fields, "GrpId"@, o.grp_id)
    &&& class::stands_at(fields, "TitleId"@, o.title_id)
    &&& class::stands_at(fields, "ExpansionCode"@, o.expansion_code)
    &&& class::stands_at(fields, "CollectorNumber"@, o.collector_number)
}

/// One of the fields of a printing record is missing.
pub open spec fn lacks_a_field(fields: Seq<MonoFieldInfo>) -> bool {
    ||| class::is_missing(fields, "GrpId"@)
    ||| class::is_missing(fields, "TitleId"@)
    ||| class::is_missing(fields, "ExpansionCode"@)
    ||| class::is_missing(fields, "CollectorNumber"@)
}

proof fn lemma_record_offsets(fields: Seq<MonoFieldInfo>)
    ensures
        match record_offsets(class::models(fields)) {
            Some(o) => stand_at(fields, o),
            None => lacks_a_field(fields),
        },
{
    class::law_field_is_found_by_name(fields, "GrpId"@);
    class::law_field_is_found_by_name(fields, "TitleId"@);
    class::law_field_is_found_by_name(fields, "ExpansionCode"@);
    class::law_field_is_found_by_name(fields, "CollectorNumber"@);
}

/// The offsets in a printing record are those of its own fields, by their
/// names; without one of them there are none.
pub proof fn law_offsets_of_a_record(
    mem: Map<int, u8>,
    class: int,
    hint: int,
    fields: Seq<MonoFieldInfo>,
)
    requires
        class::class_name(mem, class) == "CardPrintingRecord"@,
        class::models(fields) == class::class_fields(mem, class),
    ensures
        match card_offsets(mem, class, hint) {
            Some(o) => stand_at(fields, o),
            None => lacks_a_field(fields),
        },
{
    lemma_record_offsets(fields);
}

/// The names of the field that holds an embedded record.
pub open spec fn embedded_names() -> Seq<Seq<char>> {
    seq!["Record"@, "<Record>k__BackingField"@, "_record"@]
}

/// A record that stands at `record` in an object has what is `off` bytes behind
/// the start of a record of its own at `place`: the 16 bytes of the header are
/// missing, and nothing stands before the record.
pub open spec fn is_moved(record: u64, off: u64, place: u64) -> bool {
    place == memory::wrap(
        if off < 0x10 {
            record as int
        } else {
            record + off - 0x10
        },
    )
}

/// The offsets in any other class of printings are those of a record, moved to
/// where the record stands in it. The offsets of the record are those of the
/// fields of the class `hint`, if it has all of them, and else the known ones.
/// Without a record there are none.
pub proof fn law_offsets_of_an_embedded_record(
    mem: Map<int, u8>,
    class: int,
    hint: int,
    fields: Seq<MonoFieldInfo>,
    hinted: Seq<MonoFieldInfo>,
)
    requires
        class::class_name(mem, class) != "CardPrintingRecord"@,
        class::models(fields) == class::class_fields(mem, class),
        class::models(hinted) == class::class_fields(mem, hint),
    ensures
        match card_offsets(mem, class, hint) {
            Some(o) => exists|k: int, record: u64, own: CardFieldOffsets|
                #![trigger class::is_first_named(fields, embedded_names(), k, record), stand_at(hinted, own)]
                {
                    &&& class::is_first_named(fields, embedded_names(), k, record)
                    &&& stand_at(hinted, own) || (lacks_a_field(hinted) && own.grp_id == 0x10
                        && own.title_id == 0x20 && own.expansion_code == 0x50
                        && own.collector_number == 0x70)
                    &&& is_moved(record, own.grp_id, o.grp_id)
                    &&& is_moved(record, own.title_id, o.title_id)
                    &&& is_moved(record, own.expansion_code, o.expansion_code)
                    &&& is_moved(record, own.collector_number, o.collector_number)
                },
            None => class::is_missing(fields, "Record"@) && class::is_missing(fields, "<Record>k__BackingField"@)
                && class::is_missing(fields, "_record"@),
        },
{
    lemma_embedded_names();
    match class::field_offset(class::models(fields), record_names()) {
        Some(record) => {
            let own = match record_offsets(class::class_fields(mem, hint)) {
                Some(own) => own,
                None => known_record_offsets(),
            };
            let o = embedded_offsets(record, own);
            assert(card_offsets(mem, class, hint) == Some(o));
            class::lemma_first_named(fields, record_names(), embedded_names(), record);
            let k = choose|k: int| #[trigger]
                class::is_first_named(fields, embedded_names(), k, record);
            assert(stand_at(hinted, own) || lacks_a_field(hinted) && own
                == known_record_offsets()) by {
                lemma_record_offsets(hinted);
            }
            lemma_is_moved(record, own.grp_id);
            lemma_is_moved(record, own.title_id);
            lemma_is_moved(record, own.expansion_code);
            lemma_is_moved(record, own.collector_number);
        },
        None => {
            lemma_no_record(fields);
        },
    }
}

proof fn lemma_embedded_names()
    ensures
        forall|n: Seq<char>| #[trigger] record_names()(n) <==> embedded_names().contains(n),
{
    let names = embedded_names();
    assert(names[0] == "Record"@);
    assert(names[1] == "<Record>k__BackingField"@);
    assert(names[2] == "_record"@);
}

proof fn lemma_is_moved(record: u64, off: u64)
    ensures
        is_moved(record, off, embedded(record, off)),
{
}

proof fn lemma_no_record(fields: Seq<MonoFieldInfo>)
    requires
        class::field_offset(class::models(fields), record_names()) is None,
    ensures
        class::is_missing(fields, "Record"@),
        class::is_missing(fields, "<Record>k__BackingField"@),
        class::is_missing(fields, "_record"@),
{
    let all = class::models(fields);
    class::law_field_offset_is_first(all, record_names());
    assert forall|k: int| 0 <= k < fields.len() implies (#[trigger] fields[k]).is_static
        || !record_names()(fields[k].name@) by {
        assert(all[k] == fields[k]@);
    }
}

/// The text of the managed string that the pointer at `a` leads to; an empty
/// text where it leads to none.
pub open spec fn is_text_at(mem: Map<int, u8>, a: int, text: Seq<char>) -> bool {
    match strings::mono_string_at(mem, memory::ptr_at(mem, a)) {
        Some(s) => text == s,
        None => text.len() == 0,
    }
}

/// What a row says of a printing: its card id, then its set code, its collector
/// number and its title id, each from its own place in the object.
pub open spec fn tells_of(
    mem: Map<int, u8>,
    row: (i32, String, String, i32),
    printing: (i32, u64),
    o: CardFieldOffsets,
) -> bool {
    &&& row.0 == printing.0
    &&& is_text_at(mem, memory::wrap(printing.1 + o.expansion_code), row.1@)
    &&& is_text_at(mem, memory::wrap(printing.1 + o.collector_number), row.2@)
    &&& row.3 == memory::i32_at(mem, memory::wrap(printing.1 + o.title_id))
}

/// Reading the database gives a row for each printing of the dictionary that the
/// scan finds, in their order.
pub proof fn law_rows_tell_of_printings(
    mem: Map<int, u8>,
    regions: Seq<(u64, u64)>,
    rows: Seq<(i32, String, String, i32)>,
)
    requires
        database_outcome(mem, regions) == Ok::<Seq<CardRow>, Seq<char>>(rows_of(rows)),
    ensures
        ({
            let dict = printing_dictionary(mem, regions)->0;
            let class = dict_class(mem, dict);
            let o = card_offsets(mem, class, 0)->0;
            let list = printings(mem, dict, class);
            &&& printing_dictionary(mem, regions) is Some
            &&& card_offsets(mem, class, 0) is Some
            &&& rows.len() == list.len() > 0
            &&& forall|k: int|
                0 <= k < rows.len() ==> #[trigger] tells_of(mem, rows[k], list[k], o)
        }),
{
    let dict = printing_dictionary(mem, regions)->0;
    let class = dict_class(mem, dict);
    let o = card_offsets(mem, class, 0)->0;
    let list = printings(mem, dict, class);
    let models = card_rows(mem, list, o);
    assert(rows_of(rows) == models);
    assert(rows_of(rows).len() == rows.len());
    assert forall|k: int| 0 <= k < rows.len() implies #[trigger] tells_of(
        mem,
        rows[k],
        list[k],
        o,
    ) by {
        assert(rows_of(rows)[k] == row_of(rows[k]));
        assert(models[k] == card_row(mem, list[k], o));
        memory::lemma_number_range(mem, memory::wrap(list[k].1 + o.title_id));
    }
}

/// The title id of a row is the number whose four bytes, the lowest first, stand
/// in the object: all 32 bits of it, whatever they are.
pub proof fn law_title_id_is_read_back(
    mem: Map<int, u8>,
    regions: Seq<(u64, u64)>,
    rows: Seq<(i32, String, String, i32)>,
    k: int,
    title: i32,
)
    requires
        database_outcome(mem, regions) == Ok::<Seq<CardRow>, Seq<char>>(rows_of(rows)),
        0 <= k < rows.len(),
        ({
            let dict = printing_dictionary(mem, regions)->0;
            let class = dict_class(mem, dict);
            let o = card_offsets(mem, class, 0)->0;
            let a = memory::wrap(printings(mem, dict, class)[k].1 + o.title_id);
            let u = if title < 0 {
                title + 0x1_0000_0000
            } else {
                title as int
            };
            &&& memory::holds_byte(mem, a, u % 0x100)
            &&& memory::holds_byte(mem, a + 1, u / 0x100 % 0x100)
            &&& memory::holds_byte(mem, a + 2, u / 0x1_0000 % 0x100)
            &&& memory::holds_byte(mem, a + 3, u / 0x100_0000)
        }),
    ensures
        rows[k].3 == title,
{
    let dict = printing_dictionary(mem, regions)->0;
    let class = dict_class(mem, dict);
    let o = card_offsets(mem, class, 0)->0;
    let list = printings(mem, dict, class);
    law_rows_tell_of_printings(mem, regions, rows);
    assert(tells_of(mem, rows[k], list[k], o));
    memory::law_i32_reads_back(mem, memory::wrap(list[k].1 + o.title_id), title);
}

/// Reading the database fails only where the scan finds none, or where the
/// offsets in its objects cannot be resolved, and says which.
pub proof fn law_database_errors(mem: Map<int, u8>, regions: Seq<(u64, u64)>)
    ensures
        match printing_dictionary(mem, regions) {
            None => database_outcome(mem, regions) == Err::<Seq<CardRow>, Seq<char>>(
                "Could not find card-printing dictionary in Arena's heap."@,
            ),
            Some(dict) => match card_offsets(mem, dict_class(mem, dict), 0) {
                None => database_outcome(mem, regions) == Err::<Seq<CardRow>, Seq<char>>(
                    "Could not resolve card field offsets on Mono runtime class."@,
                ),
                Some(_) => database_outcome(mem, regions) is Ok,
            },
        },
{
    law_found_database_has_printings(mem, regions);
}

} // verus!
