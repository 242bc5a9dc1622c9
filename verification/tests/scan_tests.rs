use mono_scanner::cards::{
    read_cards_dictionary_entries, read_mtga_cards_mono, scan_heap_for_cards_dictionary,
};
use mono_scanner::class::MonoFieldInfo;
use mono_scanner::inventory::{
    inventory_plausible, inventory_score, read_mtga_inventory_mono,
    resolve_inventory_field_offsets, scan_heap_for_client_player_inventory, InventoryFieldOffsets,
};
use mono_scanner::memory::MonoReader;
use mono_scanner::printings::{
    read_card_printing_entries, read_mtga_card_database_mono, resolve_card_field_offsets,
    scan_heap_for_card_printing_dictionary,
};

const HEAP: u64 = 0x1_0000_0000;
const HEAP_SIZE: usize = 1 << 20;
const HEAP2: u64 = 0x2_0000_0000;

/// Memory under construction: runs of bytes that can be written to.
struct Image {
    runs: Vec<(u64, Vec<u8>)>,
}

impl Image {
    fn new() -> Image {
        Image { runs: vec![(HEAP, vec![0u8; HEAP_SIZE])] }
    }

    fn add(&mut self, start: u64, bytes: Vec<u8>) {
        self.runs.push((start, bytes));
    }

    fn put(&mut self, at: u64, bytes: &[u8]) {
        for (start, run) in self.runs.iter_mut() {
            if *start <= at && at + bytes.len() as u64 <= *start + run.len() as u64 {
                let i = (at - *start) as usize;
                run[i..i + bytes.len()].copy_from_slice(bytes);
                return;
            }
        }
        panic!("no run at {:x}", at);
    }

    fn put_i32(&mut self, at: u64, v: i32) {
        self.put(at, &v.to_le_bytes());
    }

    fn put_ptr(&mut self, at: u64, v: u64) {
        self.put(at, &v.to_le_bytes());
    }

    fn header(&mut self, dict: u64, entries: u64, count: i32) {
        self.put_ptr(dict + 0x10, 0x7777_0000);
        self.put_ptr(dict + 0x18, entries);
        self.put_i32(dict + 0x20, count);
    }

    fn card(&mut self, entries: u64, i: u64, hash: i32, key: i32, value: i32) {
        let e = entries + 0x20 + 16 * i;
        self.put_i32(e, hash);
        self.put_i32(e + 8, key);
        self.put_i32(e + 12, value);
    }

    fn printing(&mut self, entries: u64, i: u64, key: i32, value: u64) {
        let e = entries + 0x20 + 24 * i;
        self.put_i32(e, key);
        self.put_i32(e + 8, key);
        self.put_ptr(e + 16, value);
    }

    fn build(self) -> MonoReader {
        let mut runs = self.runs;
        runs.sort();
        let mut reader = MonoReader::new();
        for (start, bytes) in runs {
            assert!(reader.capture(start, bytes));
        }
        reader
    }
}

fn heap() -> Vec<(u64, u64)> {
    vec![(HEAP, HEAP + HEAP_SIZE as u64)]
}

fn collection_at(image: &mut Image, dict: u64, entries: u64, count: i32, valid: u64) {
    image.header(dict, entries, count);
    for i in 0..valid {
        image.card(entries, i, 1000 + i as i32, 1000 + i as i32, 1 + (i % 4) as i32);
    }
}

#[test]
fn the_collection_is_found_and_read() {
    let mut image = Image::new();
    collection_at(&mut image, HEAP + 0x1008, HEAP + 0x10000, 500, 12);
    let reader = image.build();
    assert_eq!(scan_heap_for_cards_dictionary(&reader, &heap()), HEAP + 0x1008);
    let cards = read_mtga_cards_mono(&reader, &heap()).unwrap();
    assert_eq!(cards.len(), 12);
    assert_eq!(cards[0], (1000, 1));
    assert_eq!(cards[5], (1005, 2));
    assert_eq!(cards, read_cards_dictionary_entries(&reader, HEAP + 0x1008));
}

#[test]
fn what_is_not_quite_a_collection_is_passed_over() {
    let not_found = "Cards dictionary not found via Mono heap scan. Either Arena isn't fully \
                     loaded or the Dictionary<int,int> layout has changed.";
    let cases: [(u64, i32, u64, u64); 6] = [
        (HEAP + 0x1000, 499, HEAP + 0x10000, 12),
        (HEAP + 0x1000, 50_001, HEAP + 0x10000, 12),
        (HEAP + 0x1000, 500, HEAP + 0x10000, 11),
        // Not on a slot.
        (HEAP + 0x1004, 500, HEAP + 0x10000, 12),
        // The last slots of a region are not looked at.
        (HEAP + HEAP_SIZE as u64 - 0x28, 500, HEAP + 0x10000, 12),
        (HEAP + 0x1000, 500, HEAP + 0x10000, 0),
    ];
    for (dict, count, entries, valid) in cases {
        let mut image = Image::new();
        collection_at(&mut image, dict, entries, count, valid);
        let reader = image.build();
        assert_eq!(scan_heap_for_cards_dictionary(&reader, &heap()), 0);
        assert_eq!(read_mtga_cards_mono(&reader, &heap()), Err(not_found.to_string()));
    }
    let mut image = Image::new();
    collection_at(&mut image, HEAP + HEAP_SIZE as u64 - 0x30, HEAP + 0x10000, 500, 12);
    let reader = image.build();
    assert_eq!(
        scan_heap_for_cards_dictionary(&reader, &heap()),
        HEAP + HEAP_SIZE as u64 - 0x30
    );
}

#[test]
fn pointers_of_a_collection_must_be_plausible() {
    for (buckets, entries) in [(0xFFFF, HEAP + 0x10000), (0x8000_0000_0000, HEAP + 0x10000)] {
        let mut image = Image::new();
        collection_at(&mut image, HEAP + 0x1000, entries, 500, 12);
        image.put_ptr(HEAP + 0x1010, buckets);
        assert_eq!(scan_heap_for_cards_dictionary(&image.build(), &heap()), 0);
    }
    let mut image = Image::new();
    collection_at(&mut image, HEAP + 0x1000, HEAP + 0x10000, 500, 12);
    image.put_ptr(HEAP + 0x1018, 0xFFFF_FFFF_FFFF_FFF0);
    assert_eq!(scan_heap_for_cards_dictionary(&image.build(), &heap()), 0);
}

#[test]
fn sampling_stops_at_the_first_unreadable_entry() {
    // Eleven entries stand before the end of the heap, more behind a gap.
    let entries = HEAP + HEAP_SIZE as u64 - 0x20 - 11 * 16;
    let mut image = Image::new();
    image.header(HEAP + 0x1000, entries, 500);
    for i in 0..11 {
        image.card(entries, i, 5, 5, 1);
    }
    image.add(HEAP + HEAP_SIZE as u64 + 16, vec![0u8; 0x1000]);
    for i in 12..30 {
        image.card(entries, i, 5, 5, 1);
    }
    let reader = image.build();
    assert_eq!(scan_heap_for_cards_dictionary(&reader, &heap()), 0);
    // Reading goes on behind the gap.
    assert_eq!(read_cards_dictionary_entries(&reader, HEAP + 0x1000).len(), 29);
}

#[test]
fn the_first_of_the_largest_collections_wins() {
    let mut image = Image::new();
    collection_at(&mut image, HEAP + 0x1000, HEAP + 0x10000, 600, 12);
    collection_at(&mut image, HEAP + 0x2000, HEAP + 0x11000, 700, 12);
    collection_at(&mut image, HEAP + 0x3000, HEAP + 0x12000, 700, 30);
    collection_at(&mut image, HEAP + 0x4000, HEAP + 0x13000, 650, 12);
    let reader = image.build();
    assert_eq!(scan_heap_for_cards_dictionary(&reader, &heap()), HEAP + 0x2000);
}

#[test]
fn regions_that_cannot_be_read_are_skipped() {
    let mut image = Image::new();
    collection_at(&mut image, HEAP + 0x1000, HEAP + 0x10000, 500, 12);
    image.add(HEAP2, vec![0u8; HEAP_SIZE]);
    collection_at(&mut image, HEAP2 + 0x1000, HEAP + 0x11000, 900, 12);
    let reader = image.build();
    let second = (HEAP2, HEAP2 + HEAP_SIZE as u64);
    let too_long = (HEAP2, HEAP2 + HEAP_SIZE as u64 + 8);
    assert_eq!(scan_heap_for_cards_dictionary(&reader, &vec![heap()[0], second]), HEAP2 + 0x1000);
    assert_eq!(
        scan_heap_for_cards_dictionary(&reader, &vec![too_long, heap()[0]]),
        HEAP + 0x1000
    );
    assert_eq!(scan_heap_for_cards_dictionary(&reader, &vec![]), 0);
    assert_eq!(scan_heap_for_cards_dictionary(&reader, &vec![(HEAP, HEAP)]), 0);
}

#[test]
fn only_proper_cards_are_read() {
    let mut image = Image::new();
    let entries = HEAP + 0x10000;
    image.header(HEAP + 0x1000, entries, 10);
    image.card(entries, 0, 1, 1, 1);
    image.card(entries, 1, 200_000, 200_000, 4);
    image.card(entries, 2, -1, -1, 1);
    image.card(entries, 3, 0, 0, 1);
    image.card(entries, 4, 200_001, 200_001, 1);
    image.card(entries, 5, 7, 8, 1);
    image.card(entries, 6, 7, 7, 0);
    image.card(entries, 7, 7, 7, 5);
    image.card(entries, 8, 1, 1, 2);
    image.card(entries, 9, 42, 42, 3);
    // Behind the count.
    image.card(entries, 10, 43, 43, 3);
    let reader = image.build();
    assert_eq!(
        read_cards_dictionary_entries(&reader, HEAP + 0x1000),
        vec![(1, 1), (200_000, 4), (1, 2), (42, 3)]
    );
}

#[test]
fn collections_without_entries_or_count_are_empty() {
    let mut image = Image::new();
    image.header(HEAP + 0x1000, 0xFFFF, 10);
    image.header(HEAP + 0x2000, HEAP + 0x10000, 0);
    image.header(HEAP + 0x3000, HEAP + 0x10000, -5);
    image.header(HEAP + 0x4000, u64::MAX - 0x20, 3);
    image.card(HEAP + 0x10000, 0, 5, 5, 1);
    let reader = image.build();
    for dict in [HEAP + 0x1000, HEAP + 0x2000, HEAP + 0x3000, HEAP + 0x4000, 0, u64::MAX] {
        assert!(read_cards_dictionary_entries(&reader, dict).is_empty());
    }
}

#[test]
fn no_more_than_so_many_cards_are_read() {
    let entries = HEAP2;
    let mut image = Image::new();
    image.add(entries, vec![0u8; 0x20 + 16 * 50_002]);
    image.header(HEAP + 0x1000, entries, 60_000);
    for i in 0..50_002 {
        image.card(entries, i, 9, 9, 1);
    }
    let reader = image.build();
    assert_eq!(read_cards_dictionary_entries(&reader, HEAP + 0x1000).len(), 50_000);
}

const CLASS: u64 = HEAP + 0x80000;
const VTABLE: u64 = HEAP + 0x81000;
const NAME: u64 = HEAP + 0x82000;
const FIELDS: u64 = HEAP + 0x83000;
const FIELD_NAMES: u64 = HEAP + 0x84000;
const OBJECTS: u64 = HEAP + 0x90000;

fn class_at(image: &mut Image, class: u64, vtable: u64, name_at: u64, name: &str) {
    image.put_ptr(vtable, class);
    image.put_ptr(class + 0x48, name_at);
    image.put(name_at, name.as_bytes());
}

fn fields_at(image: &mut Image, class: u64, fields: u64, names: u64, list: &[(&str, i32)]) {
    image.put_i32(class + 0xE0, list.len() as i32);
    image.put_ptr(class + 0x98, fields);
    for (i, (name, offset)) in list.iter().enumerate() {
        let name_at = names + 0x40 * i as u64;
        image.put(name_at, name.as_bytes());
        image.put_ptr(fields + 0x20 * i as u64 + 0x08, name_at);
        image.put_i32(fields + 0x20 * i as u64 + 0x18, *offset);
    }
}

/// A database at `dict` with objects of the class at [`CLASS`].
fn database_at(image: &mut Image, dict: u64, entries: u64, count: i32, matches: u64) {
    image.header(dict, entries, count);
    for i in 0..matches {
        let object = OBJECTS + 0x200 * i;
        image.put_ptr(object, VTABLE);
        image.printing(entries, i, 60_000 + i as i32, object);
    }
}

fn string_at(image: &mut Image, at: u64, text: &str) {
    let units: Vec<u16> = text.encode_utf16().collect();
    image.put_i32(at + 0x10, units.len() as i32);
    for (i, u) in units.iter().enumerate() {
        image.put(at + 0x14 + 2 * i as u64, &u.to_le_bytes());
    }
}

#[test]
fn the_database_is_found_and_read() {
    let mut image = Image::new();
    class_at(&mut image, CLASS, VTABLE, NAME, "CardPrintingData");
    fields_at(&mut image, CLASS, FIELDS, FIELD_NAMES, &[("_x", 0x10), ("Record", 0xC0)]);
    database_at(&mut image, HEAP + 0x1000, HEAP + 0x10000, 5_000, 10);
    string_at(&mut image, HEAP + 0xA0000, "MID");
    string_at(&mut image, HEAP + 0xA0100, "123");
    image.put_i32(OBJECTS + 0xD0, 777);
    image.put_ptr(OBJECTS + 0x100, HEAP + 0xA0000);
    image.put_ptr(OBJECTS + 0x120, HEAP + 0xA0100);
    let reader = image.build();
    assert_eq!(
        scan_heap_for_card_printing_dictionary(&reader, &heap()),
        Some((HEAP + 0x1000, 5_000, CLASS))
    );
    let rows = read_mtga_card_database_mono(&reader, &heap()).unwrap();
    assert_eq!(rows.len(), 10);
    assert_eq!(rows[0], (60_000, "MID".to_string(), "123".to_string(), 777));
    assert_eq!(rows[1], (60_001, String::new(), String::new(), 0));
    let printings = read_card_printing_entries(&reader, HEAP + 0x1000, CLASS);
    assert_eq!(printings.len(), 10);
    assert_eq!(printings[3], (60_003, OBJECTS + 0x600));
    assert!(read_card_printing_entries(&reader, HEAP + 0x1000, CLASS + 8).is_empty());
    assert!(read_card_printing_entries(&reader, HEAP + 0x2000, CLASS).is_empty());
}

#[test]
fn effective_offsets_of_an_embedded_record() {
    // The record stands at 0xC0; its own offsets are 0x10, 0x20, 0x50 and 0x70.
    for name in ["Record", "<Record>k__BackingField", "_record"] {
        let mut image = Image::new();
        class_at(&mut image, CLASS, VTABLE, NAME, "CardPrintingData");
        fields_at(&mut image, CLASS, FIELDS, FIELD_NAMES, &[(name, 0xC0)]);
        let o = resolve_card_field_offsets(&image.build(), CLASS, 0).unwrap();
        assert_eq!(
            (o.grp_id, o.title_id, o.expansion_code, o.collector_number),
            (0xC0, 0xD0, 0x100, 0x120)
        );
    }
}

#[test]
fn offsets_from_a_hint() {
    let mut image = Image::new();
    class_at(&mut image, CLASS, VTABLE, NAME, "CardPrintingData");
    fields_at(&mut image, CLASS, FIELDS, FIELD_NAMES, &[("_record", 0x20), ("Record", 0xC0)]);
    let hint = HEAP + 0xB0000;
    fields_at(
        &mut image,
        hint,
        HEAP + 0xB1000,
        HEAP + 0xB2000,
        &[("CollectorNumber", 0x48), ("GrpId", 0x08), ("TitleId", 0x18), ("ExpansionCode", 0x30)],
    );
    let o = resolve_card_field_offsets(&image.build(), CLASS, hint).unwrap();
    assert_eq!(
        (o.grp_id, o.title_id, o.expansion_code, o.collector_number),
        (0x20, 0x28, 0x40, 0x58)
    );
}

#[test]
fn offsets_of_a_record_of_its_own() {
    let mut image = Image::new();
    class_at(&mut image, CLASS, VTABLE, NAME, "CardPrintingRecord");
    fields_at(
        &mut image,
        CLASS,
        FIELDS,
        FIELD_NAMES,
        &[("GrpId", 0x10), ("TitleId", 0x20), ("ExpansionCode", 0x50), ("CollectorNumber", 0x70)],
    );
    let o = resolve_card_field_offsets(&image.build(), CLASS, 0).unwrap();
    assert_eq!(
        (o.grp_id, o.title_id, o.expansion_code, o.collector_number),
        (0x10, 0x20, 0x50, 0x70)
    );
}

#[test]
fn offsets_that_cannot_be_resolved() {
    let mut image = Image::new();
    class_at(&mut image, CLASS, VTABLE, NAME, "CardPrintingRecord");
    fields_at(&mut image, CLASS, FIELDS, FIELD_NAMES, &[("GrpId", 0x10), ("TitleId", 0x20)]);
    database_at(&mut image, HEAP + 0x1000, HEAP + 0x10000, 5_000, 10);
    let reader = image.build();
    assert!(resolve_card_field_offsets(&reader, CLASS, 0).is_none());
    assert_eq!(
        read_mtga_card_database_mono(&reader, &heap()),
        Err("Could not resolve card field offsets on Mono runtime class.".to_string())
    );
    let mut image = Image::new();
    class_at(&mut image, CLASS, VTABLE, NAME, "CardPrintingData");
    fields_at(&mut image, CLASS, FIELDS, FIELD_NAMES, &[("GrpId", 0x10), ("record", 0x20)]);
    assert!(resolve_card_field_offsets(&image.build(), CLASS, 0).is_none());
}

#[test]
fn what_is_not_quite_a_database_is_passed_over() {
    let cases: [(&str, i32, u64); 5] = [
        ("CardPrintingData", 4_999, 10),
        ("CardPrintingData", 100_001, 10),
        ("CardPrintingData", 5_000, 9),
        ("CardPrintingDataX", 5_000, 10),
        ("", 5_000, 10),
    ];
    for (name, count, matches) in cases {
        let mut image = Image::new();
        class_at(&mut image, CLASS, VTABLE, NAME, name);
        database_at(&mut image, HEAP + 0x1000, HEAP + 0x10000, count, matches);
        let reader = image.build();
        assert_eq!(scan_heap_for_card_printing_dictionary(&reader, &heap()), None);
        assert_eq!(
            read_mtga_card_database_mono(&reader, &heap()),
            Err("Could not find card-printing dictionary in Arena's heap.".to_string())
        );
    }
}

#[test]
fn the_class_is_that_of_the_first_value_with_one() {
    let mut image = Image::new();
    class_at(&mut image, CLASS, VTABLE, NAME, "CardPrintingRecord");
    database_at(&mut image, HEAP + 0x1000, HEAP + 0x10000, 5_000, 12);
    // The first value is no pointer, the second has no class.
    image.printing(HEAP + 0x10000, 0, 60_000, 0x10);
    image.put_ptr(OBJECTS + 0x200, 0);
    let reader = image.build();
    assert_eq!(
        scan_heap_for_card_printing_dictionary(&reader, &heap()),
        Some((HEAP + 0x1000, 5_000, CLASS))
    );
    assert_eq!(read_card_printing_entries(&reader, HEAP + 0x1000, CLASS).len(), 10);
}

#[test]
fn the_best_database_wins() {
    let mut image = Image::new();
    class_at(&mut image, CLASS, VTABLE, NAME, "CardPrintingData");
    database_at(&mut image, HEAP + 0x1000, HEAP + 0x10000, 90_000, 10);
    database_at(&mut image, HEAP + 0x2000, HEAP + 0x11000, 6_000, 12);
    database_at(&mut image, HEAP + 0x3000, HEAP + 0x12000, 7_000, 12);
    database_at(&mut image, HEAP + 0x4000, HEAP + 0x13000, 7_000, 12);
    database_at(&mut image, HEAP + 0x5000, HEAP + 0x14000, 80_000, 11);
    let reader = image.build();
    assert_eq!(
        scan_heap_for_card_printing_dictionary(&reader, &heap()),
        Some((HEAP + 0x3000, 7_000, CLASS))
    );
}

fn known_offsets() -> InventoryFieldOffsets {
    InventoryFieldOffsets {
        wc_common: 0x10,
        wc_uncommon: 0x14,
        wc_rare: 0x18,
        wc_mythic: 0x1c,
        gold: 0x20,
        gems: 0x24,
        vault_progress: 0x30,
    }
}

fn inventory_at(image: &mut Image, at: u64, v: [i32; 6], vault: f64) {
    image.put_ptr(at, VTABLE);
    for (i, amount) in v.iter().enumerate() {
        image.put_i32(at + 0x10 + 4 * i as u64, *amount);
    }
    image.put(at + 0x30, &vault.to_le_bytes());
}

#[test]
fn the_inventory_is_found_and_read() {
    let mut image = Image::new();
    class_at(&mut image, CLASS, VTABLE, NAME, "ClientPlayerInventory");
    inventory_at(&mut image, HEAP + 0x1000, [37, 11, 1, 1, 825, 610], 58.9);
    let reader = image.build();
    assert_eq!(
        scan_heap_for_client_player_inventory(&reader, &heap(), &known_offsets()),
        Some(HEAP + 0x1000)
    );
    let (wc, wu, wr, wm, gold, gems, vault) = read_mtga_inventory_mono(&reader, &heap()).unwrap();
    assert_eq!((wc, wu, wr, wm, gold, gems), (37, 11, 1, 1, 825, 610));
    assert_eq!(f64::from_bits(vault), 58.9);
}

#[test]
fn the_first_of_the_richest_inventories_wins() {
    let mut image = Image::new();
    class_at(&mut image, CLASS, VTABLE, NAME, "ClientPlayerInventory");
    inventory_at(&mut image, HEAP + 0x1000, [0, 0, 0, 0, 10, 0], 0.0);
    inventory_at(&mut image, HEAP + 0x2000, [5, 5, 5, 5, 5, 5], 1.0);
    inventory_at(&mut image, HEAP + 0x3000, [0, 0, 0, 0, 0, 30], 2.0);
    inventory_at(&mut image, HEAP + 0x4000, [0, 0, 0, 0, 0, 29], 3.0);
    let reader = image.build();
    assert_eq!(
        scan_heap_for_client_player_inventory(&reader, &heap(), &known_offsets()),
        Some(HEAP + 0x2000)
    );
}

#[test]
fn what_is_not_quite_an_inventory_is_passed_over() {
    let not_found = "ClientPlayerInventory not found in Mono heap. Either the player is not \
                     logged in or the field offsets have drifted.";
    let good = [1, 2, 3, 4, 5, 6];
    let cases: [(&str, u64, [i32; 6]); 6] = [
        ("ClientPlayerInventor", HEAP + 0x1000, good),
        ("ClientPlayerInventory", HEAP + 0x1004, good),
        ("ClientPlayerInventory", HEAP + 0x1000, [0; 6]),
        ("ClientPlayerInventory", HEAP + 0x1000, [-1, 2, 3, 4, 5, 6]),
        ("ClientPlayerInventory", HEAP + 0x1000, [100_000, 2, 3, 4, 5, 6]),
        ("ClientPlayerInventory", HEAP + 0x1000, [1, 2, 3, 4, 5, 10_000_001]),
    ];
    for (name, at, v) in cases {
        let mut image = Image::new();
        class_at(&mut image, CLASS, VTABLE, NAME, name);
        inventory_at(&mut image, at, v, 0.0);
        let reader = image.build();
        assert_eq!(read_mtga_inventory_mono(&reader, &heap()), Err(not_found.to_string()));
    }
    // The vtable leads nowhere.
    let mut image = Image::new();
    inventory_at(&mut image, HEAP + 0x1000, good, 0.0);
    let reader = image.build();
    assert_eq!(read_mtga_inventory_mono(&reader, &heap()), Err(not_found.to_string()));
}

#[test]
fn an_inventory_can_be_the_last_thing_in_the_heap() {
    let at = HEAP + HEAP_SIZE as u64 - 0x38;
    let mut image = Image::new();
    class_at(&mut image, CLASS, VTABLE, NAME, "ClientPlayerInventory");
    inventory_at(&mut image, at, [1, 0, 0, 0, 0, 0], 0.0);
    let reader = image.build();
    assert_eq!(
        scan_heap_for_client_player_inventory(&reader, &heap(), &known_offsets()),
        Some(at)
    );
    // A field further on would end behind the heap.
    let mut far = known_offsets();
    far.vault_progress = 0x38;
    assert_eq!(scan_heap_for_client_player_inventory(&reader, &heap(), &far), None);
    far.vault_progress = u64::MAX - 8;
    assert_eq!(scan_heap_for_client_player_inventory(&reader, &heap(), &far), None);
}

#[test]
fn plausible_amounts() {
    assert!(inventory_plausible(0, 0, 0, 0, 0, 1));
    assert!(!inventory_plausible(0, 0, 0, 0, 0, 0));
    assert!(inventory_plausible(99_999, 99_999, 99_999, 99_999, 1_000_000_000, 10_000_000));
    assert!(!inventory_plausible(100_000, 0, 0, 0, 0, 0));
    assert!(!inventory_plausible(0, 100_000, 0, 0, 0, 0));
    assert!(!inventory_plausible(0, 0, 100_000, 0, 0, 0));
    assert!(!inventory_plausible(0, 0, 0, 100_000, 0, 0));
    assert!(!inventory_plausible(0, 0, 0, 0, 1_000_000_001, 0));
    assert!(!inventory_plausible(0, 0, 0, 0, 0, 10_000_001));
    assert!(!inventory_plausible(5, -1, 0, 0, 0, 0));
    assert_eq!(inventory_score(37, 11, 1, 1, 825, 610), 1485);
    assert_eq!(inventory_score(i32::MAX, i32::MAX, 0, 0, 0, 0), 2 * (i32::MAX as i64));
    assert_eq!(inventory_score(-1, 0, 0, 0, 0, 0), -1);
}

fn field(name: &str, offset: i32, is_static: bool) -> MonoFieldInfo {
    MonoFieldInfo { name: name.to_string(), offset, is_static }
}

#[test]
fn inventory_offsets_come_from_fields_or_properties() {
    let mut fields = vec![
        field("gold", 0x99, true),
        field("<gold>k__BackingField", 0x98, false),
        field("<wcCommon>k__BackingField", 0x10, false),
        field("wcUncommon", 0x14, false),
        field("wcRare", 0x18, false),
        field("wcMythic", 0x1c, false),
        field("gold", 0x20, false),
        field("gold", 0x21, false),
        field("<gems>k__BackingField", 0x24, false),
        field("vaultProgress", 0x30, false),
    ];
    let o = resolve_inventory_field_offsets(&fields).unwrap();
    assert_eq!(
        [o.wc_common, o.wc_uncommon, o.wc_rare, o.wc_mythic, o.gold, o.gems, o.vault_progress],
        [0x10, 0x14, 0x18, 0x1c, 0x20, 0x24, 0x30]
    );
    fields[9].is_static = true;
    assert!(resolve_inventory_field_offsets(&fields).is_none());
    assert!(resolve_inventory_field_offsets(&[]).is_none());
}
