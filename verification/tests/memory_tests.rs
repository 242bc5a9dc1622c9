use mono_scanner::class::{
    find_field, mono_get_class_fields, obj_to_mono_class, read_mono_class_name, MonoFieldInfo,
    MAX_PTR, MIN_PTR,
};
use mono_scanner::memory::{i32_in, offset, u32_in, u64_in, MonoReader};
use mono_scanner::strings::{decode_utf16, same_text};

fn image(runs: &[(u64, Vec<u8>)]) -> MonoReader {
    let mut runs: Vec<(u64, Vec<u8>)> = runs.to_vec();
    runs.sort();
    let mut reader = MonoReader::new();
    for (start, bytes) in runs {
        assert!(reader.capture(start, bytes));
    }
    reader
}

fn put(buf: &mut Vec<u8>, at: usize, bytes: &[u8]) {
    buf[at..at + bytes.len()].copy_from_slice(bytes);
}

fn put_ptr(buf: &mut Vec<u8>, at: usize, v: u64) {
    put(buf, at, &v.to_le_bytes());
}

fn put_i32(buf: &mut Vec<u8>, at: usize, v: i32) {
    put(buf, at, &v.to_le_bytes());
}

fn managed_string(units: &[u16]) -> Vec<u8> {
    let mut bytes = vec![0u8; 0x14];
    put_i32(&mut bytes, 0x10, units.len() as i32);
    for u in units {
        bytes.extend_from_slice(&u.to_le_bytes());
    }
    bytes
}

#[test]
fn captured_bytes_are_read_back() {
    let reader = image(&[(0x1000, vec![1, 2, 3, 4, 5, 6, 7, 8, 9])]);
    assert_eq!(reader.read_bytes(0x1000, 9), vec![1, 2, 3, 4, 5, 6, 7, 8, 9]);
    assert_eq!(reader.read_bytes(0x1003, 2), vec![4, 5]);
    assert_eq!(reader.read_u8(0x1008), 9);
    assert_eq!(reader.read_u32(0x1000), 0x0403_0201);
    assert_eq!(reader.read_i32(0x1001), 0x0504_0302);
    assert_eq!(reader.read_ptr(0x1001), 0x0908_0706_0504_0302);
}

#[test]
fn negative_numbers_are_read_in_twos_complement() {
    let reader = image(&[(0x1000, (-2i32).to_le_bytes().to_vec())]);
    assert_eq!(reader.read_i32(0x1000), -2);
    assert_eq!(reader.read_u32(0x1000), 0xFFFF_FFFE);
    let reader = image(&[(0x1000, i32::MIN.to_le_bytes().to_vec())]);
    assert_eq!(reader.read_i32(0x1000), i32::MIN);
}

#[test]
fn missing_bytes_read_as_nothing() {
    let reader = image(&[(0x1000, vec![0xFF; 7])]);
    assert_eq!(reader.read_ptr(0x1000), 0);
    assert_eq!(reader.read_u32(0x1004), 0);
    assert_eq!(reader.read_u32(0x0FFF), 0);
    assert_eq!(reader.read_u8(0x1007), 0);
    assert!(reader.read_bytes(0x1000, 8).is_empty());
    assert!(reader.read_bytes(u64::MAX, 8).is_empty());
    assert!(reader.read_bytes(0x1000, 0).is_empty());
    assert_eq!(MonoReader::new().read_ptr(0), 0);
}

#[test]
fn adjacent_runs_are_read_as_one() {
    let reader = image(&[(0x1000, vec![1, 2, 3]), (0x1003, vec![4, 5]), (0x2000, vec![6])]);
    assert_eq!(reader.read_bytes(0x1000, 5), vec![1, 2, 3, 4, 5]);
    assert_eq!(reader.read_u32(0x1001), 0x0504_0302);
    assert_eq!(reader.read_u8(0x2000), 6);
    assert_eq!(reader.end(), 0x2001);
}

#[test]
fn captures_only_behind_what_is_there() {
    let mut reader = MonoReader::new();
    assert_eq!(reader.end(), 0);
    assert!(reader.capture(0x1000, vec![1, 2, 3, 4]));
    assert_eq!(reader.end(), 0x1004);
    assert!(!reader.capture(0x1003, vec![9]));
    assert!(!reader.capture(0x10, vec![9]));
    assert!(!reader.capture(u64::MAX - 1, vec![9, 9]));
    assert!(reader.capture(0x5000, vec![]));
    assert_eq!(reader.end(), 0x1004);
    assert_eq!(reader.read_bytes(0x1000, 4), vec![1, 2, 3, 4]);
    assert!(reader.capture(u64::MAX - 1, vec![7]));
    assert_eq!(reader.read_u8(u64::MAX - 1), 7);
}

#[test]
fn many_runs_are_told_apart() {
    let runs: Vec<(u64, Vec<u8>)> = (0..100u64).map(|k| (k * 0x100, vec![k as u8; 4])).collect();
    let reader = image(&runs);
    for k in 0..100u64 {
        assert_eq!(reader.read_u8(k * 0x100), k as u8);
        assert_eq!(reader.read_u8(k * 0x100 + 3), k as u8);
        assert!(reader.read_bytes(k * 0x100, 5).is_empty());
    }
}

#[test]
fn numbers_in_buffers() {
    let buf: Vec<u8> = vec![0xFF, 1, 0, 0, 0, 0xFE, 0xFF, 0xFF, 0xFF];
    assert_eq!(u32_in(&buf, 1), 1);
    assert_eq!(i32_in(&buf, 5), -2);
    assert_eq!(u64_in(&buf, 1), 0xFFFF_FFFE_0000_0001);
}

#[test]
fn addresses_wrap_around() {
    assert_eq!(offset(0x1000, 0x20), 0x1020);
    assert_eq!(offset(u64::MAX, 1), 0);
    assert_eq!(offset(0x1000, (-8i64) as u64), 0xFF8);
}

#[test]
fn names_end_at_the_first_zero() {
    let reader = image(&[(0x1000, b"GrpId\0TitleId\0Rest".to_vec())]);
    assert_eq!(reader.read_ascii_string(0x1000), "GrpId");
    assert_eq!(reader.read_ascii_string(0x1006), "TitleId");
    assert_eq!(reader.read_ascii_string(0x100E), "Rest");
    assert_eq!(reader.read_ascii_string(0x1005), "");
    assert_eq!(reader.read_ascii_string(0x3000), "");
}

#[test]
fn each_byte_of_a_name_is_a_character() {
    let reader = image(&[(0x1000, vec![0x41, 0xE9, 0])]);
    assert_eq!(reader.read_ascii_string(0x1000), "A\u{e9}");
}

#[test]
fn managed_strings_are_read_back() {
    let text = "MID\u{e9}\u{4e2d}\u{1f600}!";
    let units: Vec<u16> = text.encode_utf16().collect();
    let reader = image(&[(0x200000, managed_string(&units))]);
    assert_eq!(reader.read_mono_string(0x200000), Some(text.to_string()));
}

#[test]
fn managed_strings_that_cannot_be() {
    let good = managed_string(&[0x41]);
    let mut negative = managed_string(&[0x41]);
    put_i32(&mut negative, 0x10, -1);
    let mut long = managed_string(&[0x41; 1025]);
    put_i32(&mut long, 0x10, 1025);
    let mut cut = managed_string(&[0x41, 0x42]);
    cut.pop();
    let reader = image(&[
        (0xF0000, good.clone()),
        (0x200000, negative),
        (0x210000, long),
        (0x220000, cut),
        (0x230000, managed_string(&[])),
        (0x240000, managed_string(&[0xD83D])),
        (0x250000, managed_string(&[0xDE00, 0xD83D])),
        (0x260000, managed_string(&[0xD83D, 0x41])),
        (0x270000, managed_string(&[0x41; 1024])),
        (0x280000, good),
    ]);
    assert_eq!(reader.read_mono_string(0), None);
    assert_eq!(reader.read_mono_string(0xF0000), None);
    assert_eq!(reader.read_mono_string(0x200000), None);
    assert_eq!(reader.read_mono_string(0x210000), None);
    assert_eq!(reader.read_mono_string(0x220000), None);
    assert_eq!(reader.read_mono_string(0x230000), Some(String::new()));
    assert_eq!(reader.read_mono_string(0x240000), None);
    assert_eq!(reader.read_mono_string(0x250000), None);
    assert_eq!(reader.read_mono_string(0x260000), None);
    assert_eq!(reader.read_mono_string(0x270000), Some("A".repeat(1024)));
    assert_eq!(reader.read_mono_string(0x280000), Some("A".to_string()));
    assert_eq!(reader.read_mono_string(u64::MAX), Some(String::new()));
}

#[test]
fn utf16_is_decoded_as_std_decodes_it() {
    let samples: [&[u16]; 6] = [
        &[],
        &[0x48, 0x69],
        &[0xFFFF, 0xE000, 0xD7FF],
        &[0xD800, 0xDC00],
        &[0xDBFF, 0xDFFF, 0x20],
        &[0xD800, 0xD800, 0xDC00],
    ];
    for units in samples {
        let mut bytes: Vec<u8> = Vec::new();
        for u in units {
            bytes.extend_from_slice(&u.to_le_bytes());
        }
        assert_eq!(decode_utf16(&bytes), String::from_utf16(units).ok());
    }
    assert_eq!(decode_utf16(&vec![0x41, 0, 0x42]), Some("A".to_string()));
}

#[test]
fn texts_are_compared() {
    assert!(same_text("Record", "Record"));
    assert!(!same_text("Record", "record"));
    assert!(same_text("", ""));
}

#[test]
fn class_names_stand_behind_two_pointers() {
    let mut class = vec![0u8; 0x100];
    put_ptr(&mut class, 0x48, 0x50000);
    let mut lost = vec![0u8; 0x100];
    put_ptr(&mut lost, 0x48, MIN_PTR - 1);
    let reader = image(&[
        (0x40000, class),
        (0x41000, lost),
        (0x50000, b"CardPrintingData\0".to_vec()),
    ]);
    assert_eq!(read_mono_class_name(&reader, 0x40000), "CardPrintingData");
    assert_eq!(read_mono_class_name(&reader, 0x41000), "");
    assert_eq!(read_mono_class_name(&reader, 0x42000), "");
    assert_eq!(read_mono_class_name(&reader, MIN_PTR - 1), "");
    assert_eq!(read_mono_class_name(&reader, MAX_PTR + 1), "");
    assert_eq!(read_mono_class_name(&reader, u64::MAX), "");
}

#[test]
fn classes_stand_behind_vtables() {
    let reader = image(&[
        (0x20000, 0x30000u64.to_le_bytes().to_vec()),
        (0x20008, 0x9000u64.to_le_bytes().to_vec()),
        (0x30000, 0x40000u64.to_le_bytes().to_vec()),
    ]);
    assert_eq!(obj_to_mono_class(&reader, 0x20000), 0x40000);
    assert_eq!(obj_to_mono_class(&reader, 0x20008), 0);
    assert_eq!(obj_to_mono_class(&reader, 0x70000), 0);
}

struct Entry {
    name: u64,
    offset: i32,
    type_ptr: u64,
}

fn field_array(entries: &[Entry]) -> Vec<u8> {
    let mut bytes = vec![0u8; 0x20 * entries.len()];
    for (i, e) in entries.iter().enumerate() {
        put_ptr(&mut bytes, i * 0x20, e.type_ptr);
        put_ptr(&mut bytes, i * 0x20 + 0x08, e.name);
        put_i32(&mut bytes, i * 0x20 + 0x18, e.offset);
    }
    bytes
}

fn class_with(count: i32, fields: u64) -> Vec<u8> {
    let mut class = vec![0u8; 0x100];
    put_i32(&mut class, 0xE0, count);
    put_ptr(&mut class, 0x98, fields);
    class
}

fn listed(fields: Vec<MonoFieldInfo>) -> Vec<(String, i32, bool)> {
    fields.into_iter().map(|f| (f.name, f.offset, f.is_static)).collect()
}

#[test]
fn fields_are_listed_with_their_flags() {
    let array = field_array(&[
        Entry { name: 0x60000, offset: 0x10, type_ptr: 0x70000 },
        Entry { name: 0x60100, offset: -4, type_ptr: 0x70100 },
        Entry { name: 0x60000, offset: 0x20, type_ptr: 0 },
    ]);
    let reader = image(&[
        (0x40000, class_with(3, 0x50000)),
        (0x50000, array),
        (0x60000, b"gold\0".to_vec()),
        (0x60100, b"gems\0".to_vec()),
        (0x70000, vec![0, 0, 0, 0, 0, 0, 0, 0, 0x06, 0, 0, 0]),
        (0x70100, vec![0, 0, 0, 0, 0, 0, 0, 0, 0x16, 0, 0, 0]),
    ]);
    let fields = mono_get_class_fields(&reader, 0x40000);
    assert_eq!(
        listed(fields.clone()),
        vec![
            ("gold".to_string(), 0x10, false),
            ("gems".to_string(), -4, true),
            ("gold".to_string(), 0x20, false),
        ]
    );
    assert_eq!(find_field(&fields, "gold"), Some(0x10));
    assert_eq!(find_field(&fields, "gems"), None);
    assert_eq!(find_field(&fields, "vault"), None);
}

#[test]
fn negative_field_offsets_are_machine_words() {
    let fields = vec![MonoFieldInfo { name: "x".to_string(), offset: -4, is_static: false }];
    assert_eq!(find_field(&fields, "x"), Some((-4i64) as u64));
    let fields = vec![MonoFieldInfo { name: "x".to_string(), offset: i32::MIN, is_static: false }];
    assert_eq!(find_field(&fields, "x"), Some((i32::MIN as i64) as u64));
}

#[test]
fn fields_can_stand_inside_the_class() {
    let mut class = vec![0u8; 0x100];
    put_i32(&mut class, 0xE0, 1);
    // The entry starts with a type pointer that is no pointer, so that the
    // array is taken to be inline.
    put_ptr(&mut class, 0x98, 0x1);
    put_ptr(&mut class, 0xA0, 0x60000);
    put_i32(&mut class, 0xB0, 0x44);
    let reader = image(&[(0x40000, class), (0x60000, b"inline\0".to_vec())]);
    assert_eq!(
        listed(mono_get_class_fields(&reader, 0x40000)),
        vec![("inline".to_string(), 0x44, false)]
    );
}

#[test]
fn fields_stop_at_the_first_bad_name() {
    let long = vec![b'x'; 129];
    let mut most = vec![b'y'; 128];
    most.push(0);
    let mut wide = vec![0xE9u8; 65];
    wide.push(0);
    let entry = |name: u64| Entry { name, offset: 1, type_ptr: 0 };
    let reader = image(&[
        (0x40000, class_with(3, 0x50000)),
        (0x41000, class_with(2, 0x51000)),
        (0x42000, class_with(2, 0x52000)),
        (0x43000, class_with(2, 0x53000)),
        (0x44000, class_with(5, 0x54000)),
        (0x50000, field_array(&[entry(0x60000), entry(0x1000), entry(0x60000)])),
        (0x51000, field_array(&[entry(0x60000), entry(0x61000)])),
        (0x52000, field_array(&[entry(0x62000), entry(0x63000)])),
        (0x53000, field_array(&[entry(0x60000), entry(0x60002)])),
        (0x54000, field_array(&[entry(0x60000), entry(0x60000)])),
        (0x60000, b"ok\0".to_vec()),
        (0x61000, long),
        (0x62000, most),
        (0x63000, wide),
    ]);
    assert_eq!(mono_get_class_fields(&reader, 0x40000).len(), 1);
    assert_eq!(mono_get_class_fields(&reader, 0x41000).len(), 1);
    // 128 bytes will do; 65 characters of two bytes each will not.
    assert_eq!(mono_get_class_fields(&reader, 0x42000).len(), 1);
    assert_eq!(mono_get_class_fields(&reader, 0x43000).len(), 1);
    assert_eq!(mono_get_class_fields(&reader, 0x44000).len(), 2);
}

#[test]
fn classes_with_impossible_field_counts_have_no_fields() {
    let entries: Vec<Entry> =
        (0..61).map(|_| Entry { name: 0x60000, offset: 0, type_ptr: 0 }).collect();
    let reader = image(&[
        (0x40000, class_with(0, 0x50000)),
        (0x41000, class_with(-1, 0x50000)),
        (0x42000, class_with(60, 0x50000)),
        (0x43000, class_with(61, 0x50000)),
        (0x50000, field_array(&entries)),
        (0x60000, b"f\0".to_vec()),
    ]);
    assert!(mono_get_class_fields(&reader, 0x40000).is_empty());
    assert!(mono_get_class_fields(&reader, 0x41000).is_empty());
    assert_eq!(mono_get_class_fields(&reader, 0x42000).len(), 60);
    assert!(mono_get_class_fields(&reader, 0x43000).is_empty());
    assert!(mono_get_class_fields(&reader, 0).is_empty());
    assert!(mono_get_class_fields(&reader, u64::MAX).is_empty());
}
