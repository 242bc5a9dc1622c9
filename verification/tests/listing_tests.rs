use mono_scanner::process::{pid_from_pgrep, pid_from_processes, pid_in};
use mono_scanner::regions::{
    find_readable_ranges, find_scannable_heap_regions, heap_regions_in, readable_ranges_in,
};
use mono_scanner::text::{
    chars_of, contains_str, is_hex_digit, is_white_space, parse, push_hex, split_lines, split_words,
    trimmed,
};

const MB: u64 = 1 << 20;

fn strings(list: Vec<Vec<char>>) -> Vec<String> {
    list.into_iter().map(|v| v.into_iter().collect()).collect()
}

#[test]
fn lines_are_those_of_std() {
    for text in ["", "\n", "a", "a\n", "a\r\nb", "a\rb\r", "a\r\n\r\nb\r", "\r\n", "x\n\ny"] {
        let expected: Vec<String> = text.lines().map(|l| l.to_string()).collect();
        assert_eq!(strings(split_lines(&chars_of(text))), expected, "{:?}", text);
    }
}

#[test]
fn words_are_those_of_std() {
    for text in ["", "  ", "a", " a  b\tc ", "a\u{a0}b\u{3000}c", "\u{200b}x y", "a\u{85}\u{2028}b"] {
        let expected: Vec<String> = text.split_whitespace().map(|l| l.to_string()).collect();
        assert_eq!(strings(split_words(&chars_of(text))), expected, "{:?}", text);
        let t: String = trimmed(&chars_of(text)).into_iter().collect();
        assert_eq!(t, text.trim(), "{:?}", text);
    }
}

#[test]
fn white_space_is_that_of_unicode() {
    for code in 0..0x11_0000u32 {
        if let Some(c) = char::from_u32(code) {
            assert_eq!(is_white_space(c), c.is_whitespace(), "{:x}", code);
            assert_eq!(is_hex_digit(c), c.is_ascii_hexdigit(), "{:x}", code);
        }
    }
}

#[test]
fn numbers_are_parsed_as_std_parses_them() {
    let samples = [
        "", "+", "-", "0", "+0", "-0", "00012", "+12", "++1", "1+", "ff", "FF", "fg", "12 ", " 12",
        "4294967295", "4294967296", "ffffffffffffffff", "10000000000000000", "+ffffffffffffffff",
        "0000000000000000000000001", "1_000", "\u{661}", "99999999999999999999999999",
    ];
    for s in samples {
        let v = chars_of(s);
        assert_eq!(parse(&v, 16, u64::MAX), u64::from_str_radix(s, 16).ok(), "{:?}", s);
        assert_eq!(
            parse(&v, 10, u32::MAX as u64).map(|n| n as u32),
            s.parse::<u32>().ok(),
            "{:?}",
            s
        );
    }
}

#[test]
fn texts_are_searched() {
    let hay = chars_of("__DATA mono-2.0-bdwgc.dll");
    assert!(contains_str(&hay, "mono-2.0-bdwgc"));
    assert!(contains_str(&hay, ""));
    assert!(contains_str(&hay, "dll"));
    assert!(!contains_str(&hay, "mono-2.1"));
    assert!(!contains_str(&chars_of("rw"), "rw-"));
    assert!(contains_str(&chars_of("aab"), "ab"));
}

#[test]
fn hexadecimal_numbers_are_written_and_read_back() {
    for n in [0u64, 9, 10, 15, 16, 255, 0x1a2b3c, u64::MAX] {
        let mut s = String::from("0x");
        push_hex(&mut s, n);
        assert_eq!(s, format!("0x{:x}", n));
        assert_eq!(parse(&chars_of(&s[2..]), 16, u64::MAX), Some(n));
    }
}

#[test]
fn heap_regions_are_writable_and_large() {
    let listing = "\
Process:         MTGA.exe [76678]
MALLOC_LARGE     140000000-140200000 [ 2048K  2048K  2048K     0K] rw-/rwx SM=PRV
VM_ALLOCATE      10000000-10100000   [ 1024K] rw-/rwx SM=PRV
VM_ALLOCATE      20000000-200fffff   [ 1023K] rw-/rwx SM=PRV
VM_ALLOCATE      30000000-31000000   [   16M] r--/rwx SM=PRV
__DATA           40000000-41000000   [   16M] rw-/rwx SM=COW  /x/mono-2.0-bdwgc.dll
__DATA           42000000-43000000   [   16M] rw-/rwx SM=COW  /x/UnityPlayer.dll
__DATA           44000000-45000000   [   16M] rw-/rwx SM=COW  /x/GameAssembly.dylib
";
    assert_eq!(
        heap_regions_in(listing),
        vec![
            (0x1000_0000, 0x1010_0000),
            (0x4400_0000, 0x4500_0000),
            (0x1_4000_0000, 0x1_4020_0000),
        ]
    );
    assert_eq!(
        find_scannable_heap_regions(Some(&listing.as_bytes().to_vec())),
        heap_regions_in(listing)
    );
    let readable = readable_ranges_in(listing);
    assert_eq!(readable.len(), 7);
    assert_eq!(readable[0], (0x1000_0000, 0x1010_0000));
    assert_eq!(find_readable_ranges(Some(&listing.as_bytes().to_vec())), readable);
    for region in heap_regions_in(listing) {
        assert!(readable.contains(&region));
    }
}

#[test]
fn only_modules_of_the_runtime_are_left_out() {
    let region = |module: &str| {
        let line = format!("__DATA 100000000-100100000 rw-/rw- {}\n", module);
        find_scannable_heap_regions(Some(&line.into_bytes()))
    };
    assert_eq!(region("GameAssembly.dylib"), vec![(0x1_0000_0000, 0x1_0010_0000)]);
    assert!(region("mono-2.0-bdwgc.dll").is_empty());
    assert!(region("UnityPlayer.dll").is_empty());
}

#[test]
fn region_sizes_are_bounded() {
    let line = |start: u64, size: u64| format!("x {:x}-{:x} rw-\n", start, start + size);
    assert_eq!(heap_regions_in(&line(0x10000, MB)), vec![(0x10000, 0x10000 + MB)]);
    assert!(heap_regions_in(&line(0x10000, MB - 1)).is_empty());
    let four_gb = 4096 * MB;
    assert_eq!(heap_regions_in(&line(0, four_gb)), vec![(0, four_gb)]);
    assert!(heap_regions_in(&line(0, four_gb + 1)).is_empty());
}

#[test]
fn regions_are_sorted_and_listed_once() {
    let one = "a 500000-700000 rw-\nb 100000-300000 rw-\nc 100000-200000 rw-\nd 500000-700000 rw-\n";
    let other = "d 500000-700000 rw-\nc 100000-200000 rw-\nb 100000-300000 rw-";
    let expected = vec![(0x100000, 0x200000), (0x100000, 0x300000), (0x500000, 0x700000)];
    assert_eq!(heap_regions_in(one), expected);
    // The same ranges in another order, and not twice, make the same list.
    assert_eq!(heap_regions_in(other), expected);
}

#[test]
fn range_words() {
    // The first word with one dash and a leading hexadecimal digit counts, even
    // where it is no range of addresses.
    assert!(heap_regions_in("a-b 100000-300000 rw-").is_empty());
    assert!(heap_regions_in("d-g 100000-300000 rw-").is_empty());
    assert_eq!(heap_regions_in("x-y 100000-300000 rw-"), vec![(0x100000, 0x300000)]);
    assert_eq!(heap_regions_in("a-b-c 100000-300000 rw-"), vec![(0x100000, 0x300000)]);
    assert_eq!(heap_regions_in("100000-+300000 rw-"), vec![(0x100000, 0x300000)]);
    assert_eq!(heap_regions_in("00100000-0000300000\u{3000}rw-"), vec![(0x100000, 0x300000)]);
    assert!(heap_regions_in("300000-100000 rw-").is_empty());
    assert!(heap_regions_in("100000- rw-").is_empty());
    assert!(heap_regions_in("100000-10000000000000000 rw-").is_empty());
    assert!(heap_regions_in("rw-").is_empty());
    assert!(heap_regions_in("").is_empty());
}

#[test]
fn no_listing_has_no_regions() {
    assert!(find_scannable_heap_regions(None).is_empty());
    assert!(find_readable_ranges(None).is_empty());
}

#[test]
fn listings_need_not_be_valid_utf8() {
    let mut bytes = vec![0xFF, 0xFE, b' '];
    bytes.extend_from_slice("caf\u{e9} 100000-300000 rw-/rwx\r\n".as_bytes());
    bytes.push(0xC3);
    assert_eq!(find_scannable_heap_regions(Some(&bytes)), vec![(0x100000, 0x300000)]);
    // A broken byte inside the range breaks it.
    assert!(find_scannable_heap_regions(Some(&b"1000\xFF00-300000 rw-".to_vec())).is_empty());
}

#[test]
fn readable_lines() {
    assert_eq!(readable_ranges_in("x 1000-2000 r--/rwx").len(), 1);
    assert_eq!(readable_ranges_in("x 1000-2000 r-x/rwx").len(), 1);
    assert_eq!(readable_ranges_in("x 1000-2000 rwx/rwx").len(), 1);
    assert_eq!(readable_ranges_in("x 1000-2000 rw-/rwx").len(), 1);
    assert_eq!(readable_ranges_in("x 1000-2000 ---/rwx").len(), 0);
}

#[test]
fn the_first_pid_is_taken() {
    assert_eq!(pid_in("76678\n123\n"), Some(76678));
    assert_eq!(pid_in("\n\n  42\n"), Some(42));
    assert_eq!(pid_in("42 \n7"), None);
    assert_eq!(pid_in("42 "), Some(42));
    assert_eq!(pid_in("+5"), Some(5));
    assert_eq!(pid_in("4294967295"), Some(u32::MAX));
    assert_eq!(pid_in("4294967296"), None);
    assert_eq!(pid_in("pid 5"), None);
    assert_eq!(pid_in(""), None);
    assert_eq!(pid_from_pgrep(Some(&b"76678\n123\n".to_vec())), Some(76678));
    assert_eq!(pid_from_pgrep(Some(&b"\xFF\n5".to_vec())), None);
    assert_eq!(pid_from_pgrep(Some(&vec![])), None);
    assert_eq!(pid_from_pgrep(None), None);
}

#[test]
fn processes_are_found_by_part_of_their_name() {
    let processes = vec![
        (1, "launchd".to_string()),
        (7, "MTGA.exe".to_string()),
        (9, "MTGA.exe helper".to_string()),
    ];
    assert_eq!(pid_from_processes("MTGA", &processes), Ok(7));
    assert_eq!(pid_from_processes("helper", &processes), Ok(9));
    assert_eq!(pid_from_processes("", &processes), Ok(1));
    assert_eq!(
        pid_from_processes("Arena", &processes),
        Err("Process 'Arena' not found".to_string())
    );
    assert_eq!(
        pid_from_processes("Arena", &vec![]),
        Err("Process 'Arena' not found".to_string())
    );
}
