//! Strings in the memory image: NUL-terminated names and managed UTF-16 strings.
use vstd::prelude::*;
use vstd::utf8::is_scalar;

use crate::memory::{self, MonoReader};

verus! {

/// `String::push` of std appends one character to the end of the string.
pub assume_specification[ String::push ](s: &mut String, c: char)
    ensures
        final(s)@ == old(s)@.push(c),
;

/// `char::from_u32` of std gives the character with that code point, and
/// `None` for a number that is no Unicode scalar value.
pub assume_specification[ char::from_u32 ](i: u32) -> (res: Option<char>)
    ensures
        res == (if is_scalar(i) {
            Some(i as char)
        } else {
            None
        }),
;

/// The name at `a`: the bytes up to the first 0, each taken as one character.
/// An address that was not captured reads as 0.
pub open spec fn name_at(mem: Map<int, u8>, a: int) -> Seq<char>
    decreases memory::address_space() - a,
{
    if a >= memory::address_space() || memory::u8_at(mem, a) == 0 {
        Seq::empty()
    } else {
        seq![mem[a] as char] + name_at(mem, a + 1)
    }
}

/// The longest managed string that is read, in UTF-16 code units.
pub const MAX_STRING_LEN: i32 = 1024;

/// No managed string stands below this address.
pub const MIN_STRING_PTR: u64 = 0x100000;

/// Offset of a managed string's length.
pub const STRING_LEN: u64 = 0x10;

/// Offset of a managed string's first code unit.
pub const STRING_CHARS: u64 = 0x14;

/// The `i`th of the 16-bit little-endian numbers in `s`.
pub open spec fn le16(s: Seq<u8>, i: int) -> int {
    s[2 * i] + 0x100 * s[2 * i + 1]
}

/// `s` as a sequence of 16-bit little-endian numbers.
pub open spec fn code_units(s: Seq<u8>) -> Seq<u16> {
    Seq::new((s.len() / 2) as nat, |i: int| le16(s, i) as u16)
}

pub open spec fn is_surrogate(u: u16) -> bool {
    0xD800 <= u <= 0xDFFF
}

/// The code point that a high and a low surrogate stand for.
pub open spec fn surrogate_pair(high: u16, low: u16) -> int {
    0x10000 + (high - 0xD800) * 0x400 + (low - 0xDC00)
}

/// The text that UTF-16 code units encode; `None` where a surrogate stands alone.
pub open spec fn utf16_text(units: Seq<u16>) -> Option<Seq<char>>
    decreases units.len(),
{
    if units.len() == 0 {
        Some(Seq::empty())
    } else if !is_surrogate(units[0]) {
        match utf16_text(units.skip(1)) {
            Some(rest) => Some(seq![units[0] as char] + rest),
            None => None,
        }
    } else if units[0] <= 0xDBFF && units.len() >= 2 && 0xDC00 <= units[1] <= 0xDFFF {
        match utf16_text(units.skip(2)) {
            Some(rest) => Some(seq![surrogate_pair(units[0], units[1]) as char] + rest),
            None => None,
        }
    } else {
        None
    }
}

/// The managed string at `p`: a length, then that many UTF-16 code units.
/// `None` where there is no readable string of at most [`MAX_STRING_LEN`] units.
pub open spec fn mono_string_at(mem: Map<int, u8>, p: int) -> Option<Seq<char>> {
    let len = memory::i32_at(mem, memory::wrap(p + STRING_LEN));
    let chars = memory::wrap(p + STRING_CHARS);
    if p < MIN_STRING_PTR || len < 0 || len > MAX_STRING_LEN {
        None
    } else if len == 0 {
        Some(Seq::empty())
    } else if !memory::mapped(mem, chars, 2 * len) {
        None
    } else {
        utf16_text(code_units(memory::bytes_at(mem, chars, 2 * len)))
    }
}

/// Whether two texts are the same.
pub fn same_text(a: &str, b: &str) -> (res: bool)
    ensures
        res == (a@ == b@),
{
    a.to_owned() == b.to_owned()
}

/// Decodes UTF-16 code units, given as little-endian bytes.
pub fn decode_utf16(bytes: &Vec<u8>) -> (res: Option<String>)
    ensures
        match res {
            Some(s) => utf16_text(code_units(bytes@)) == Some(s@),
            None => utf16_text(code_units(bytes@)) is None,
        },
{
    let n: usize = bytes.len() / 2;
    let ghost units = code_units(bytes@);
    let mut s: String = String::new();
    let mut i: usize = 0;
    assert(units.skip(0) =~= units);
    while i < n
        invariant
            i <= n,
            n == bytes.len() / 2,
            units == code_units(bytes@),
            utf16_text(units) == (match utf16_text(units.skip(i as int)) {
                Some(rest) => Some(s@ + rest),
                None => None,
            }),
        decreases n - i,
    {
        let u: u32 = bytes[2 * i] as u32 + 0x100 * (bytes[2 * i + 1] as u32);
        let ghost tail = units.skip(i as int);
        assert(tail[0] == u);
        let ghost before = s@;
        if u < 0xD800 || u > 0xDFFF {
            match char::from_u32(u) {
                Some(c) => {
                    s.push(c);
                },
                None => {
                    assert(false);
                    return None;
                },
            }
            assert(tail.skip(1) =~= units.skip(i + 1));
            assert forall|rest: Seq<char>| s@ + rest == before + (seq![u as char] + rest) by {
                assert(s@ + rest =~= before + (seq![u as char] + rest));
            }
            i = i + 1;
        } else {
            if u > 0xDBFF || n - i < 2 {
                return None;
            }
            let low: u32 = bytes[2 * i + 2] as u32 + 0x100 * (bytes[2 * i + 3] as u32);
            assert(tail[1] == low);
            if low < 0xDC00 || low > 0xDFFF {
                return None;
            }
            let code: u32 = 0x10000 + (u - 0xD800) * 0x400 + (low - 0xDC00);
            assert(code == surrogate_pair(tail[0], tail[1]));
            match char::from_u32(code) {
                Some(c) => {
                    s.push(c);
                },
                None => {
                    assert(false);
                    return None;
                },
            }
            assert(tail.skip(2) =~= units.skip(i + 2));
            assert forall|rest: Seq<char>| s@ + rest == before + (seq![code as char] + rest) by {
                assert(s@ + rest =~= before + (seq![code as char] + rest));
            }
            i = i + 2;
        }
    }
    assert(units.skip(n as int) =~= Seq::<u16>::empty());
    assert(s@ + Seq::<char>::empty() =~= s@);
    Some(s)
}

impl MonoReader {
    /// The NUL-terminated name at `addr`.
    pub fn read_ascii_string(&self, addr: u64) -> (res: String)
        ensures
            res@ == name_at(self@, addr as int),
    {
        let mut s: String = String::new();
        let mut a: u64 = addr;
        assert(s@ + name_at(self@, addr as int) =~= name_at(self@, addr as int));
        loop
            invariant_except_break
                addr <= a,
                s@ + name_at(self@, a as int) == name_at(self@, addr as int),
            ensures
                s@ == name_at(self@, addr as int),
            decreases u64::MAX - a,
        {
            let b: u8 = self.read_u8(a);
            let ghost before = s@;
            if b == 0 {
                assert(s@ + name_at(self@, a as int) =~= s@);
                break;
            }
            s.push(b as char);
            assert(s@ + name_at(self@, a + 1) =~= before + (seq![b as char] + name_at(
                self@,
                a + 1,
            )));
            if a == u64::MAX {
                assert(s@ + name_at(self@, a + 1) =~= s@);
                break;
            }
            a = a + 1;
        }
        s
    }

    /// The managed string at `ptr`.
    pub fn read_mono_string(&self, ptr: u64) -> (res: Option<String>)
        ensures
            match res {
                Some(s) => mono_string_at(self@, ptr as int) == Some(s@),
                None => mono_string_at(self@, ptr as int) is None,
            },
    {
        if ptr < MIN_STRING_PTR {
            return None;
        }
        let len: i32 = self.read_i32(memory::offset(ptr, STRING_LEN));
        if len < 0 || len > MAX_STRING_LEN {
            return None;
        }
        if len == 0 {
            return Some(String::new());
        }
        let size: u64 = 2 * (len as u64);
        let bytes: Vec<u8> = self.read_bytes(memory::offset(ptr, STRING_CHARS), size);
        if (bytes.len() as u64) < size {
            return None;
        }
        decode_utf16(&bytes)
    }
}

/// The UTF-16 code units of a character.
pub open spec fn utf16_of_char(c: char) -> Seq<u16> {
    let v = c as int;
    if v < 0x10000 {
        seq![v as u16]
    } else {
        seq![(0xD800 + (v - 0x10000) / 0x400) as u16, (0xDC00 + (v - 0x10000) % 0x400) as u16]
    }
}

/// The UTF-16 code units of a text.
pub open spec fn utf16_of(s: Seq<char>) -> Seq<u16>
    decreases s.len(),
{
    if s.len() == 0 {
        Seq::empty()
    } else {
        utf16_of_char(s[0]) + utf16_of(s.skip(1))
    }
}

/// One character takes one code unit that is no surrogate, or a pair of them.
proof fn lemma_char_units(c: char)
    ensures
        ({
            let units = utf16_of_char(c);
            if c as int >= 0x10000 {
                &&& units.len() == 2
                &&& 0xD800 <= units[0] <= 0xDBFF
                &&& 0xDC00 <= units[1] <= 0xDFFF
                &&& surrogate_pair(units[0], units[1]) as char == c
            } else {
                &&& units.len() == 1
                &&& !is_surrogate(units[0])
                &&& units[0] as char == c
            }
        }),
{
}

/// Decoding the UTF-16 code units of a text gives the text.
pub proof fn law_utf16_round_trip(s: Seq<char>)
    ensures
        utf16_text(utf16_of(s)) == Some(s),
    decreases s.len(),
{
    if s.len() > 0 {
        let c = s[0];
        let head = utf16_of_char(c);
        let tail = utf16_of(s.skip(1));
        let units = head + tail;
        law_utf16_round_trip(s.skip(1));
        lemma_char_units(c);
        assert(units.skip(head.len() as int) =~= tail);
        assert(units[0] == head[0]);
        if c as int >= 0x10000 {
            assert(units[1] == head[1]);
        }
        assert(seq![c] + s.skip(1) =~= s);
    } else {
        assert(s =~= Seq::<char>::empty());
    }
}

/// A managed string is read back as it was laid out: its length, then its
/// UTF-16 code units in little-endian order.
pub proof fn law_mono_string_reads_back(mem: Map<int, u8>, p: int, s: Seq<char>)
    requires
        MIN_STRING_PTR <= p,
        utf16_of(s).len() <= MAX_STRING_LEN,
        p + STRING_CHARS + 2 * utf16_of(s).len() <= memory::address_space(),
        memory::i32_at(mem, p + STRING_LEN) == utf16_of(s).len(),
        memory::mapped(mem, p + STRING_CHARS, 2 * utf16_of(s).len() as int),
        code_units(
            memory::bytes_at(mem, p + STRING_CHARS, 2 * utf16_of(s).len() as int),
        ) == utf16_of(s),
    ensures
        mono_string_at(mem, p) == Some(s),
{
    law_utf16_round_trip(s);
    if utf16_of(s).len() == 0 {
        assert(utf16_of(s) =~= Seq::<u16>::empty());
    }
}

/// A name is read back as it was laid out: its characters, one byte each, and a 0.
pub proof fn law_name_reads_back(mem: Map<int, u8>, a: int, s: Seq<char>)
    requires
        a + s.len() < memory::address_space(),
        forall|i: int| #![trigger s[i]]
            0 <= i < s.len() ==> 0 < s[i] as int && memory::u8_at(mem, a + i) == s[i] as int,
        memory::u8_at(mem, a + s.len()) == 0,
    ensures
        name_at(mem, a) == s,
    decreases s.len(),
{
    if s.len() > 0 {
        let rest = s.skip(1);
        assert forall|i: int| #![trigger rest[i]]
            0 <= i < rest.len() implies 0 < rest[i] as int && memory::u8_at(mem, a + 1 + i)
            == rest[i] as int by {
            assert(rest[i] == s[i + 1]);
        }
        law_name_reads_back(mem, a + 1, rest);
        assert(memory::u8_at(mem, a + 0) == s[0] as int);
        assert(seq![s[0]] + rest =~= s);
    } else {
        assert(s =~= Seq::<char>::empty());
    }
}

/// A name ends before the first 0, before the first byte that was not captured,
/// or with the address space; up to there each byte gives the character of that
/// code.
pub proof fn law_name_is_what_is_there(mem: Map<int, u8>, a: int, s: Seq<char>)
    requires
        a + s.len() <= u64::MAX + 1,
        forall|i: int| #![trigger s[i]]
            0 <= i < s.len() ==> s[i] as int != 0 && memory::holds_byte(mem, a + i, s[i] as int),
        a + s.len() == u64::MAX + 1 || !mem.contains_key(a + s.len()) || mem[a + s.len()] == 0,
    ensures
        name_at(mem, a) == s,
    decreases s.len(),
{
    if s.len() > 0 {
        let first = s[0];
        let rest = s.skip(1);
        assert(memory::holds_byte(mem, a + 0, first as int));
        assert forall|i: int| #![trigger rest[i]] 0 <= i < rest.len() implies rest[i] as int != 0
            && memory::holds_byte(mem, a + 1 + i, rest[i] as int) by {
            assert(rest[i] == s[i + 1]);
            assert(memory::holds_byte(mem, a + (i + 1), s[i + 1] as int));
        }
        law_name_is_what_is_there(mem, a + 1, rest);
        assert(seq![first] + rest =~= s);
    } else {
        assert(s =~= Seq::<char>::empty());
    }
}

/// Decoding goes from unit to unit: a unit that is no surrogate is the
/// character of that code, a high and a low surrogate together are one
/// character beyond the first 65536, and any other surrogate spoils the text.
pub proof fn law_utf16_unit_by_unit(u: u16, v: u16, rest: Seq<u16>)
    ensures
        utf16_text(Seq::empty()) == Some(Seq::<char>::empty()),
        !(0xD800 <= u < 0xE000) ==> match utf16_text(rest) {
            Some(text) => utf16_text(seq![u] + rest) matches Some(all) && all.len() == text.len()
                + 1 && all[0] as int == u && all.skip(1) == text,
            None => utf16_text(seq![u] + rest) is None,
        },
        0xD800 <= u < 0xDC00 <= v < 0xE000 ==> match utf16_text(rest) {
            Some(text) => utf16_text(seq![u, v] + rest) matches Some(all) && all.len() == text.len()
                + 1 && all[0] as int == 0x1_0000 + 0x400 * (u - 0xD800) + (v - 0xDC00)
                && all.skip(1) == text,
            None => utf16_text(seq![u, v] + rest) is None,
        },
        0xDC00 <= u < 0xE000 ==> utf16_text(seq![u] + rest) is None,
        0xD800 <= u < 0xDC00 ==> utf16_text(seq![u]) is None,
        0xD800 <= u < 0xDC00 && !(0xDC00 <= v < 0xE000) ==> utf16_text(seq![u, v] + rest) is None,
{
    let one = seq![u] + rest;
    let two = seq![u, v] + rest;
    assert(one[0] == u && two[0] == u && two[1] == v);
    assert(one.skip(1) =~= rest);
    assert(two.skip(2) =~= rest);
    match utf16_text(rest) {
        Some(text) => {
            let c = u as char;
            assert((seq![c] + text).skip(1) =~= text);
            if 0xD800 <= u < 0xDC00 <= v < 0xE000 {
                let d = surrogate_pair(u, v) as char;
                assert((seq![d] + text).skip(1) =~= text);
            }
        },
        None => {},
    }
}

/// Texts and their code units belong together one to one: whatever decodes is
/// the encoding of what it decodes to.
pub proof fn law_utf16_text_is_encoded(units: Seq<u16>)
    ensures
        utf16_text(units) matches Some(s) ==> utf16_of(s) == units,
    decreases units.len(),
{
    if utf16_text(units) is Some && units.len() > 0 {
        let s = utf16_text(units)->0;
        if !is_surrogate(units[0]) {
            let rest = units.skip(1);
            law_utf16_text_is_encoded(rest);
            assert(s.skip(1) =~= utf16_text(rest)->0);
            assert(s[0] as int == units[0]);
            assert(seq![units[0]] + rest =~= units);
        } else {
            let rest = units.skip(2);
            law_utf16_text_is_encoded(rest);
            assert(s.skip(1) =~= utf16_text(rest)->0);
            assert(s[0] as int == surrogate_pair(units[0], units[1]));
            assert(seq![units[0], units[1]] + rest =~= units);
            assert(utf16_of_char(s[0]) =~= seq![units[0], units[1]]);
        }
    }
}

/// A managed string is made of the code units that stand 20 bytes behind its
/// start, as many as the number 16 bytes behind it says; there are at most
/// 1024. Without them, and in the first megabyte, there is no string.
pub proof fn law_mono_string_is_what_is_there(mem: Map<int, u8>, p: int, units: Seq<u16>, k: int)
    ensures
        ({
            let len = memory::i32_at(mem, memory::wrap(p + 0x10));
            let chars = memory::wrap(p + 0x14);
            &&& p >= 0x10_0000 && units.len() == len <= 1024 && (forall|i: int|
                #![trigger units[i]]
                0 <= i < len ==> {
                    &&& memory::holds_byte(mem, chars + 2 * i, (units[i] % 0x100) as int)
                    &&& memory::holds_byte(mem, chars + 2 * i + 1, (units[i] / 0x100) as int)
                }) ==> mono_string_at(mem, p) == utf16_text(units)
            &&& p < 0x10_0000 || len < 0 || len > 1024 ==> mono_string_at(mem, p) is None
            &&& 0 <= k < 2 * len && !mem.contains_key(chars + k) ==> mono_string_at(mem, p) is None
        }),
{
    let len = memory::i32_at(mem, memory::wrap(p + 0x10));
    let chars = memory::wrap(p + 0x14);
    if p >= 0x10_0000 && units.len() == len <= 1024 && (forall|i: int|
        #![trigger units[i]]
        0 <= i < len ==> {
            &&& memory::holds_byte(mem, chars + 2 * i, (units[i] % 0x100) as int)
            &&& memory::holds_byte(mem, chars + 2 * i + 1, (units[i] / 0x100) as int)
        }) {
        if len == 0 {
            assert(units =~= Seq::<u16>::empty());
        } else {
            assert forall|a: int| chars <= a < chars + 2 * len implies #[trigger]
                mem.contains_key(a) by {
                let i = (a - chars) / 2;
                let u = units[i];
                assert(a == chars + 2 * i || a == chars + 2 * i + 1);
            }
            let bytes = memory::bytes_at(mem, chars, 2 * len);
            assert forall|i: int| 0 <= i < len implies #[trigger] code_units(bytes)[i]
                == units[i] by {
                let u = units[i];
                assert(bytes[2 * i] == mem[chars + 2 * i]);
                assert(bytes[2 * i + 1] == mem[chars + (2 * i + 1)]);
            }
            assert(code_units(bytes) =~= units);
        }
        assert(mono_string_at(mem, p) == utf16_text(units));
    }
    if 0 <= k < 2 * len && !mem.contains_key(chars + k) {
        assert(!memory::mapped(mem, chars, 2 * len));
        assert(mono_string_at(mem, p) is None);
    }
}

/// Bytes are taken two by two, the lower one of each first; an odd one at the end
/// is left over.
pub proof fn law_code_units_are_pairs_of_bytes(bytes: Seq<u8>, low: u8, high: u8)
    ensures
        code_units(Seq::empty()) == Seq::<u16>::empty(),
        code_units(seq![low]) == Seq::<u16>::empty(),
        code_units(seq![low, high] + bytes) == seq![(low + 0x100 * high) as u16] + code_units(bytes),
{
    let none = Seq::<u8>::empty();
    assert(code_units(none) =~= Seq::<u16>::empty());
    assert(code_units(seq![low]) =~= Seq::<u16>::empty());
    let all = seq![low, high] + bytes;
    assert forall|i: int| 0 <= i < code_units(bytes).len() implies #[trigger] code_units(all)[i + 1]
        == code_units(bytes)[i] by {
        assert(all[2 * (i + 1)] == bytes[2 * i]);
        assert(all[2 * (i + 1) + 1] == bytes[2 * i + 1]);
    }
    let want = seq![(low + 0x100 * high) as u16] + code_units(bytes);
    assert forall|i: int| 0 <= i < want.len() implies #[trigger] code_units(all)[i] == want[i] by {
        if i > 0 {
            assert(code_units(all)[(i - 1) + 1] == code_units(bytes)[i - 1]);
        }
    }
    assert(code_units(all) =~= want);
}

} // verus!
