//! A process's memory, captured as a set of byte runs, and reads from it.
//!
//! Addresses are those of the inspected 64-bit process, so they are `u64`
//! whatever the width of the machine that does the inspecting. A read that
//! touches an address that was not captured gives 0, or no bytes.
use vstd::prelude::*;

verus! {

/// The number of addresses of a 64-bit process.
pub open spec fn address_space() -> int {
    0x1_0000_0000_0000_0000
}

/// Address arithmetic is modulo the size of the address space.
pub open spec fn wrap(a: int) -> int {
    a % address_space()
}

/// All of the `n` bytes from address `a` on are in the image.
pub open spec fn mapped(mem: Map<int, u8>, a: int, n: int) -> bool {
    forall|i: int| a <= i < a + n ==> #[trigger] mem.contains_key(i)
}

/// The `n` bytes from address `a` on.
pub open spec fn bytes_at(mem: Map<int, u8>, a: int, n: int) -> Seq<u8> {
    Seq::new(n as nat, |i: int| mem[a + i])
}

/// The little-endian 32-bit number at position `i` of `s`.
pub open spec fn le32(s: Seq<u8>, i: int) -> int {
    s[i] + 0x100 * s[i + 1] + 0x1_0000 * s[i + 2] + 0x100_0000 * s[i + 3]
}

/// The little-endian 64-bit number at position `i` of `s`.
pub open spec fn le64(s: Seq<u8>, i: int) -> int {
    le32(s, i) + 0x1_0000_0000 * le32(s, i + 4)
}

/// The two's complement reading of a 32-bit number.
pub open spec fn signed32(v: int) -> int {
    if v < 0x8000_0000 {
        v
    } else {
        v - 0x1_0000_0000
    }
}

/// The byte at `a`, or 0 where none was captured.
pub open spec fn u8_at(mem: Map<int, u8>, a: int) -> int {
    if mem.contains_key(a) {
        mem[a] as int
    } else {
        0
    }
}

/// The unsigned 32-bit number at `a`, or 0 where one of its bytes is missing.
pub open spec fn u32_at(mem: Map<int, u8>, a: int) -> int {
    if mapped(mem, a, 4) {
        le32(bytes_at(mem, a, 4), 0)
    } else {
        0
    }
}

/// The signed 32-bit number at `a`, or 0 where one of its bytes is missing.
pub open spec fn i32_at(mem: Map<int, u8>, a: int) -> int {
    signed32(u32_at(mem, a))
}

/// The pointer at `a`, or 0 where one of its bytes is missing.
pub open spec fn ptr_at(mem: Map<int, u8>, a: int) -> int {
    if mapped(mem, a, 8) {
        le64(bytes_at(mem, a, 8), 0)
    } else {
        0
    }
}

/// The image `mem` with `bytes` laid over it from `start` on.
pub open spec fn overlay(mem: Map<int, u8>, start: int, bytes: Seq<u8>) -> Map<int, u8> {
    Map::new(
        |a: int| mem.contains_key(a) || start <= a < start + bytes.len(),
        |a: int|
            if start <= a < start + bytes.len() {
                bytes[a - start]
            } else {
                mem[a]
            },
    )
}

/// `e` is the first address after everything in the image (0 for no image at all).
pub open spec fn is_end(mem: Map<int, u8>, e: int) -> bool {
    &&& forall|a: int| #[trigger] mem.contains_key(a) ==> a < e
    &&& e == 0 || mem.contains_key(e - 1)
}

/// `addr + off`, modulo the size of the address space.
pub fn offset(addr: u64, off: u64) -> (res: u64)
    ensures
        res == wrap(addr + off),
{
    addr.wrapping_add(off)
}

/// The little-endian 32-bit number at position `i` of `buf`.
pub fn u32_in(buf: &Vec<u8>, i: usize) -> (res: u32)
    requires
        i + 4 <= buf.len(),
    ensures
        res == le32(buf@, i as int),
{
    buf[i] as u32 + 0x100 * (buf[i + 1] as u32) + 0x1_0000 * (buf[i + 2] as u32) + 0x100_0000 * (
    buf[i + 3] as u32)
}

/// The little-endian signed 32-bit number at position `i` of `buf`.
pub fn i32_in(buf: &Vec<u8>, i: usize) -> (res: i32)
    requires
        i + 4 <= buf.len(),
    ensures
        res == signed32(le32(buf@, i as int)),
{
    let v: u32 = u32_in(buf, i);
    if v < 0x8000_0000 {
        v as i32
    } else {
        (v as i64 - 0x1_0000_0000) as i32
    }
}

/// The little-endian 64-bit number at position `i` of `buf`.
pub fn u64_in(buf: &Vec<u8>, i: usize) -> (res: u64)
    requires
        i + 8 <= buf.len(),
    ensures
        res == le64(buf@, i as int),
{
    u32_in(buf, i) as u64 + 0x1_0000_0000 * (u32_in(buf, i + 4) as u64)
}

/// The numbers in a captured run of bytes are the numbers at its addresses.
pub proof fn lemma_numbers_in(mem: Map<int, u8>, start: int, n: int, i: int)
    requires
        mapped(mem, start, n),
        0 <= i,
    ensures
        i + 4 <= n ==> u32_at(mem, start + i) == le32(bytes_at(mem, start, n), i),
        i + 8 <= n ==> ptr_at(mem, start + i) == le64(bytes_at(mem, start, n), i),
{
    let all = bytes_at(mem, start, n);
    if i + 4 <= n {
        let part = bytes_at(mem, start + i, 4);
        assert forall|j: int| 0 <= j < 4 implies #[trigger] part[j] == all[i + j] by {}
    }
    if i + 8 <= n {
        let part = bytes_at(mem, start + i, 8);
        assert forall|j: int| 0 <= j < 8 implies #[trigger] part[j] == all[i + j] by {}
    }
}

/// The number at an address is a 32-bit, or a 64-bit, number.
pub proof fn lemma_number_range(mem: Map<int, u8>, a: int)
    ensures
        0 <= u8_at(mem, a) < 0x100,
        0 <= u32_at(mem, a) < 0x1_0000_0000,
        -0x8000_0000 <= i32_at(mem, a) < 0x8000_0000,
        0 <= ptr_at(mem, a) < address_space(),
{
}

/// What is laid over an image is read back from it.
pub proof fn law_overlay_reads_back(mem: Map<int, u8>, start: int, bytes: Seq<u8>)
    ensures
        mapped(overlay(mem, start, bytes), start, bytes.len() as int),
        bytes_at(overlay(mem, start, bytes), start, bytes.len() as int) == bytes,
{
    assert(bytes_at(overlay(mem, start, bytes), start, bytes.len() as int) =~= bytes);
}

/// Laying bytes over an image leaves the reads beside them as they were.
pub proof fn law_overlay_keeps_the_rest(
    mem: Map<int, u8>,
    start: int,
    bytes: Seq<u8>,
    a: int,
    n: int,
)
    requires
        n >= 0,
        a + n <= start || start + bytes.len() <= a,
    ensures
        mapped(overlay(mem, start, bytes), a, n) == mapped(mem, a, n),
        mapped(mem, a, n) ==> bytes_at(overlay(mem, start, bytes), a, n) == bytes_at(mem, a, n),
{
    let after = overlay(mem, start, bytes);
    assert forall|i: int| a <= i < a + n implies after.contains_key(i) == mem.contains_key(i) by {}
    if mapped(after, a, n) {
        assert forall|i: int| a <= i < a + n implies mem.contains_key(i) by {
            assert(after.contains_key(i));
        }
    }
    if mapped(mem, a, n) {
        assert forall|i: int| a <= i < a + n implies after.contains_key(i) by {
            assert(mem.contains_key(i));
        }
    }
    if mapped(mem, a, n) {
        assert forall|i: int| 0 <= i < n implies #[trigger] bytes_at(after, a, n)[i] == bytes_at(
            mem,
            a,
            n,
        )[i] by {
            assert(mem.contains_key(a + i));
            assert(after.contains_key(a + i));
        }
        assert(bytes_at(after, a, n) =~= bytes_at(mem, a, n));
    }
}

/// A run of captured bytes.
struct Segment {
    start: u64,
    bytes: Vec<u8>,
}

impl Segment {
    spec fn end(self) -> int {
        self.start + self.bytes@.len()
    }

    spec fn covers(self, a: int) -> bool {
        self.start <= a < self.end()
    }
}

/// The captured memory of a process.
///
/// Its view maps each captured address to the byte found there.
pub struct MonoReader {
    segments: Vec<Segment>,
}

impl View for MonoReader {
    type V = Map<int, u8>;

    closed spec fn view(&self) -> Map<int, u8> {
        Map::new(
            |a: int| exists|k: int| self.segment_covers(k, a),
            |a: int|
                {
                    let k = choose|k: int| self.segment_covers(k, a);
                    self.segments@[k].bytes@[a - self.segments@[k].start]
                },
        )
    }
}

impl MonoReader {
    spec fn segment_covers(&self, k: int, a: int) -> bool {
        0 <= k < self.segments@.len() && self.segments@[k].covers(a)
    }

    /// The runs are not empty, lie in the address space, and ascend with a gap
    /// between one run and the next.
    #[verifier::type_invariant]
    spec fn well_formed(&self) -> bool {
        &&& forall|k: int|
            0 <= k < self.segments@.len() ==> #[trigger] self.segments@[k].bytes@.len() > 0
                && self.segments@[k].end() <= u64::MAX
        &&& forall|j: int, k: int|
            0 <= j < k < self.segments@.len() ==> (#[trigger] self.segments@[j]).end() < (
            #[trigger] self.segments@[k]).start
    }

    proof fn lemma_byte(&self, k: int, a: int)
        requires
            self.well_formed(),
            self.segment_covers(k, a),
        ensures
            self@.contains_key(a),
            self@[a] == self.segments@[k].bytes@[a - self.segments@[k].start],
    {
        let c = choose|c: int| self.segment_covers(c, a);
        assert(self.segment_covers(c, a));
        assert(c == k);
    }

    /// An image that holds nothing.
    pub fn new() -> (res: MonoReader)
        ensures
            res@ == Map::<int, u8>::empty(),
    {
        let res = MonoReader { segments: Vec::new() };
        assert(res@ =~= Map::<int, u8>::empty());
        res
    }

    /// The index of the run that holds `addr`.
    fn locate(&self, addr: u64) -> (res: Option<usize>)
        ensures
            match res {
                Some(k) => self.segment_covers(k as int, addr as int),
                None => !self@.contains_key(addr as int),
            },
    {
        proof {
            use_type_invariant(self);
        }
        let mut lo: usize = 0;
        let mut hi: usize = self.segments.len();
        while lo < hi
            invariant
                self.well_formed(),
                lo <= hi <= self.segments@.len(),
                forall|k: int| 0 <= k < lo ==> (#[trigger] self.segments@[k]).end() <= addr,
                forall|k: int|
                    hi <= k < self.segments@.len() ==> addr < (#[trigger] self.segments@[k]).start,
            decreases hi - lo,
        {
            let mid: usize = lo + (hi - lo) / 2;
            let start: u64 = self.segments[mid].start;
            if addr < start {
                hi = mid;
            } else if addr - start < self.segments[mid].bytes.len() as u64 {
                return Some(mid);
            } else {
                lo = mid + 1;
            }
        }
        None
    }

    /// Where the `n` bytes from `addr` on stand: a run and the position in it.
    fn window(&self, addr: u64, n: u64) -> (res: Option<(usize, usize)>)
        requires
            n > 0,
        ensures
            match res {
                Some((k, off)) => {
                    &&& k < self.segments@.len()
                    &&& off + n <= self.segments@[k as int].bytes@.len()
                    &&& mapped(self@, addr as int, n as int)
                    &&& forall|i: int|
                        0 <= i < n ==> #[trigger] self.segments@[k as int].bytes@[off + i]
                            == self@[addr + i]
                },
                None => !mapped(self@, addr as int, n as int),
            },
    {
        proof {
            use_type_invariant(self);
        }
        match self.locate(addr) {
            None => None,
            Some(k) => {
                let start: u64 = self.segments[k].start;
                let len: u64 = self.segments[k].bytes.len() as u64;
                let off: u64 = addr - start;
                if n <= len - off {
                    proof {
                        assert forall|a: int| addr <= a < addr + n implies self@.contains_key(a) by {
                            self.lemma_byte(k as int, a);
                        }
                        assert forall|i: int| 0 <= i < n implies #[trigger]
                            self.segments@[k as int].bytes@[off + i] == self@[addr + i] by {
                            self.lemma_byte(k as int, addr + i);
                        }
                    }
                    Some((k, off as usize))
                } else {
                    proof {
                        let end = self.segments@[k as int].end();
                        if self@.contains_key(end) {
                            let c = choose|c: int| self.segment_covers(c, end);
                            assert(self.segment_covers(c, end));
                            assert(false);
                        }
                        assert(addr <= end < addr + n);
                    }
                    None
                }
            },
        }
    }

    /// The first address after everything captured, 0 where nothing is.
    pub fn end(&self) -> (res: u64)
        ensures
            is_end(self@, res as int),
    {
        proof {
            use_type_invariant(self);
        }
        let n: usize = self.segments.len();
        if n == 0 {
            return 0;
        }
        let last: u64 = self.segments[n - 1].start + self.segments[n - 1].bytes.len() as u64;
        proof {
            self.lemma_byte(n - 1, last - 1);
        }
        last
    }

    /// Adds `bytes`, found from `start` on, behind everything captured so far.
    /// Where they would not come behind it, or would not end inside the
    /// address space, the answer is `false` and nothing changes.
    pub fn capture(&mut self, start: u64, bytes: Vec<u8>) -> (ok: bool)
        ensures
            ok == (start + bytes@.len() <= u64::MAX && forall|a: int| #[trigger]
                old(self)@.contains_key(a) ==> a < start),
            ok ==> final(self)@ == overlay(old(self)@, start as int, bytes@),
            !ok ==> final(self)@ == old(self)@,
    {
        let end: u64 = self.end();
        let len: u64 = bytes.len() as u64;
        if start < end || len > u64::MAX - start {
            return false;
        }
        if len == 0 {
            assert(overlay(self@, start as int, bytes@) =~= self@);
            return true;
        }
        let ghost before = *self;
        let ghost added = bytes@;
        proof {
            use_type_invariant(&*self);
            assert forall|k: int| 0 <= k < self.segments@.len() implies (
            #[trigger] self.segments@[k]).end() <= end by {
                self.lemma_byte(k, self.segments@[k].end() - 1);
            }
            if self.segments@.len() > 0 {
                self.lemma_byte(0, self.segments@[0].start as int);
                let top = end - 1;
                let k = choose|k: int| self.segment_covers(k, top);
                assert(self.segment_covers(k, top));
                assert(self.segments@[self.segments@.len() - 1].end() <= end);
                assert(k == self.segments@.len() - 1);
            }
        }
        let mut segments: Vec<Segment> = Vec::new();
        std::mem::swap(&mut segments, &mut self.segments);
        let mut run = Segment { start, bytes };
        if end == start && segments.len() > 0 {
            match segments.pop() {
                Some(mut last) => {
                    last.bytes.append(&mut run.bytes);
                    run = last;
                },
                None => {},
            }
        }
        segments.push(run);
        self.segments = segments;
        proof {
            if self.segments@.len() == before.segments@.len() {
                assert(self.segments@.drop_last() =~= before.segments@.drop_last());
            } else {
                assert(self.segments@.drop_last() =~= before.segments@);
            }
            before.lemma_extended(*self, start, added);
        }
        true
    }

    /// The `len` bytes from `addr` on, or none at all where one of them is missing.
    pub fn read_bytes(&self, addr: u64, len: u64) -> (res: Vec<u8>)
        ensures
            res@ == (if mapped(self@, addr as int, len as int) {
                bytes_at(self@, addr as int, len as int)
            } else {
                Seq::<u8>::empty()
            }),
    {
        let mut res: Vec<u8> = Vec::new();
        if len == 0 {
            assert(res@ =~= bytes_at(self@, addr as int, 0));
            return res;
        }
        match self.window(addr, len) {
            None => res,
            Some((k, off)) => {
                let bytes = &self.segments[k].bytes;
                assert(len <= bytes.len());
                let n: usize = len as usize;
                let mut i: usize = 0;
                while i < n
                    invariant
                        i <= n,
                        n == len,
                        off + n <= bytes.len(),
                        res@.len() == i,
                        forall|j: int| 0 <= j < n ==> #[trigger] bytes@[off + j] == self@[addr + j],
                        forall|j: int| 0 <= j < i ==> #[trigger] res@[j] == self@[addr + j],
                    decreases n - i,
                {
                    assert(bytes@[off + i] == self@[addr + i]);
                    res.push(bytes[off + i]);
                    i = i + 1;
                }
                assert(res@ =~= bytes_at(self@, addr as int, len as int));
                res
            },
        }
    }

    /// The byte at `addr`.
    pub fn read_u8(&self, addr: u64) -> (res: u8)
        ensures
            res == u8_at(self@, addr as int),
    {
        match self.window(addr, 1) {
            None => 0,
            Some((k, off)) => {
                assert(self.segments@[k as int].bytes@[off + 0] == self@[addr + 0]);
                self.segments[k].bytes[off]
            },
        }
    }

    /// The unsigned 32-bit number at `addr`.
    pub fn read_u32(&self, addr: u64) -> (res: u32)
        ensures
            res == u32_at(self@, addr as int),
    {
        match self.window(addr, 4) {
            None => 0,
            Some((k, off)) => {
                proof {
                    let run = self.segments@[k as int].bytes@;
                    let part = bytes_at(self@, addr as int, 4);
                    assert forall|j: int| 0 <= j < 4 implies #[trigger] part[j] == run[off + j] by {}
                }
                u32_in(&self.segments[k].bytes, off)
            },
        }
    }

    /// The signed 32-bit number at `addr`.
    pub fn read_i32(&self, addr: u64) -> (res: i32)
        ensures
            res == i32_at(self@, addr as int),
    {
        let v: u32 = self.read_u32(addr);
        if v < 0x8000_0000 {
            v as i32
        } else {
            (v as i64 - 0x1_0000_0000) as i32
        }
    }

    /// The pointer at `addr`.
    pub fn read_ptr(&self, addr: u64) -> (res: u64)
        ensures
            res == ptr_at(self@, addr as int),
    {
        match self.window(addr, 8) {
            None => 0,
            Some((k, off)) => {
                proof {
                    let run = self.segments@[k as int].bytes@;
                    let part = bytes_at(self@, addr as int, 8);
                    assert forall|j: int| 0 <= j < 8 implies #[trigger] part[j] == run[off + j] by {}
                }
                u64_in(&self.segments[k].bytes, off)
            },
        }
    }

    /// Adding bytes to the last run, or a run behind the last one, lays them over the image.
    proof fn lemma_extended(self, after: MonoReader, start: u64, bytes: Seq<u8>)
        requires
            self.well_formed(),
            after.well_formed(),
            bytes.len() > 0,
            forall|k: int| 0 <= k < self.segments@.len() ==> (#[trigger] self.segments@[k]).end() <= start,
            ({
                let n = self.segments@.len();
                let runs = after.segments@;
                ||| {
                    &&& runs.len() == n + 1
                    &&& runs.drop_last() == self.segments@
                    &&& runs.last().start == start
                    &&& runs.last().bytes@ == bytes
                }
                ||| {
                    &&& n > 0
                    &&& runs.len() == n
                    &&& runs.drop_last() == self.segments@.drop_last()
                    &&& self.segments@.last().end() == start
                    &&& runs.last().start == self.segments@.last().start
                    &&& runs.last().bytes@ == self.segments@.last().bytes@ + bytes
                }
            }),
        ensures
            after@ == overlay(self@, start as int, bytes),
    {
        let want = overlay(self@, start as int, bytes);
        let n = after.segments@.len();
        assert forall|a: int| after@.contains_key(a) == #[trigger] want.contains_key(a) && (
        want.contains_key(a) ==> after@[a] == want[a]) by {
            if start <= a < start + bytes.len() {
                assert(after.segment_covers(n - 1, a));
                after.lemma_byte(n - 1, a);
            } else if self@.contains_key(a) {
                let k = choose|k: int| self.segment_covers(k, a);
                self.lemma_byte(k, a);
                assert(after.segments@.drop_last().len() == n - 1);
                if k < n - 1 {
                    assert(after.segments@.drop_last()[k] == after.segments@[k]);
                    assert(self.segments@[k] == after.segments@[k]);
                }
                assert(after.segment_covers(k, a));
                after.lemma_byte(k, a);
            } else if after@.contains_key(a) {
                let k = choose|k: int| after.segment_covers(k, a);
                if k < n - 1 {
                    assert(after.segments@.drop_last()[k] == after.segments@[k]);
                    assert(self.segments@[k] == after.segments@[k]);
                }
                assert(self.segment_covers(k, a));
                self.lemma_byte(k, a);
            }
        }
        assert forall|a: int| #[trigger] after@.dom().contains(a) == want.dom().contains(a) by {
            assert(after@.contains_key(a) == want.contains_key(a));
        }
        assert(after@.dom() =~= want.dom());
        assert forall|a: int| after@.dom().contains(a) implies #[trigger] after@[a] == want[a] by {
            assert(want.contains_key(a));
        }
        assert(after@ =~= want);
    }
}

/// The bytes of an image: a run of addresses is mapped where each of them is,
/// and its bytes are those of the image, in order.
pub proof fn law_bytes_are_those_of_the_image(mem: Map<int, u8>, a: int, n: nat)
    ensures
        mapped(mem, a, n as int) <==> forall|k: int| 0 <= k < n ==> #[trigger] mem.contains_key(a + k),
        bytes_at(mem, a, n as int).len() == n,
        forall|k: int| 0 <= k < n ==> #[trigger] bytes_at(mem, a, n as int)[k] == mem[a + k],
{
    if forall|k: int| 0 <= k < n ==> #[trigger] mem.contains_key(a + k) {
        assert forall|i: int| a <= i < a + n implies #[trigger] mem.contains_key(i) by {
            assert(mem.contains_key(a + (i - a)));
        }
    }
}

/// A byte that was captured is read, and any other reads as 0.
pub proof fn law_byte_reads_back(mem: Map<int, u8>, a: int)
    ensures
        mem.contains_key(a) ==> u8_at(mem, a) == mem[a],
        !mem.contains_key(a) ==> u8_at(mem, a) == 0,
{
}

/// The image holds the byte `b` at `a`.
pub open spec fn holds_byte(mem: Map<int, u8>, a: int, b: int) -> bool {
    mem.contains_key(a) && mem[a] == b
}

/// A 32-bit number is read back from its four bytes, of which the lowest comes
/// first.
pub proof fn law_u32_reads_back(mem: Map<int, u8>, a: int, v: u32)
    requires
        holds_byte(mem, a, (v % 0x100) as int),
        holds_byte(mem, a + 1, (v / 0x100 % 0x100) as int),
        holds_byte(mem, a + 2, (v / 0x1_0000 % 0x100) as int),
        holds_byte(mem, a + 3, (v / 0x100_0000) as int),
    ensures
        u32_at(mem, a) == v,
{
    let s = bytes_at(mem, a, 4);
    assert forall|i: int| a <= i < a + 4 implies #[trigger] mem.contains_key(i) by {
        assert(i == a || i == a + 1 || i == a + 2 || i == a + 3);
    }
    assert(s[0] == mem[a] && s[1] == mem[a + 1] && s[2] == mem[a + 2] && s[3] == mem[a + 3]);
}

/// A signed 32-bit number is read back from the four bytes of its two's
/// complement, of which the lowest comes first.
pub proof fn law_i32_reads_back(mem: Map<int, u8>, a: int, v: i32)
    requires
        ({
            let u = if v < 0 {
                v + 0x1_0000_0000
            } else {
                v as int
            };
            &&& holds_byte(mem, a, u % 0x100)
            &&& holds_byte(mem, a + 1, u / 0x100 % 0x100)
            &&& holds_byte(mem, a + 2, u / 0x1_0000 % 0x100)
            &&& holds_byte(mem, a + 3, u / 0x100_0000)
        }),
    ensures
        i32_at(mem, a) == v,
{
    if v < 0 {
        law_u32_reads_back(mem, a, (v + 0x1_0000_0000) as u32);
    } else {
        law_u32_reads_back(mem, a, v as u32);
    }
}

/// A pointer is read back from its eight bytes, of which the lowest comes first.
pub proof fn law_ptr_reads_back(mem: Map<int, u8>, a: int, v: u64)
    requires
        holds_byte(mem, a, (v % 0x100) as int),
        holds_byte(mem, a + 1, (v / 0x100 % 0x100) as int),
        holds_byte(mem, a + 2, (v / 0x1_0000 % 0x100) as int),
        holds_byte(mem, a + 3, (v / 0x100_0000 % 0x100) as int),
        holds_byte(mem, a + 4, (v / 0x1_0000_0000 % 0x100) as int),
        holds_byte(mem, a + 5, (v / 0x100_0000_0000 % 0x100) as int),
        holds_byte(mem, a + 6, (v / 0x1_0000_0000_0000 % 0x100) as int),
        holds_byte(mem, a + 7, (v / 0x100_0000_0000_0000) as int),
    ensures
        ptr_at(mem, a) == v,
{
    let low = (v % 0x1_0000_0000) as u32;
    let high = (v / 0x1_0000_0000) as u32;
    assert forall|i: int| a <= i < a + 8 implies #[trigger] mem.contains_key(i) by {
        assert(i == a || i == a + 1 || i == a + 2 || i == a + 3 || i == a + 4 || i == a + 5 || i
            == a + 6 || i == a + 7);
    }
    assert({
        let low = v % 0x1_0000_0000;
        let high = v / 0x1_0000_0000;
        &&& v % 0x100 == low % 0x100
        &&& v / 0x100 % 0x100 == low / 0x100 % 0x100
        &&& v / 0x1_0000 % 0x100 == low / 0x1_0000 % 0x100
        &&& v / 0x100_0000 % 0x100 == low / 0x100_0000
        &&& v / 0x100_0000_0000 % 0x100 == high / 0x100 % 0x100
        &&& v / 0x1_0000_0000_0000 % 0x100 == high / 0x1_0000 % 0x100
        &&& v / 0x100_0000_0000_0000 == high / 0x100_0000
    }) by (bit_vector);
    assert(mem.contains_key(a + 4 + 1) && mem.contains_key(a + 4 + 2) && mem.contains_key(
        a + 4 + 3,
    ));
    law_u32_reads_back(mem, a, low);
    law_u32_reads_back(mem, a + 4, high);
    lemma_numbers_in(mem, a, 8, 0);
    lemma_numbers_in(mem, a, 8, 4);
}

/// A number of which a byte is missing reads as 0.
pub proof fn law_missing_byte_reads_zero(mem: Map<int, u8>, a: int, k: int)
    requires
        !mem.contains_key(a + k),
    ensures
        0 <= k < 4 ==> u32_at(mem, a) == 0 && i32_at(mem, a) == 0,
        0 <= k < 8 ==> ptr_at(mem, a) == 0,
{
}

/// An address is not moved by going round the address space, and one inside it
/// stays what it is.
pub proof fn law_addresses_wrap(a: int, rounds: int)
    requires
        0 <= a <= u64::MAX,
    ensures
        wrap(a) == a,
        wrap(a + rounds * (u64::MAX + 1)) == a,
{
    let m = u64::MAX + 1;
    assert((a + rounds * m) % m == a) by (nonlinear_arith)
        requires
            0 <= a < m,
            m == 0x1_0000_0000_0000_0000,
    ;
}

/// An image with bytes laid over it holds these bytes where they were laid,
/// and everywhere else what it held before.
pub proof fn law_overlay_is_pointwise(mem: Map<int, u8>, start: int, bytes: Seq<u8>, k: int)
    ensures
        0 <= k < bytes.len() ==> overlay(mem, start, bytes).contains_key(start + k) && overlay(
            mem,
            start,
            bytes,
        )[start + k] == bytes[k],
        !(0 <= k < bytes.len()) ==> {
            &&& overlay(mem, start, bytes).contains_key(start + k) == mem.contains_key(start + k)
            &&& mem.contains_key(start + k) ==> overlay(mem, start, bytes)[start + k] == mem[start
                + k]
        },
{
}

/// The end of an image is 0 before anything is captured, and then that of what
/// was captured last.
pub proof fn law_end_follows_captures(mem: Map<int, u8>, e: int, start: int, bytes: Seq<u8>, x: int)
    requires
        is_end(mem, e),
        e <= start,
        x >= 0,
    ensures
        is_end(Map::<int, u8>::empty(), x) <==> x == 0,
        start >= 0 && bytes.len() > 0 ==> (is_end(overlay(mem, start, bytes), x) <==> x == start
            + bytes.len()),
{
    let after = overlay(mem, start, bytes);
    if start >= 0 && bytes.len() > 0 {
        assert(after.contains_key(start + bytes.len() - 1));
        if is_end(after, x) {
            assert(after.contains_key(x - 1));
            if x - 1 >= start + bytes.len() {
                assert(mem.contains_key(x - 1));
            }
        }
        if x == start + bytes.len() {
            assert forall|a: int| #[trigger] after.contains_key(a) implies a < x by {
                if !(start <= a < start + bytes.len()) {
                    assert(mem.contains_key(a));
                }
            }
        }
    }
}

} // verus!
