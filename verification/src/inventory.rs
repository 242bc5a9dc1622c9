//! The player's inventory: wildcards, gold, gems and the vault.
use vstd::prelude::*;

use crate::class::{self, MonoFieldInfo, NameCache};
use crate::heap::{self, SLOT};
use crate::memory::{self, MonoReader};
use crate::strings;

verus! {

/// Most wildcards of one rarity that a player can have.
pub const MAX_WILDCARDS: i32 = 99_999;

pub const MAX_GOLD: i32 = 1_000_000_000;

pub const MAX_GEMS: i32 = 10_000_000;

/// Bytes of the largest field, the vault's progress.
pub const FIELD_BYTES: u64 = 8;

/// Where the fields stand in the object of an inventory.
#[derive(Debug, Clone)]
pub struct InventoryFieldOffsets {
    pub wc_common: u64,
    pub wc_uncommon: u64,
    pub wc_rare: u64,
    pub wc_mythic: u64,
    pub gold: u64,
    pub gems: u64,
    pub vault_progress: u64,
}

/// The offset of the field of the given name, or else of the backing field of
/// the property of that name.
pub open spec fn property_offset(
    fields: Seq<class::FieldModel>,
    name: Seq<char>,
    backing: Seq<char>,
) -> Option<u64> {
    match class::field_offset(fields, class::named(name)) {
        Some(off) => Some(off),
        None => class::field_offset(fields, class::named(backing)),
    }
}

/// The offsets of an inventory's fields; `None` where one of them is missing.
pub open spec fn inventory_offsets(fields: Seq<class::FieldModel>) -> Option<
    InventoryFieldOffsets,
> {
    match (
        property_offset(fields, "wcCommon"@, "<wcCommon>k__BackingField"@),
        property_offset(fields, "wcUncommon"@, "<wcUncommon>k__BackingField"@),
        property_offset(fields, "wcRare"@, "<wcRare>k__BackingField"@),
        property_offset(fields, "wcMythic"@, "<wcMythic>k__BackingField"@),
        property_offset(fields, "gold"@, "<gold>k__BackingField"@),
        property_offset(fields, "gems"@, "<gems>k__BackingField"@),
        property_offset(fields, "vaultProgress"@, "<vaultProgress>k__BackingField"@),
    ) {
        (
            Some(wc_common),
            Some(wc_uncommon),
            Some(wc_rare),
            Some(wc_mythic),
            Some(gold),
            Some(gems),
            Some(vault_progress),
        ) => Some(
            InventoryFieldOffsets {
                wc_common,
                wc_uncommon,
                wc_rare,
                wc_mythic,
                gold,
                gems,
                vault_progress,
            },
        ),
        _ => None,
    }
}

/// Finds the offset of a field or of the backing field of a property.
fn find_property(fields: &[MonoFieldInfo], name: &str, backing: &str) -> (res: Option<u64>)
    ensures
        res == property_offset(class::models(fields@), name@, backing@),
{
    match class::find_field(fields, name) {
        Some(off) => Some(off),
        None => class::find_field(fields, backing),
    }
}

/// Resolves where the fields of an inventory stand from a list of its fields.
pub fn resolve_inventory_field_offsets(fields: &[MonoFieldInfo]) -> (res: Option<
    InventoryFieldOffsets,
>)
    ensures
        res == inventory_offsets(class::models(fields@)),
{
    match (
        find_property(fields, "wcCommon", "<wcCommon>k__BackingField"),
        find_property(fields, "wcUncommon", "<wcUncommon>k__BackingField"),
        find_property(fields, "wcRare", "<wcRare>k__BackingField"),
        find_property(fields, "wcMythic", "<wcMythic>k__BackingField"),
        find_property(fields, "gold", "<gold>k__BackingField"),
        find_property(fields, "gems", "<gems>k__BackingField"),
        find_property(fields, "vaultProgress", "<vaultProgress>k__BackingField"),
    ) {
        (
            Some(wc_common),
            Some(wc_uncommon),
            Some(wc_rare),
            Some(wc_mythic),
            Some(gold),
            Some(gems),
            Some(vault_progress),
        ) => Some(
            InventoryFieldOffsets {
                wc_common,
                wc_uncommon,
                wc_rare,
                wc_mythic,
                gold,
                gems,
                vault_progress,
            },
        ),
        _ => None,
    }
}

/// Amounts that an inventory can hold: each in its range, and not all of them 0.
pub open spec fn is_plausible_inventory(
    wc: int,
    wu: int,
    wr: int,
    wm: int,
    g: int,
    ge: int,
) -> bool {
    &&& 0 <= wc <= MAX_WILDCARDS
    &&& 0 <= wu <= MAX_WILDCARDS
    &&& 0 <= wr <= MAX_WILDCARDS
    &&& 0 <= wm <= MAX_WILDCARDS
    &&& 0 <= g <= MAX_GOLD
    &&& 0 <= ge <= MAX_GEMS
    &&& wc + wu + wr + wm + g + ge > 0
}

/// Whether an inventory can hold these amounts.
pub fn inventory_plausible(wc: i32, wu: i32, wr: i32, wm: i32, g: i32, ge: i32) -> (res: bool)
    ensures
        res == is_plausible_inventory(
            wc as int,
            wu as int,
            wr as int,
            wm as int,
            g as int,
            ge as int,
        ),
{
    0 <= wc && wc <= MAX_WILDCARDS && 0 <= wu && wu <= MAX_WILDCARDS && 0 <= wr && wr
        <= MAX_WILDCARDS && 0 <= wm && wm <= MAX_WILDCARDS && 0 <= g && g <= MAX_GOLD && 0 <= ge
        && ge <= MAX_GEMS && (wc != 0 || wu != 0 || wr != 0 || wm != 0 || g != 0 || ge != 0)
}

/// How much an inventory holds.
pub fn inventory_score(wc: i32, wu: i32, wr: i32, wm: i32, g: i32, ge: i32) -> (res: i64)
    ensures
        res == wc + wu + wr + wm + g + ge,
{
    wc as i64 + wu as i64 + wr as i64 + wm as i64 + g as i64 + ge as i64
}

/// The amounts that the object at `a` holds: the wildcards from common to
/// mythic, the gold and the gems.
pub open spec fn amounts(mem: Map<int, u8>, a: int, o: InventoryFieldOffsets) -> (
    int,
    int,
    int,
    int,
    int,
    int,
) {
    (
        memory::i32_at(mem, a + o.wc_common),
        memory::i32_at(mem, a + o.wc_uncommon),
        memory::i32_at(mem, a + o.wc_rare),
        memory::i32_at(mem, a + o.wc_mythic),
        memory::i32_at(mem, a + o.gold),
        memory::i32_at(mem, a + o.gems),
    )
}

/// How much the object at `a` holds.
pub open spec fn score_at(mem: Map<int, u8>, a: int, o: InventoryFieldOffsets) -> int {
    let v = amounts(mem, a, o);
    v.0 + v.1 + v.2 + v.3 + v.4 + v.5
}

/// The object at `a` is an inventory: it holds plausible amounts, and its
/// class, behind its vtable, is that of inventories.
pub open spec fn is_inventory(mem: Map<int, u8>, a: int, o: InventoryFieldOffsets) -> bool {
    let v = amounts(mem, a, o);
    let class = class::class_of(mem, a);
    &&& is_plausible_inventory(v.0, v.1, v.2, v.3, v.4, v.5)
    &&& class::plausible(class)
    &&& class::class_name(mem, class) == "ClientPlayerInventory"@
}

pub open spec fn inventory_wanted(mem: Map<int, u8>, o: InventoryFieldOffsets) -> spec_fn(
    int,
) -> bool {
    |a: int| is_inventory(mem, a, o)
}

/// Of two inventories the one that holds more is the better.
pub open spec fn inventory_better(mem: Map<int, u8>, o: InventoryFieldOffsets) -> spec_fn(
    int,
    int,
) -> bool {
    |a: int, b: int| score_at(mem, a, o) > score_at(mem, b, o)
}

pub open spec fn larger(a: int, b: int) -> int {
    if a < b {
        b
    } else {
        a
    }
}

/// The number of bytes that an inventory's fields take up: up to the farthest
/// field, and room for the largest one there.
pub open spec fn inventory_span(o: InventoryFieldOffsets) -> int {
    larger(
        o.wc_common as int,
        larger(
            o.wc_uncommon as int,
            larger(
                o.wc_rare as int,
                larger(
                    o.wc_mythic as int,
                    larger(o.gold as int, larger(o.gems as int, o.vault_progress as int)),
                ),
            ),
        ),
    ) + FIELD_BYTES
}

/// The address of the inventory: of the first of those in the heap that hold
/// the most.
pub open spec fn inventory_object(
    mem: Map<int, u8>,
    regions: Seq<(u64, u64)>,
    o: InventoryFieldOffsets,
) -> Option<int> {
    heap::best_of(
        heap::heap_hits(mem, regions, inventory_span(o), inventory_wanted(mem, o)),
        inventory_better(mem, o),
    )
}

fn max(a: u64, b: u64) -> (res: u64)
    ensures
        res == larger(a as int, b as int),
{
    if a < b {
        b
    } else {
        a
    }
}

/// The number of bytes that an inventory's fields take up.
fn span_of(o: &InventoryFieldOffsets) -> (res: u64)
    requires
        inventory_span(*o) <= u64::MAX,
    ensures
        res == inventory_span(*o),
{
    let far: u64 = max(
        o.wc_common,
        max(
            o.wc_uncommon,
            max(o.wc_rare, max(o.wc_mythic, max(o.gold, max(o.gems, o.vault_progress)))),
        ),
    );
    far + FIELD_BYTES
}

/// How much the object at position `base` of a region holds, if it is an inventory.
#[verifier::spinoff_prover]
#[verifier::rlimit(30)]
fn inventory_in(
    reader: &MonoReader,
    buf: &Vec<u8>,
    base: usize,
    o: &InventoryFieldOffsets,
    names: &mut NameCache,
    Ghost(start): Ghost<int>,
) -> (res: Option<i64>)
    requires
        base + inventory_span(*o) <= buf.len(),
        memory::mapped(reader@, start, buf@.len() as int),
        buf@ == memory::bytes_at(reader@, start, buf@.len() as int),
        old(names).agrees(reader@),
    ensures
        final(names).agrees(reader@),
        match res {
            Some(score) => is_inventory(reader@, start + base, *o) && score == score_at(
                reader@,
                start + base,
                *o,
            ),
            None => !is_inventory(reader@, start + base, *o),
        },
{
    proof {
        let n = buf@.len() as int;
        memory::lemma_numbers_in(reader@, start, n, base as int);
        memory::lemma_numbers_in(reader@, start, n, base + o.wc_common);
        memory::lemma_numbers_in(reader@, start, n, base + o.wc_uncommon);
        memory::lemma_numbers_in(reader@, start, n, base + o.wc_rare);
        memory::lemma_numbers_in(reader@, start, n, base + o.wc_mythic);
        memory::lemma_numbers_in(reader@, start, n, base + o.gold);
        memory::lemma_numbers_in(reader@, start, n, base + o.gems);
    }
    let vtable: u64 = memory::u64_in(buf, base);
    if !class::is_plausible(vtable) {
        return None;
    }
    let wc: i32 = memory::i32_in(buf, base + o.wc_common as usize);
    let wu: i32 = memory::i32_in(buf, base + o.wc_uncommon as usize);
    let wr: i32 = memory::i32_in(buf, base + o.wc_rare as usize);
    let wm: i32 = memory::i32_in(buf, base + o.wc_mythic as usize);
    let g: i32 = memory::i32_in(buf, base + o.gold as usize);
    let ge: i32 = memory::i32_in(buf, base + o.gems as usize);
    if !inventory_plausible(wc, wu, wr, wm, g, ge) {
        return None;
    }
    let class: u64 = reader.read_ptr(vtable);
    if !class::is_plausible(class) {
        return None;
    }
    let name: String = names.name_of(reader, class);
    if strings::same_text(name.as_str(), "ClientPlayerInventory") {
        Some(inventory_score(wc, wu, wr, wm, g, ge))
    } else {
        None
    }
}

/// Scans the heap for the inventory, recognised by its amounts and its class.
/// The answer is its address.
pub fn scan_heap_for_client_player_inventory(
    reader: &MonoReader,
    heap_regions: &Vec<(u64, u64)>,
    offsets: &InventoryFieldOffsets,
) -> (res: Option<u64>)
    requires
        heap::regions_ok(heap_regions@),
        inventory_span(*offsets) <= u64::MAX,
    ensures
        match res {
            Some(inst) => inventory_object(reader@, heap_regions@, *offsets) == Some(inst as int),
            None => inventory_object(reader@, heap_regions@, *offsets) is None,
        },
{
    let ghost mem = reader@;
    let ghost wanted = inventory_wanted(mem, *offsets);
    let ghost better = inventory_better(mem, *offsets);
    let span: u64 = span_of(offsets);
    let mut names: NameCache = NameCache::new(Ghost(mem));
    let mut best: Option<(u64, i64)> = None;
    let mut r: usize = 0;
    while r < heap_regions.len()
        invariant
            r <= heap_regions.len(),
            heap::regions_ok(heap_regions@),
            mem == reader@,
            span == inventory_span(*offsets),
            wanted == inventory_wanted(mem, *offsets),
            better == inventory_better(mem, *offsets),
            names.agrees(mem),
            heap::best_of(
                heap::heap_hits(mem, heap_regions@.take(r as int), span as int, wanted),
                better,
            ) == (match best {
                Some((inst, _)) => Some(inst as int),
                None => None,
            }),
            best matches Some((inst, score)) ==> score == score_at(mem, inst as int, *offsets),
        decreases heap_regions.len() - r,
    {
        let region: (u64, u64) = heap_regions[r];
        let start: u64 = region.0;
        let ghost seen = heap::heap_hits(
            mem,
            heap_regions@.take(r as int),
            span as int,
            wanted,
        );
        proof {
            heap::lemma_next_region(mem, heap_regions@, span as int, wanted, r as int);
        }
        match heap::region_bytes(reader, region) {
            None => {
                assert(seen + Seq::<int>::empty() =~= seen);
            },
            Some(buf) => {
                let len: usize = buf.len();
                let mut base: usize = 0;
                let ghost mut i: int = 0;
                assert(seen + Seq::<int>::empty() =~= seen);
                while span <= len as u64 && base as u64 <= len as u64 - span
                    invariant
                        0 <= i <= heap::slot_count(len as int, span as int),
                        base == SLOT * i,
                        len == buf.len(),
                        len == region.1 - start,
                        memory::mapped(mem, start as int, len as int),
                        buf@ == memory::bytes_at(mem, start as int, len as int),
                        mem == reader@,
                        span == inventory_span(*offsets),
                        wanted == inventory_wanted(mem, *offsets),
                        better == inventory_better(mem, *offsets),
                        names.agrees(mem),
                        heap::best_of(
                            seen + heap::slot_hits(wanted, start as int, i),
                            better,
                        ) == (match best {
                            Some((inst, _)) => Some(inst as int),
                            None => None,
                        }),
                        best matches Some((inst, score)) ==> score == score_at(
                            mem,
                            inst as int,
                            *offsets,
                        ),
                    decreases len + SLOT - base,
                {
                    proof {
                        heap::lemma_next_slot(seen, wanted, better, start as int, i);
                    }
                    let found: Option<i64> = inventory_in(
                        reader,
                        &buf,
                        base,
                        offsets,
                        &mut names,
                        Ghost(start as int),
                    );
                    if let Some(score) = found {
                        let better_one: bool = match best {
                            Some((_, most)) => score > most,
                            None => true,
                        };
                        if better_one {
                            best = Some((start + base as u64, score));
                        }
                    }
                    base = base + SLOT;
                    proof {
                        i = i + 1;
                    }
                }
                assert(i == heap::slot_count(len as int, span as int));
            },
        }
        r = r + 1;
    }
    assert(heap_regions@.take(heap_regions@.len() as int) =~= heap_regions@);
    match best {
        Some((inst, _)) => Some(inst),
        None => None,
    }
}

/// Where the fields of an inventory stand.
pub open spec fn known_inventory_offsets() -> InventoryFieldOffsets {
    InventoryFieldOffsets {
        wc_common: 0x10,
        wc_uncommon: 0x14,
        wc_rare: 0x18,
        wc_mythic: 0x1c,
        gold: 0x20,
        gems: 0x24,
        vault_progress: 0x30,
    }
}

pub const INVENTORY_NOT_FOUND: &'static str = "ClientPlayerInventory not found in Mono heap. Either the player is not logged in or the field offsets have drifted.";

/// The outcome of reading the inventory: its amounts and the bits of the
/// vault's progress, or why there is none.
pub open spec fn inventory_outcome(mem: Map<int, u8>, regions: Seq<(u64, u64)>) -> Result<
    ((int, int, int, int, int, int), int),
    Seq<char>,
> {
    let o = known_inventory_offsets();
    match inventory_object(mem, regions, o) {
        Some(inst) => Ok(
            (amounts(mem, inst, o), memory::ptr_at(mem, inst + o.vault_progress)),
        ),
        None => Err(INVENTORY_NOT_FOUND@),
    }
}

/// Reads the inventory: the wildcards from common to mythic, the gold, the
/// gems, and the 64 bits of the floating-point number that is the vault's progress.
pub fn read_mtga_inventory_mono(reader: &MonoReader, heap_regions: &Vec<(u64, u64)>) -> (res:
    Result<(i32, i32, i32, i32, i32, i32, u64), String>)
    requires
        heap::regions_ok(heap_regions@),
    ensures
        match res {
            Ok(v) => inventory_outcome(reader@, heap_regions@) == Ok::<
                ((int, int, int, int, int, int), int),
                Seq<char>,
            >(
                (
                    (v.0 as int, v.1 as int, v.2 as int, v.3 as int, v.4 as int, v.5 as int),
                    v.6 as int,
                ),
            ),
            Err(message) => inventory_outcome(reader@, heap_regions@) == Err::<
                ((int, int, int, int, int, int), int),
                Seq<char>,
            >(message@),
        },
{
    let offsets: InventoryFieldOffsets = InventoryFieldOffsets {
        wc_common: 0x10,
        wc_uncommon: 0x14,
        wc_rare: 0x18,
        wc_mythic: 0x1c,
        gold: 0x20,
        gems: 0x24,
        vault_progress: 0x30,
    };
    let inst: u64 = match scan_heap_for_client_player_inventory(reader, heap_regions, &offsets) {
        Some(inst) => inst,
        None => {
            return Err(INVENTORY_NOT_FOUND.to_owned());
        },
    };
    proof {
        lemma_inventory_in_heap(reader@, heap_regions@, offsets);
    }
    Ok(
        (
            reader.read_i32(inst + offsets.wc_common),
            reader.read_i32(inst + offsets.wc_uncommon),
            reader.read_i32(inst + offsets.wc_rare),
            reader.read_i32(inst + offsets.wc_mythic),
            reader.read_i32(inst + offsets.gold),
            reader.read_i32(inst + offsets.gems),
            reader.read_ptr(inst + offsets.vault_progress),
        ),
    )
}

/// The inventory that the scan finds is one, and its fields are in the image.
proof fn lemma_inventory_in_heap(
    mem: Map<int, u8>,
    regions: Seq<(u64, u64)>,
    o: InventoryFieldOffsets,
)
    ensures
        inventory_object(mem, regions, o) matches Some(inst) ==> {
            &&& is_inventory(mem, inst, o)
            &&& inst + inventory_span(o) <= u64::MAX
            &&& memory::mapped(mem, inst, inventory_span(o))
        },
{
    let hits = heap::heap_hits(mem, regions, inventory_span(o), inventory_wanted(mem, o));
    heap::lemma_best_is_hit(hits, inventory_better(mem, o));
    match inventory_object(mem, regions, o) {
        Some(inst) => {
            let k = hits.index_of(inst);
            heap::law_hits_are_wanted(
                mem,
                regions,
                inventory_span(o),
                inventory_wanted(mem, o),
                k,
            );
            assert(inventory_wanted(mem, o)(inst));
        },
        None => {},
    }
}

/// What is read is an inventory's: the amounts are plausible, the object is of
/// the class of inventories, and all its fields are in the image.
pub proof fn law_found_inventory_is_plausible(
    mem: Map<int, u8>,
    regions: Seq<(u64, u64)>,
)
    ensures
        match inventory_outcome(mem, regions) {
            Ok((v, _)) => {
                &&& is_plausible_inventory(v.0, v.1, v.2, v.3, v.4, v.5)
                &&& exists|inst: int| #[trigger]
                    is_inventory(mem, inst, known_inventory_offsets()) && amounts(
                        mem,
                        inst,
                        known_inventory_offsets(),
                    ) == v && memory::mapped(
                        mem,
                        inst,
                        inventory_span(known_inventory_offsets()),
                    )
            },
            Err(_) => inventory_object(mem, regions, known_inventory_offsets()) is None,
        },
{
    lemma_inventory_in_heap(mem, regions, known_inventory_offsets());
}

/// The inventory is the first of those that hold the most.
pub proof fn law_inventory_is_first_largest(
    mem: Map<int, u8>,
    regions: Seq<(u64, u64)>,
    o: InventoryFieldOffsets,
)
    ensures
        ({
            let hits = heap::heap_hits(
                mem,
                regions,
                inventory_span(o),
                inventory_wanted(mem, o),
            );
            match inventory_object(mem, regions, o) {
                None => hits.len() == 0,
                Some(inst) => exists|k: int|
                    #![trigger hits[k]]
                    {
                        &&& 0 <= k < hits.len()
                        &&& hits[k] == inst
                        &&& forall|j: int|
                            0 <= j < k ==> score_at(mem, #[trigger] hits[j], o) < score_at(
                                mem,
                                inst,
                                o,
                            )
                        &&& forall|j: int|
                            k < j < hits.len() ==> score_at(mem, #[trigger] hits[j], o) <= score_at(
                                mem,
                                inst,
                                o,
                            )
                    },
            }
        }),
{
    let hits = heap::heap_hits(mem, regions, inventory_span(o), inventory_wanted(mem, o));
    let better = inventory_better(mem, o);
    heap::law_best_is_first_best(hits, better);
    match inventory_object(mem, regions, o) {
        None => {},
        Some(inst) => {
            let k = choose|k: int| heap::is_first_best(hits, better, k) && hits[k] == inst;
            assert(hits[k] == inst);
            assert forall|j: int| 0 <= j < k implies score_at(mem, #[trigger] hits[j], o)
                < score_at(mem, inst, o) by {
                assert(better(hits[k], hits[j]));
            }
            assert forall|j: int| k < j < hits.len() implies score_at(mem, #[trigger] hits[j], o)
                <= score_at(mem, inst, o) by {
                assert(!better(hits[j], hits[k]));
            }
        },
    }
}

/// The scan finds an inventory wherever there is one, and none that it passes
/// over holds more than what it finds.
pub proof fn law_scan_finds_inventory(
    mem: Map<int, u8>,
    regions: Seq<(u64, u64)>,
    o: InventoryFieldOffsets,
    r: int,
    i: int,
)
    requires
        heap::is_slot(mem, regions, inventory_span(o), r, i),
        is_inventory(mem, regions[r].0 + SLOT * i, o),
    ensures
        inventory_object(mem, regions, o) matches Some(inst) && score_at(mem, inst, o) >= score_at(
            mem,
            regions[r].0 + SLOT * i,
            o,
        ),
{
    let a = regions[r].0 + SLOT * i;
    let span = inventory_span(o);
    let hits = heap::heap_hits(mem, regions, span, inventory_wanted(mem, o));
    assert(inventory_wanted(mem, o)(a));
    heap::law_wanted_slot_is_hit(mem, regions, span, inventory_wanted(mem, o), r, i);
    heap::law_no_hit_is_better(hits, inventory_better(mem, o), a);
}

/// An inventory that the object at `a` can be: an object of the class of
/// inventories with up to 99999 wildcards of each rarity, up to 1000000000 gold
/// and up to 10000000 gems, and something of it.
pub open spec fn reads_like_inventory(
    mem: Map<int, u8>,
    a: int,
    o: InventoryFieldOffsets,
) -> bool {
    &&& 0 <= memory::i32_at(mem, a + o.wc_common) <= 99_999
    &&& 0 <= memory::i32_at(mem, a + o.wc_uncommon) <= 99_999
    &&& 0 <= memory::i32_at(mem, a + o.wc_rare) <= 99_999
    &&& 0 <= memory::i32_at(mem, a + o.wc_mythic) <= 99_999
    &&& 0 <= memory::i32_at(mem, a + o.gold) <= 1_000_000_000
    &&& 0 <= memory::i32_at(mem, a + o.gems) <= 10_000_000
    &&& worth(mem, a, o) != 0
    &&& 0x1_0000 <= class::class_of(mem, a) <= 0x7FFF_FFFF_FFFF
    &&& class::class_name(mem, class::class_of(mem, a)) == "ClientPlayerInventory"@
}

/// All that the object at `a` holds, taken together.
pub open spec fn worth(mem: Map<int, u8>, a: int, o: InventoryFieldOffsets) -> int {
    memory::i32_at(mem, a + o.wc_common) + memory::i32_at(mem, a + o.wc_uncommon) + memory::i32_at(
        mem,
        a + o.wc_rare,
    ) + memory::i32_at(mem, a + o.wc_mythic) + memory::i32_at(mem, a + o.gold) + memory::i32_at(
        mem,
        a + o.gems,
    )
}

/// `span` bytes are just enough for all fields, if each has 8.
pub open spec fn is_span(o: InventoryFieldOffsets, span: int) -> bool {
    let offs = seq![
        o.wc_common,
        o.wc_uncommon,
        o.wc_rare,
        o.wc_mythic,
        o.gold,
        o.gems,
        o.vault_progress,
    ];
    &&& forall|k: int| 0 <= k < 7 ==> #[trigger] offs[k] + 8 <= span
    &&& exists|k: int| 0 <= k < 7 && #[trigger] offs[k] + 8 == span
}

/// The scan finds the first of the richest inventories, among all places of the
/// heap that are 8 bytes apart and have room for the fields; it finds none only
/// where there is none.
pub proof fn law_scan_finds_first_richest_inventory(
    mem: Map<int, u8>,
    regions: Seq<(u64, u64)>,
    o: InventoryFieldOffsets,
    span: int,
)
    requires
        is_span(o, span),
    ensures
        match inventory_object(mem, regions, o) {
            None => forall|r: int, i: int, a: int| #[trigger]
                heap::is_place(mem, regions, span, r, i, a) ==> !reads_like_inventory(mem, a, o),
            Some(inst) => reads_like_inventory(mem, inst, o) && exists|r: int, i: int| #[trigger]
                heap::is_place(mem, regions, span, r, i, inst) && forall|
                    q: int,
                    j: int,
                    b: int,
                | #[trigger]
                    heap::is_place(mem, regions, span, q, j, b) && reads_like_inventory(mem, b, o)
                        ==> if heap::comes_before(q, j, r, i) {
                        worth(mem, b, o) < worth(mem, inst, o)
                    } else {
                        worth(mem, b, o) <= worth(mem, inst, o)
                    },
        },
{
    let wanted = inventory_wanted(mem, o);
    let better = inventory_better(mem, o);
    lemma_span(o, span);
    heap::law_scan_keeps_first_best_place(mem, regions, span, wanted, better);
    assert forall|a: int| wanted(a) == #[trigger] reads_like_inventory(mem, a, o) by {}
    match inventory_object(mem, regions, o) {
        None => {},
        Some(inst) => {
            let (r, i) = choose|r: int, i: int| #[trigger]
                heap::is_first_best_place(mem, regions, span, wanted, better, r, i, inst);
            assert(heap::is_place(mem, regions, span, r, i, inst));
            assert forall|q: int, j: int, b: int| #[trigger]
                heap::is_place(mem, regions, span, q, j, b) && reads_like_inventory(
                    mem,
                    b,
                    o,
                ) implies if heap::comes_before(q, j, r, i) {
                worth(mem, b, o) < worth(mem, inst, o)
            } else {
                worth(mem, b, o) <= worth(mem, inst, o)
            } by {
                assert(wanted(b));
            }
        },
    }
}

proof fn lemma_span(o: InventoryFieldOffsets, span: int)
    requires
        is_span(o, span),
    ensures
        inventory_span(o) == span,
{
    let offs = seq![
        o.wc_common,
        o.wc_uncommon,
        o.wc_rare,
        o.wc_mythic,
        o.gold,
        o.gems,
        o.vault_progress,
    ];
    assert(offs[0] == o.wc_common && offs[1] == o.wc_uncommon && offs[2] == o.wc_rare && offs[3]
        == o.wc_mythic && offs[4] == o.gold && offs[5] == o.gems && offs[6] == o.vault_progress);
    let k = choose|k: int| 0 <= k < 7 && #[trigger] offs[k] + 8 == span;
    assert(k == 0 || k == 1 || k == 2 || k == 3 || k == 4 || k == 5 || k == 6);
}

/// Reading the inventory gives each amount from its own place in the object that
/// the scan finds: the common, uncommon, rare and mythic wildcards, the gold and
/// the gems as 32-bit numbers 0x10, 0x14, 0x18, 0x1c, 0x20 and 0x24 bytes behind
/// the object's start, and the vault's progress as the 64 bits 0x30 bytes behind
/// it.
pub proof fn law_amounts_are_what_is_there(
    mem: Map<int, u8>,
    regions: Seq<(u64, u64)>,
    v: (i32, i32, i32, i32, i32, i32, u64),
)
    requires
        inventory_outcome(mem, regions) == Ok::<((int, int, int, int, int, int), int), Seq<char>>(
            (
                (v.0 as int, v.1 as int, v.2 as int, v.3 as int, v.4 as int, v.5 as int),
                v.6 as int,
            ),
        ),
    ensures
        ({
            let o = InventoryFieldOffsets {
                wc_common: 0x10,
                wc_uncommon: 0x14,
                wc_rare: 0x18,
                wc_mythic: 0x1c,
                gold: 0x20,
                gems: 0x24,
                vault_progress: 0x30,
            };
            inventory_object(mem, regions, o) matches Some(inst) && {
                &&& v.0 == memory::i32_at(mem, inst + 0x10)
                &&& v.1 == memory::i32_at(mem, inst + 0x14)
                &&& v.2 == memory::i32_at(mem, inst + 0x18)
                &&& v.3 == memory::i32_at(mem, inst + 0x1c)
                &&& v.4 == memory::i32_at(mem, inst + 0x20)
                &&& v.5 == memory::i32_at(mem, inst + 0x24)
                &&& v.6 == memory::ptr_at(mem, inst + 0x30)
            }
        }),
{
}

/// Reading the inventory fails exactly where the scan finds none.
pub proof fn law_inventory_error(mem: Map<int, u8>, regions: Seq<(u64, u64)>)
    ensures
        ({
            let o = InventoryFieldOffsets {
                wc_common: 0x10,
                wc_uncommon: 0x14,
                wc_rare: 0x18,
                wc_mythic: 0x1c,
                gold: 0x20,
                gems: 0x24,
                vault_progress: 0x30,
            };
            match inventory_outcome(mem, regions) {
                Ok(_) => inventory_object(mem, regions, o) is Some,
                Err(message) => inventory_object(mem, regions, o) is None && message
                    == "ClientPlayerInventory not found in Mono heap. Either the player is not logged in or the field offsets have drifted."@,
            }
        }),
{
}

/// The field of that name stands at `off`; where there is none, the backing
/// field of the property of that name does.
pub open spec fn property_stands_at(
    fields: Seq<MonoFieldInfo>,
    name: Seq<char>,
    backing: Seq<char>,
    off: u64,
) -> bool {
    class::stands_at(fields, name, off) || (class::is_missing(fields, name) && class::stands_at(
        fields,
        backing,
        off,
    ))
}

/// The offsets of an inventory's fields are found by the names of the fields,
/// or else by those of their backing fields; without one of them there are none.
pub proof fn law_inventory_offsets_are_found_by_name(fields: Seq<MonoFieldInfo>)
    ensures
        match inventory_offsets(class::models(fields)) {
            Some(o) => {
                &&& property_stands_at(
                    fields,
                    "wcCommon"@,
                    "<wcCommon>k__BackingField"@,
                    o.wc_common,
                )
                &&& property_stands_at(
                    fields,
                    "wcUncommon"@,
                    "<wcUncommon>k__BackingField"@,
                    o.wc_uncommon,
                )
                &&& property_stands_at(fields, "wcRare"@, "<wcRare>k__BackingField"@, o.wc_rare)
                &&& property_stands_at(
                    fields,
                    "wcMythic"@,
                    "<wcMythic>k__BackingField"@,
                    o.wc_mythic,
                )
                &&& property_stands_at(fields, "gold"@, "<gold>k__BackingField"@, o.gold)
                &&& property_stands_at(fields, "gems"@, "<gems>k__BackingField"@, o.gems)
                &&& property_stands_at(
                    fields,
                    "vaultProgress"@,
                    "<vaultProgress>k__BackingField"@,
                    o.vault_progress,
                )
            },
            None => {
                ||| lacks_property(fields, "wcCommon"@, "<wcCommon>k__BackingField"@)
                ||| lacks_property(fields, "wcUncommon"@, "<wcUncommon>k__BackingField"@)
                ||| lacks_property(fields, "wcRare"@, "<wcRare>k__BackingField"@)
                ||| lacks_property(fields, "wcMythic"@, "<wcMythic>k__BackingField"@)
                ||| lacks_property(fields, "gold"@, "<gold>k__BackingField"@)
                ||| lacks_property(fields, "gems"@, "<gems>k__BackingField"@)
                ||| lacks_property(fields, "vaultProgress"@, "<vaultProgress>k__BackingField"@)
            },
        },
{
    lemma_property(fields, "wcCommon"@, "<wcCommon>k__BackingField"@);
    lemma_property(fields, "wcUncommon"@, "<wcUncommon>k__BackingField"@);
    lemma_property(fields, "wcRare"@, "<wcRare>k__BackingField"@);
    lemma_property(fields, "wcMythic"@, "<wcMythic>k__BackingField"@);
    lemma_property(fields, "gold"@, "<gold>k__BackingField"@);
    lemma_property(fields, "gems"@, "<gems>k__BackingField"@);
    lemma_property(fields, "vaultProgress"@, "<vaultProgress>k__BackingField"@);
}

/// There is neither a field of that name nor a backing field of that property.
pub open spec fn lacks_property(
    fields: Seq<MonoFieldInfo>,
    name: Seq<char>,
    backing: Seq<char>,
) -> bool {
    class::is_missing(fields, name) && class::is_missing(fields, backing)
}

proof fn lemma_property(fields: Seq<MonoFieldInfo>, name: Seq<char>, backing: Seq<char>)
    ensures
        match property_offset(class::models(fields), name, backing) {
            Some(off) => property_stands_at(fields, name, backing, off),
            None => lacks_property(fields, name, backing),
        },
{
    class::law_field_is_found_by_name(fields, name);
    class::law_field_is_found_by_name(fields, backing);
}

} // verus!
