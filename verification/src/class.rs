//! Runtime metadata: classes, their names and their fields.
use std::collections::HashMap;
use vstd::prelude::*;
use vstd::utf8::encode_utf8;

use crate::memory::{self, MonoReader};
use crate::strings;

verus! {

/// Lowest address that a pointer of the process can hold: the allocation
/// granularity.
pub const MIN_PTR: u64 = 0x10000;

/// Highest address that a pointer of the process can hold: the end of user space.
pub const MAX_PTR: u64 = 0x7FFF_FFFF_FFFF;

/// Offset of the pointer to a class's name.
pub const CLASS_NAME: u64 = 0x48;

/// Offset of a class's field array, or of a pointer to it.
pub const CLASS_FIELDS: u64 = 0x98;

/// Offset of the number of a class's fields.
pub const CLASS_FIELD_COUNT: u64 = 0xE0;

/// Bytes from one entry of the field array to the next.
pub const FIELD_STRIDE: u64 = 0x20;

/// Offset of the pointer to a field's name in its entry.
pub const FIELD_NAME: u64 = 0x08;

/// Offset of a field's offset in its entry.
pub const FIELD_OFFSET: u64 = 0x18;

/// Offset of the attributes in a field's type.
pub const TYPE_ATTRS: u64 = 0x08;

/// A class with more fields than this is taken for garbage.
pub const MAX_FIELDS: i32 = 60;

/// A field name of more UTF-8 bytes than this is taken for garbage.
pub const MAX_FIELD_NAME: usize = 128;

/// `p` can be a pointer of the process.
pub open spec fn plausible(p: int) -> bool {
    MIN_PTR <= p <= MAX_PTR
}

/// The name of the class at `class_ptr`; empty where none can be read.
pub open spec fn class_name(mem: Map<int, u8>, class_ptr: int) -> Seq<char> {
    let name_ptr = memory::ptr_at(mem, class_ptr + CLASS_NAME);
    if plausible(class_ptr) && plausible(name_ptr) {
        strings::name_at(mem, name_ptr)
    } else {
        Seq::empty()
    }
}

/// The class of the object at `obj`, which stands behind its vtable; 0 where
/// the vtable pointer is not plausible.
pub open spec fn class_of(mem: Map<int, u8>, obj: int) -> int {
    let vtable = memory::ptr_at(mem, obj);
    if plausible(vtable) {
        memory::ptr_at(mem, vtable)
    } else {
        0
    }
}

/// What is known of a field.
pub struct FieldModel {
    pub name: Seq<char>,
    pub offset: int,
    pub is_static: bool,
}

/// A field of a class, as its metadata describes it.
#[derive(Debug, Clone)]
pub struct MonoFieldInfo {
    pub name: String,
    pub offset: i32,
    pub is_static: bool,
}

impl View for MonoFieldInfo {
    type V = FieldModel;

    open spec fn view(&self) -> FieldModel {
        FieldModel { name: self.name@, offset: self.offset as int, is_static: self.is_static }
    }
}

/// The models of a list of fields.
pub open spec fn models(fields: Seq<MonoFieldInfo>) -> Seq<FieldModel> {
    Seq::new(fields.len(), |i: int| fields[i]@)
}

/// The attributes of the type at `type_ptr` mark a static field. A type that
/// cannot be a pointer is that of an instance field.
pub open spec fn is_static_type(mem: Map<int, u8>, type_ptr: int) -> bool {
    plausible(type_ptr) && memory::u32_at(mem, type_ptr + TYPE_ATTRS) / 0x10 % 2 == 1
}

/// The field that the entry at `entry` describes; `None` where its name cannot
/// be a name.
pub open spec fn field_at(mem: Map<int, u8>, entry: int) -> Option<FieldModel> {
    let name_ptr = memory::ptr_at(mem, memory::wrap(entry + FIELD_NAME));
    let name = strings::name_at(mem, name_ptr);
    if plausible(name_ptr) && name.len() > 0 && encode_utf8(name).len() <= MAX_FIELD_NAME {
        Some(
            FieldModel {
                name,
                offset: memory::i32_at(mem, memory::wrap(entry + FIELD_OFFSET)),
                is_static: is_static_type(mem, memory::ptr_at(mem, entry)),
            },
        )
    } else {
        None
    }
}

/// The fields that entries `i` to `n` of the array at `base` describe, up to
/// the first entry that describes none.
pub open spec fn fields_from(mem: Map<int, u8>, base: int, i: int, n: int) -> Seq<FieldModel>
    decreases n - i,
{
    if i >= n {
        Seq::empty()
    } else {
        match field_at(mem, memory::wrap(base + i * FIELD_STRIDE)) {
            Some(field) => seq![field] + fields_from(mem, base, i + 1, n),
            None => Seq::empty(),
        }
    }
}

/// Where the field array of the class at `class_ptr` starts: where the class
/// points to, or, where that is no plausible pointer, inside the class.
pub open spec fn fields_base(mem: Map<int, u8>, class_ptr: int) -> int {
    let inline = memory::wrap(class_ptr + CLASS_FIELDS);
    let pointed = memory::ptr_at(mem, inline);
    if plausible(pointed) {
        pointed
    } else {
        inline
    }
}

/// The fields of the class at `class_ptr`.
pub open spec fn class_fields(mem: Map<int, u8>, class_ptr: int) -> Seq<FieldModel> {
    let count = memory::i32_at(mem, memory::wrap(class_ptr + CLASS_FIELD_COUNT));
    if 0 < count <= MAX_FIELDS {
        fields_from(mem, fields_base(mem, class_ptr), 0, count)
    } else {
        Seq::empty()
    }
}

/// Whether `p` can be a pointer of the process.
pub fn is_plausible(p: u64) -> (res: bool)
    ensures
        res == plausible(p as int),
{
    p >= MIN_PTR && p <= MAX_PTR
}

/// Reads the name of the class at `class_ptr`.
pub fn read_mono_class_name(reader: &MonoReader, class_ptr: u64) -> (res: String)
    ensures
        res@ == class_name(reader@, class_ptr as int),
{
    if !is_plausible(class_ptr) {
        return String::new();
    }
    let name_ptr: u64 = reader.read_ptr(class_ptr + CLASS_NAME);
    if !is_plausible(name_ptr) {
        return String::new();
    }
    reader.read_ascii_string(name_ptr)
}

/// Resolves the class of the object at `obj` through its vtable.
pub fn obj_to_mono_class(reader: &MonoReader, obj: u64) -> (res: u64)
    ensures
        res == class_of(reader@, obj as int),
{
    let vtable: u64 = reader.read_ptr(obj);
    if !is_plausible(vtable) {
        return 0;
    }
    reader.read_ptr(vtable)
}

/// Reads the field that the entry at `entry` describes.
fn read_field(reader: &MonoReader, entry: u64) -> (res: Option<MonoFieldInfo>)
    ensures
        match res {
            Some(field) => field_at(reader@, entry as int) == Some(field@),
            None => field_at(reader@, entry as int) is None,
        },
{
    let name_ptr: u64 = reader.read_ptr(memory::offset(entry, FIELD_NAME));
    if !is_plausible(name_ptr) {
        return None;
    }
    let name: String = reader.read_ascii_string(name_ptr);
    if name.as_str().is_empty() || name.as_str().as_bytes().len() > MAX_FIELD_NAME {
        return None;
    }
    let offset: i32 = reader.read_i32(memory::offset(entry, FIELD_OFFSET));
    let type_ptr: u64 = reader.read_ptr(entry);
    let is_static: bool = if is_plausible(type_ptr) {
        let attrs: u32 = reader.read_u32(type_ptr + TYPE_ATTRS);
        assert(((attrs & 0x10) != 0) == (attrs / 0x10 % 2 == 1)) by (bit_vector);
        (attrs & 0x10) != 0
    } else {
        false
    };
    Some(MonoFieldInfo { name, offset, is_static })
}

/// Lists the fields of the class at `class_ptr`, static ones included, up to
/// the first one without a proper name.
pub fn mono_get_class_fields(reader: &MonoReader, class_ptr: u64) -> (res: Vec<MonoFieldInfo>)
    ensures
        models(res@) == class_fields(reader@, class_ptr as int),
{
    let mut result: Vec<MonoFieldInfo> = Vec::new();
    let count: i32 = reader.read_i32(memory::offset(class_ptr, CLASS_FIELD_COUNT));
    if count <= 0 || count > MAX_FIELDS {
        assert(models(result@) =~= class_fields(reader@, class_ptr as int));
        return result;
    }
    let inline: u64 = memory::offset(class_ptr, CLASS_FIELDS);
    let pointed: u64 = reader.read_ptr(inline);
    let base: u64 = if is_plausible(pointed) {
        pointed
    } else {
        inline
    };
    let n: u64 = count as u64;
    let mut i: u64 = 0;
    assert(models(result@) + fields_from(reader@, base as int, 0, n as int) =~= fields_from(
        reader@,
        base as int,
        0,
        n as int,
    ));
    while i < n
        invariant
            i <= n <= MAX_FIELDS,
            models(result@) + fields_from(reader@, base as int, i as int, n as int) == fields_from(
                reader@,
                base as int,
                0,
                n as int,
            ),
            class_fields(reader@, class_ptr as int) == fields_from(
                reader@,
                base as int,
                0,
                n as int,
            ),
        decreases n - i,
    {
        let entry: u64 = memory::offset(base, i * FIELD_STRIDE);
        let ghost before = models(result@);
        match read_field(reader, entry) {
            None => {
                assert(before + Seq::<FieldModel>::empty() =~= before);
                return result;
            },
            Some(field) => {
                let ghost rest = fields_from(reader@, base as int, i + 1, n as int);
                let ghost model = field@;
                result.push(field);
                assert(models(result@) =~= before.push(model));
                assert(models(result@) + rest =~= before + (seq![model] + rest));
            },
        }
        i = i + 1;
    }
    assert(models(result@) + Seq::<FieldModel>::empty() =~= models(result@));
    result
}

/// The names of the classes met so far, so that each is read once.
pub(crate) struct NameCache {
    names: HashMap<u64, String>,
}

impl NameCache {
    /// Every name in the cache is that of its class.
    pub(crate) closed spec fn agrees(&self, mem: Map<int, u8>) -> bool {
        forall|c: u64| #[trigger]
            self.names@.contains_key(c) ==> self.names@[c]@ == class_name(mem, c as int)
    }

    pub(crate) fn new(Ghost(mem): Ghost<Map<int, u8>>) -> (res: NameCache)
        ensures
            res.agrees(mem),
    {
        NameCache { names: HashMap::new() }
    }

    /// The name of a class, read only the first time.
    pub(crate) fn name_of(&mut self, reader: &MonoReader, class_ptr: u64) -> (res: String)
        requires
            old(self).agrees(reader@),
        ensures
            final(self).agrees(reader@),
            res@ == class_name(reader@, class_ptr as int),
    {
        broadcast use vstd::std_specs::hash::group_hash_axioms;

        match self.names.get(&class_ptr) {
            Some(name) => {
                return name.clone();
            },
            None => {},
        }
        let name: String = read_mono_class_name(reader, class_ptr);
        self.names.insert(class_ptr, name.clone());
        name
    }
}

/// The offset of the first instance field whose name is wanted, as a machine
/// word: a negative offset counts down from the end of the address space.
pub open spec fn field_offset(
    fields: Seq<FieldModel>,
    wanted: spec_fn(Seq<char>) -> bool,
) -> Option<u64>
    decreases fields.len(),
{
    if fields.len() == 0 {
        None
    } else if !fields[0].is_static && wanted(fields[0].name) {
        Some(memory::wrap(fields[0].offset) as u64)
    } else {
        field_offset(fields.skip(1), wanted)
    }
}

pub open spec fn named(name: Seq<char>) -> spec_fn(Seq<char>) -> bool {
    |n: Seq<char>| n == name
}

/// An offset as a machine word.
pub(crate) fn word_of(off: i32) -> (res: u64)
    ensures
        res == memory::wrap(off as int),
{
    if off >= 0 {
        off as u64
    } else {
        u64::MAX - ((-(off as i64)) as u64) + 1
    }
}

/// Finds the offset of the first instance field of the given name.
pub fn find_field(fields: &[MonoFieldInfo], name: &str) -> (res: Option<u64>)
    ensures
        res == field_offset(models(fields@), named(name@)),
{
    let ghost all = models(fields@);
    let mut i: usize = 0;
    assert(all.skip(0) =~= all);
    while i < fields.len()
        invariant
            i <= fields.len(),
            all == models(fields@),
            field_offset(all.skip(i as int), named(name@)) == field_offset(all, named(name@)),
        decreases fields.len() - i,
    {
        let ghost rest = all.skip(i as int);
        assert(rest[0] == fields@[i as int]@);
        if !fields[i].is_static && strings::same_text(fields[i].name.as_str(), name) {
            return Some(word_of(fields[i].offset));
        }
        assert(rest.skip(1) =~= all.skip(i + 1));
        i = i + 1;
    }
    assert(all.skip(i as int).len() == 0);
    None
}

/// The offset of a field is that of an instance field with a wanted name, and
/// no instance field before it has one; without an offset, none has one.
pub proof fn law_field_offset_is_first(
    fields: Seq<FieldModel>,
    wanted: spec_fn(Seq<char>) -> bool,
)
    ensures
        match field_offset(fields, wanted) {
            Some(off) => exists|k: int|
                {
                    &&& 0 <= k < fields.len()
                    &&& !(#[trigger] fields[k]).is_static
                    &&& wanted(fields[k].name)
                    &&& off == memory::wrap(fields[k].offset)
                    &&& forall|j: int|
                        0 <= j < k ==> (#[trigger] fields[j]).is_static || !wanted(fields[j].name)
                },
            None => forall|j: int|
                0 <= j < fields.len() ==> (#[trigger] fields[j]).is_static || !wanted(
                    fields[j].name,
                ),
        },
    decreases fields.len(),
{
    if fields.len() > 0 {
        let rest = fields.skip(1);
        if !fields[0].is_static && wanted(fields[0].name) {
        } else {
            law_field_offset_is_first(rest, wanted);
            match field_offset(rest, wanted) {
                Some(off) => {
                    let k = choose|k: int|
                        {
                            &&& 0 <= k < rest.len()
                            &&& !(#[trigger] rest[k]).is_static
                            &&& wanted(rest[k].name)
                            &&& off == memory::wrap(rest[k].offset)
                            &&& forall|j: int|
                                0 <= j < k ==> (#[trigger] rest[j]).is_static || !wanted(
                                    rest[j].name,
                                )
                        };
                    assert(fields[k + 1] == rest[k]);
                    assert forall|j: int| 0 <= j < k + 1 implies (#[trigger] fields[j]).is_static
                        || !wanted(fields[j].name) by {
                        if j > 0 {
                            assert(rest[j - 1] == fields[j]);
                        }
                    }
                },
                None => {
                    assert forall|j: int| 0 <= j < fields.len() implies (
                    #[trigger] fields[j]).is_static || !wanted(fields[j].name) by {
                        if j > 0 {
                            assert(rest[j - 1] == fields[j]);
                        }
                    }
                },
            }
        }
    }
}

/// The fields of a class: there are at most as many as a class can have, and
/// each has a name that a field can have.
pub proof fn law_class_fields_are_proper(mem: Map<int, u8>, class_ptr: int)
    ensures
        class_fields(mem, class_ptr).len() <= MAX_FIELDS,
        forall|k: int|
            0 <= k < class_fields(mem, class_ptr).len() ==> {
                let name = (#[trigger] class_fields(mem, class_ptr)[k]).name;
                0 < name.len() && encode_utf8(name).len() <= MAX_FIELD_NAME
            },
{
    let count = memory::i32_at(mem, memory::wrap(class_ptr + CLASS_FIELD_COUNT));
    if 0 < count <= MAX_FIELDS {
        lemma_fields_are_proper(mem, fields_base(mem, class_ptr), 0, count);
    }
}

proof fn lemma_fields_are_proper(mem: Map<int, u8>, base: int, i: int, n: int)
    requires
        0 <= i <= n,
    ensures
        fields_from(mem, base, i, n).len() <= n - i,
        forall|k: int|
            0 <= k < fields_from(mem, base, i, n).len() ==> {
                let name = (#[trigger] fields_from(mem, base, i, n)[k]).name;
                0 < name.len() && encode_utf8(name).len() <= MAX_FIELD_NAME
            },
    decreases n - i,
{
    if i < n {
        lemma_fields_are_proper(mem, base, i + 1, n);
        let all = fields_from(mem, base, i, n);
        let rest = fields_from(mem, base, i + 1, n);
        match field_at(mem, memory::wrap(base + i * FIELD_STRIDE)) {
            Some(field) => {
                assert forall|k: int| 0 <= k < all.len() implies {
                    let name = (#[trigger] all[k]).name;
                    0 < name.len() && encode_utf8(name).len() <= MAX_FIELD_NAME
                } by {
                    if k > 0 {
                        assert(all[k] == rest[k - 1]);
                    }
                }
            },
            None => {},
        }
    }
}

/// The name of a class is the one that the pointer 0x48 bytes behind its start
/// leads to. A class has none where it, or that pointer, lies below 64 KB or
/// above user space.
pub proof fn law_class_name_is_what_is_there(mem: Map<int, u8>, class: int, p: int)
    requires
        p == memory::ptr_at(mem, class + 0x48),
    ensures
        0x1_0000 <= class <= 0x7FFF_FFFF_FFFF && 0x1_0000 <= p <= 0x7FFF_FFFF_FFFF ==> class_name(
            mem,
            class,
        ) == strings::name_at(mem, p),
        !(0x1_0000 <= class <= 0x7FFF_FFFF_FFFF && 0x1_0000 <= p <= 0x7FFF_FFFF_FFFF)
            ==> class_name(mem, class).len() == 0,
{
}

/// The class of an object is two pointers away: the first word of the object
/// leads to its vtable, and the first word of that to the class.
pub proof fn law_class_is_behind_vtable(mem: Map<int, u8>, obj: int, vtable: int, class: int)
    requires
        vtable == memory::ptr_at(mem, obj),
        class == memory::ptr_at(mem, vtable),
    ensures
        0x1_0000 <= vtable <= 0x7FFF_FFFF_FFFF ==> class_of(mem, obj) == class,
        !(0x1_0000 <= vtable <= 0x7FFF_FFFF_FFFF) ==> class_of(mem, obj) == 0,
{
}

/// The entry at `e` of a field array starts with a pointer to the field's type;
/// a pointer to its name stands 8 bytes, and its offset 0x18 bytes behind.
/// Whether the field is static is one bit of the attributes 8 bytes behind the
/// start of the type, whatever the others are.
pub open spec fn entry_describes(mem: Map<int, u8>, e: int, field: MonoFieldInfo) -> bool {
    let name = memory::ptr_at(mem, memory::wrap(e + 0x08));
    let type_ptr = memory::ptr_at(mem, e);
    let attrs = memory::u32_at(mem, type_ptr + 0x08) as u32;
    &&& 0x1_0000 <= name <= 0x7FFF_FFFF_FFFF
    &&& field.name@ == strings::name_at(mem, name)
    &&& field.name@.len() > 0
    &&& encode_utf8(field.name@).len() <= 128
    &&& field.offset == memory::i32_at(mem, memory::wrap(e + 0x18))
    &&& field.is_static <==> 0x1_0000 <= type_ptr <= 0x7FFF_FFFF_FFFF && attrs & 0x10 != 0
}

/// The entry at `e` of a field array has no name that a field can have.
pub open spec fn entry_is_nameless(mem: Map<int, u8>, e: int) -> bool {
    let p = memory::ptr_at(mem, memory::wrap(e + 0x08));
    let name = strings::name_at(mem, p);
    !(0x1_0000 <= p <= 0x7FFF_FFFF_FFFF) || name.len() == 0 || encode_utf8(name).len() > 128
}

/// The list of a class's fields follows its field array, entry by entry and in
/// steps of 32 bytes, for as many entries as the count 0xE0 bytes behind the
/// class's start says, and ends early only with a nameless entry. The array
/// stands where the pointer 0x98 bytes behind the class's start leads to, or,
/// where that leads nowhere, at that very place. A class without fields, or
/// with more than 60, has an empty list.
pub proof fn law_fields_are_what_is_there(
    mem: Map<int, u8>,
    class: int,
    fields: Seq<MonoFieldInfo>,
)
    requires
        models(fields) == class_fields(mem, class),
    ensures
        ({
            let count = memory::i32_at(mem, memory::wrap(class + 0xE0));
            let inside = memory::wrap(class + 0x98);
            let pointed = memory::ptr_at(mem, inside);
            let base = if 0x1_0000 <= pointed <= 0x7FFF_FFFF_FFFF {
                pointed
            } else {
                inside
            };
            &&& 0 < count <= 60 ==> {
                &&& fields.len() <= count
                &&& forall|k: int|
                    0 <= k < fields.len() ==> entry_describes(
                        mem,
                        memory::wrap(base + 0x20 * k),
                        #[trigger] fields[k],
                    )
                &&& fields.len() < count ==> entry_is_nameless(
                    mem,
                    memory::wrap(base + 0x20 * fields.len()),
                )
            }
            &&& !(0 < count <= 60) ==> fields.len() == 0
        }),
{
    let count = memory::i32_at(mem, memory::wrap(class + 0xE0));
    let base = fields_base(mem, class);
    let list = class_fields(mem, class);
    assert(list.len() == fields.len());
    if 0 < count <= 60 {
        lemma_fields_follow_entries(mem, base, 0, count);
        assert forall|k: int| 0 <= k < fields.len() implies entry_describes(
            mem,
            memory::wrap(base + 0x20 * k),
            #[trigger] fields[k],
        ) by {
            let e = memory::wrap(base + (0 + k) * FIELD_STRIDE);
            assert(models(fields)[k] == fields[k]@);
            assert(field_at(mem, e) == Some(list[k]));
            let type_ptr = memory::ptr_at(mem, e);
            memory::lemma_number_range(mem, type_ptr + 0x08);
            let attrs = memory::u32_at(mem, type_ptr + 0x08) as u32;
            assert((attrs & 0x10 != 0) == (attrs / 0x10 % 2 == 1)) by (bit_vector);
        }
    }
}

/// Each field listed comes from its entry, and a short list ends at an entry
/// that describes none.
proof fn lemma_fields_follow_entries(mem: Map<int, u8>, base: int, i: int, n: int)
    requires
        0 <= i <= n,
    ensures
        ({
            let list = fields_from(mem, base, i, n);
            &&& list.len() <= n - i
            &&& forall|k: int|
                0 <= k < list.len() ==> field_at(
                    mem,
                    memory::wrap(base + (i + k) * FIELD_STRIDE),
                ) == Some(#[trigger] list[k])
            &&& list.len() < n - i ==> field_at(
                mem,
                memory::wrap(base + (i + list.len()) * FIELD_STRIDE),
            ) is None
        }),
    decreases n - i,
{
    if i < n {
        lemma_fields_follow_entries(mem, base, i + 1, n);
        let list = fields_from(mem, base, i, n);
        let rest = fields_from(mem, base, i + 1, n);
        match field_at(mem, memory::wrap(base + i * FIELD_STRIDE)) {
            Some(field) => {
                assert forall|k: int| 0 <= k < list.len() implies field_at(
                    mem,
                    memory::wrap(base + (i + k) * FIELD_STRIDE),
                ) == Some(#[trigger] list[k]) by {
                    if k > 0 {
                        assert(list[k] == rest[k - 1]);
                        assert(i + 1 + (k - 1) == i + k);
                    }
                }
                assert(list.len() == rest.len() + 1);
                assert(i + 1 + rest.len() == i + list.len());
            },
            None => {},
        }
    }
}

/// A field is found by its name: the first instance field of that name gives
/// the offset, and static fields are passed over. A negative offset is that
/// much below 2^64.
pub proof fn law_field_is_found_by_name(fields: Seq<MonoFieldInfo>, name: Seq<char>)
    ensures
        match field_offset(models(fields), named(name)) {
            Some(off) => exists|k: int| #[trigger] is_first_named(fields, seq![name], k, off),
            None => forall|k: int|
                0 <= k < fields.len() ==> (#[trigger] fields[k]).is_static || fields[k].name@
                    != name,
        },
{
    let all = models(fields);
    law_field_offset_is_first(all, named(name));
    match field_offset(all, named(name)) {
        Some(off) => {
            let names = seq![name];
            assert(names[0] == name);
            lemma_first_named(fields, named(name), names, off);
        },
        None => {
            assert forall|k: int| 0 <= k < fields.len() implies (#[trigger] fields[k]).is_static
                || fields[k].name@ != name by {
                assert(all[k] == fields[k]@);
            }
        },
    }
}

/// Field `k` is the first instance field that goes by one of the names, and
/// stands at the offset `off`.
pub open spec fn is_first_named(
    fields: Seq<MonoFieldInfo>,
    names: Seq<Seq<char>>,
    k: int,
    off: u64,
) -> bool {
    &&& 0 <= k < fields.len()
    &&& !fields[k].is_static
    &&& names.contains(fields[k].name@)
    &&& off == fields[k].offset || off == fields[k].offset + u64::MAX + 1
    &&& forall|j: int|
        0 <= j < k ==> (#[trigger] fields[j]).is_static || !names.contains(fields[j].name@)
}

/// Some instance field has the name and is the first one that has it, at `off`.
pub open spec fn stands_at(fields: Seq<MonoFieldInfo>, name: Seq<char>, off: u64) -> bool {
    exists|k: int| #[trigger] is_first_named(fields, seq![name], k, off)
}

/// No instance field has the name.
pub open spec fn is_missing(fields: Seq<MonoFieldInfo>, name: Seq<char>) -> bool {
    forall|k: int|
        0 <= k < fields.len() ==> (#[trigger] fields[k]).is_static || fields[k].name@ != name
}

/// The field that gives an offset is the first one with a wanted name.
pub(crate) proof fn lemma_first_named(
    fields: Seq<MonoFieldInfo>,
    wanted: spec_fn(Seq<char>) -> bool,
    names: Seq<Seq<char>>,
    off: u64,
)
    requires
        field_offset(models(fields), wanted) == Some(off),
        forall|n: Seq<char>| #[trigger] wanted(n) <==> names.contains(n),
    ensures
        exists|k: int| #[trigger] is_first_named(fields, names, k, off),
{
    let all = models(fields);
    law_field_offset_is_first(all, wanted);
    let k = choose|k: int|
        {
            &&& 0 <= k < all.len()
            &&& !(#[trigger] all[k]).is_static
            &&& wanted(all[k].name)
            &&& off == memory::wrap(all[k].offset)
            &&& forall|j: int| 0 <= j < k ==> (#[trigger] all[j]).is_static || !wanted(all[j].name)
        };
    assert(all[k] == fields[k]@);
    assert forall|j: int| 0 <= j < k implies (#[trigger] fields[j]).is_static || !names.contains(
        fields[j].name@,
    ) by {
        assert(all[j] == fields[j]@);
    }
    assert(is_first_named(fields, names, k, off));
}

/// Only the bit that marks static fields counts: whatever else the attributes of
/// a type say, two types that agree on it are alike, and setting it makes a
/// field static.
pub proof fn law_only_the_static_bit_counts(
    mem: Map<int, u8>,
    other: Map<int, u8>,
    type_ptr: int,
    a: u32,
    b: u32,
)
    requires
        0x1_0000 <= type_ptr <= 0x7FFF_FFFF_FFFF,
        memory::u32_at(mem, type_ptr + 0x08) == a,
        memory::u32_at(other, type_ptr + 0x08) == b,
    ensures
        a & 0x10 == b & 0x10 ==> is_static_type(mem, type_ptr) == is_static_type(other, type_ptr),
        b == a | 0x10 ==> is_static_type(other, type_ptr),
        b == a & !0x10 ==> !is_static_type(other, type_ptr),
{
    assert(a & 0x10 == b & 0x10 ==> (a / 0x10 % 2 == b / 0x10 % 2)) by (bit_vector);
    assert(b == a | 0x10 ==> b / 0x10 % 2 == 1) by (bit_vector);
    assert(b == a & !0x10 ==> b / 0x10 % 2 == 0) by (bit_vector);
}

} // verus!
