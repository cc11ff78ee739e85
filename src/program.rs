//! The compiled artifact: a buffer layout and the shader that initializes it.
use crate::paths::same_chars;
use crate::text::{chars_of, string_of};
use vstd::prelude::*;

verus! {

/// A buffer field: its size and its offset inside its buffer, in bytes.
#[derive(Debug, Clone, Copy, PartialEq, Eq, Structural)]
pub struct BufferField {
    /// The size of the field in bytes.
    pub size: u32,
    /// The offset in bytes of the field inside its buffer.
    pub offset: u32,
}

/// One named field of a buffer.
#[derive(Debug, Clone)]
pub struct BufferEntry {
    /// `<module dot path>:<variable name>`.
    pub key: String,
    pub field: BufferField,
}

/// The fields of a buffer, by name, each name once.
#[derive(Debug, Clone)]
pub struct BufferFields {
    entries: Vec<BufferEntry>,
}

/// The map that a list of entries describes.
pub open spec fn map_of(entries: Seq<BufferEntry>) -> Map<Seq<char>, BufferField>
    decreases entries.len(),
{
    if entries.len() == 0 {
        Map::empty()
    } else {
        map_of(entries.drop_last()).insert(entries.last().key@, entries.last().field)
    }
}

pub open spec fn keys_unique(entries: Seq<BufferEntry>) -> bool {
    forall|i: int, j: int| 0 <= i < j < entries.len() ==> #[trigger] entries[i].key@ != #[trigger] entries[j].key@
}

proof fn lemma_map_of(entries: Seq<BufferEntry>)
    requires
        keys_unique(entries),
    ensures
        map_of(entries).dom().finite(),
        map_of(entries).dom().len() == entries.len(),
        forall|i: int| 0 <= i < entries.len() ==> #[trigger] map_of(entries).contains_key(entries[i].key@)
            && map_of(entries)[entries[i].key@] == entries[i].field,
        forall|k: Seq<char>| #[trigger] map_of(entries).contains_key(k) ==> exists|i: int| 0 <= i < entries.len() && entries[i].key@ == k,
    decreases entries.len(),
{
    if entries.len() > 0 {
        let rest = entries.drop_last();
        assert(keys_unique(rest));
        lemma_map_of(rest);
        let last = entries.last();
        assert(!map_of(rest).contains_key(last.key@)) by {
            if map_of(rest).contains_key(last.key@) {
                let i = choose|i: int| 0 <= i < rest.len() && rest[i].key@ == last.key@;
                assert(entries[i].key@ != entries[entries.len() - 1].key@);
            }
        }
        assert forall|i: int| 0 <= i < entries.len() implies #[trigger] map_of(entries).contains_key(entries[i].key@)
            && map_of(entries)[entries[i].key@] == entries[i].field by {
            if i < entries.len() - 1 {
                assert(entries[i] == rest[i]);
                assert(entries[i].key@ != last.key@);
            }
        }
        assert forall|k: Seq<char>| #[trigger] map_of(entries).contains_key(k) implies exists|i: int| 0 <= i < entries.len() && entries[i].key@ == k by {
            if k != last.key@ {
                let i = choose|i: int| 0 <= i < rest.len() && rest[i].key@ == k;
                assert(entries[i] == rest[i]);
            } else {
                assert(entries[entries.len() - 1].key@ == k);
            }
        }
    }
}

impl View for BufferFields {
    type V = Map<Seq<char>, BufferField>;

    closed spec fn view(&self) -> Map<Seq<char>, BufferField> {
        map_of(self.entries@)
    }
}

impl BufferFields {
    /// Each name stands once.
    pub closed spec fn wf(&self) -> bool {
        keys_unique(self.entries@)
    }

    /// No field.
    pub fn new() -> (r: BufferFields)
        ensures
            r@ == Map::<Seq<char>, BufferField>::empty(),
            r.wf(),
    {
        BufferFields { entries: Vec::new() }
    }

    /// The number of fields.
    pub fn len(&self) -> (r: usize)
        requires
            self.wf(),
        ensures
            r == self@.dom().len(),
    {
        proof {
            lemma_map_of(self.entries@);
        }
        self.entries.len()
    }

    /// Whether a field has this name.
    pub fn contains_key(&self, key: &str) -> (r: bool)
        requires
            self.wf(),
        ensures
            r == self@.contains_key(key@),
    {
        self.get(key).is_some()
    }

    /// The field with this name.
    pub fn get(&self, key: &str) -> (r: Option<BufferField>)
        requires
            self.wf(),
        ensures
            match r {
                Some(field) => self@.contains_key(key@) && self@[key@] == field,
                None => !self@.contains_key(key@),
            },
    {
        proof {
            lemma_map_of(self.entries@);
        }
        let k = chars_of(key);
        let mut i: usize = 0;
        while i < self.entries.len()
            invariant
                keys_unique(self.entries@),
                k@ == key@,
                i <= self.entries@.len(),
                forall|j: int| 0 <= j < i ==> #[trigger] self.entries@[j].key@ != key@,
            decreases self.entries.len() - i,
        {
            let e = chars_of(self.entries[i].key.as_str());
            if same_chars(&e, &k) {
                proof {
                    lemma_map_of(self.entries@);
                }
                return Some(self.entries[i].field);
            }
            i = i + 1;
        }
        None
    }

    /// Adds a field, replacing the one of the same name.
    pub fn insert(&mut self, key: String, field: BufferField)
        requires
            old(self).wf(),
        ensures
            final(self).wf(),
            final(self)@ == old(self)@.insert(key@, field),
    {
        let k = chars_of(key.as_str());
        let mut i: usize = 0;
        while i < self.entries.len()
            invariant
                keys_unique(self.entries@),
                self.entries@ == old(self).entries@,
                k@ == key@,
                i <= self.entries@.len(),
                forall|j: int| 0 <= j < i ==> #[trigger] self.entries@[j].key@ != key@,
            decreases self.entries.len() - i,
        {
            let e = chars_of(self.entries[i].key.as_str());
            if same_chars(&e, &k) {
                let ghost before = self.entries@;
                self.entries.set(i, BufferEntry { key, field });
                proof {
                    let after = self.entries@;
                    assert(keys_unique(after));
                    lemma_map_of(before);
                    lemma_map_of(after);
                    assert(map_of(after) =~= map_of(before).insert(key@, field)) by {
                        assert forall|x: Seq<char>| #[trigger] map_of(after).contains_key(x) <==> map_of(before).insert(key@, field).contains_key(x) by {
                            if map_of(after).contains_key(x) {
                                let j = choose|j: int| 0 <= j < after.len() && after[j].key@ == x;
                                if j != i {
                                    assert(after[j] == before[j]);
                                }
                            }
                            if map_of(before).contains_key(x) {
                                let j = choose|j: int| 0 <= j < before.len() && before[j].key@ == x;
                                if j != i {
                                    assert(after[j] == before[j]);
                                }
                            }
                        }
                        assert forall|x: Seq<char>| #[trigger] map_of(after).contains_key(x) implies map_of(after)[x] == map_of(before).insert(key@, field)[x] by {
                            let j = choose|j: int| 0 <= j < after.len() && after[j].key@ == x;
                            if j != i {
                                assert(after[j] == before[j]);
                            }
                        }
                    }
                }
                return;
            }
            i = i + 1;
        }
        self.entries.push(BufferEntry { key, field });
        proof {
            let after = self.entries@;
            assert(after.drop_last() =~= old(self).entries@);
            assert(keys_unique(after));
        }
    }

    /// The fields, each with its name.
    pub fn entries(&self) -> (r: &Vec<BufferEntry>)
        requires
            self.wf(),
        ensures
            map_of(r@) == self@,
    {
        &self.entries
    }
}

/// A buffer: its size and its fields.
#[derive(Debug, Clone)]
pub struct Buffer {
    /// The size of the buffer in bytes.
    pub size: u32,
    /// The fields of the buffer.
    pub fields: BufferFields,
}

/// A compiled program.
#[derive(Debug, Clone)]
pub struct Program {
    /// The buffer storing all global variables.
    pub buffer: Buffer,
    /// The shader used to initialize all global variables.
    pub init_shader: String,
}

/// A value read from the buffer of a running program.
#[derive(Debug, Clone, Copy, PartialEq, Eq, Structural)]
pub enum GpuValue {
    /// An `i32` value.
    I32(i32),
}

/// The `i32` that four bytes hold, least significant first.
pub open spec fn i32_of_bytes(b0: u8, b1: u8, b2: u8, b3: u8) -> int {
    let u = b0 as int + 256 * b1 as int + 65536 * b2 as int + 16777216 * b3 as int;
    if u >= 0x8000_0000 {
        u - 0x1_0000_0000
    } else {
        u
    }
}

impl GpuValue {
    /// The decimal text of the value.
    pub fn to_string(&self) -> (r: String)
        ensures
            match *self {
                GpuValue::I32(v) => r@ == crate::text::signed_decimal(v as int),
            },
    {
        match self {
            GpuValue::I32(v) => {
                let mut r = String::new();
                crate::text::push_signed_decimal(&mut r, *v);
                r
            },
        }
    }
}

impl Program {
    /// The value of the variable `path` (`<module dot path>:<variable name>`) in the bytes of
    /// the buffer, stored least significant byte first; `None` when no field has that name
    /// or the bytes do not cover it.
    pub fn read_value(&self, path: &str, bytes: &Vec<u8>) -> (r: Option<GpuValue>)
        requires
            self.buffer.fields.wf(),
        ensures
            match r {
                Some(GpuValue::I32(v)) => {
                    let field = self.buffer.fields@[path@];
                    let o = field.offset as int;
                    &&& self.buffer.fields@.contains_key(path@)
                    &&& o + 4 <= bytes@.len()
                    &&& v as int == i32_of_bytes(bytes@[o], bytes@[o + 1], bytes@[o + 2], bytes@[o + 3])
                },
                None => !self.buffer.fields@.contains_key(path@) || self.buffer.fields@[path@].offset + 4 > bytes@.len(),
            },
    {
        match self.buffer.fields.get(path) {
            None => None,
            Some(field) => {
                let o = field.offset as usize;
                if o > bytes.len() || bytes.len() - o < 4 {
                    return None;
                }
                let u: u32 = bytes[o] as u32 + 256 * (bytes[o + 1] as u32) + 65536 * (bytes[o + 2] as u32)
                    + 16777216 * (bytes[o + 3] as u32);
                let v: i32 = if u >= 0x8000_0000 {
                    (u as i64 - 0x1_0000_0000i64) as i32
                } else {
                    u as i32
                };
                Some(GpuValue::I32(v))
            },
        }
    }
}

} // verus!
