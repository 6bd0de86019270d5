//! The descriptor registry: an in-memory model of a decoded descriptor
//! set, listing each message type, its fields, and which messages and
//! fields carry the collection and key annotations.
//!
//! Decoding the serialized descriptor set and reading a key field out of
//! an encoded message are done by an outside reflection library behind
//! trusted wrappers; everything derived from the decoded entries is
//! verified.

use vstd::prelude::*;
use prost_reflect::prost::Message;
use prost_reflect::Kind;
use crate::codec::{Collection, CollectionView, Field, FieldView, Index, IndexView,
    INDEX_TYPE_KEY};
use crate::kv::clone_bytes;

verus! {

/// One field of a message type: name, wire-type code, and whether it
/// carries the key annotation.
pub struct FieldEntry {
    pub name: Vec<u8>,
    pub kind_code: u64,
    pub is_key: bool,
}

pub struct FieldEntryView {
    pub name: Seq<u8>,
    pub kind_code: u64,
    pub is_key: bool,
}

impl View for FieldEntry {
    type V = FieldEntryView;

    open spec fn view(&self) -> FieldEntryView {
        FieldEntryView { name: self.name@, kind_code: self.kind_code, is_key: self.is_key }
    }
}

/// One message type of a descriptor set: names, serialized descriptor,
/// whether it carries the collection annotation, and its fields.
pub struct MessageEntry {
    pub name: Vec<u8>,
    pub full_name: Vec<u8>,
    pub descriptor: Vec<u8>,
    pub is_collection: bool,
    pub fields: Vec<FieldEntry>,
}

pub struct MessageEntryView {
    pub name: Seq<u8>,
    pub full_name: Seq<u8>,
    pub descriptor: Seq<u8>,
    pub is_collection: bool,
    pub fields: Seq<FieldEntryView>,
}

impl View for MessageEntry {
    type V = MessageEntryView;

    open spec fn view(&self) -> MessageEntryView {
        MessageEntryView {
            name: self.name@,
            full_name: self.full_name@,
            descriptor: self.descriptor@,
            is_collection: self.is_collection,
            fields: Seq::new(self.fields@.len(), |i: int| self.fields@[i]@),
        }
    }
}

pub open spec fn entries_view(s: Seq<MessageEntry>) -> Seq<MessageEntryView> {
    Seq::new(s.len(), |i: int| s[i]@)
}

/// The message entries a descriptor set decodes to, if it is valid.
pub uninterp spec fn pool_entries(raw: Seq<u8>) -> Option<Seq<MessageEntryView>>;

/// The storage-key rendering of the named field of an encoded message of
/// the named type, under the descriptor set `raw`: string fields are
/// rendered verbatim, integer fields in decimal; anything else has none.
pub uninterp spec fn decoded_key_field(
    raw: Seq<u8>,
    fqn: Seq<u8>,
    field: Seq<u8>,
    msg: Seq<u8>,
) -> Option<Seq<u8>>;

#[verifier::external_type_specification]
#[verifier::external_body]
pub struct ExKind(prost_reflect::Kind);

#[verifier::external_type_specification]
#[verifier::external_body]
pub struct ExMessageDescriptor(prost_reflect::MessageDescriptor);

#[verifier::external_type_specification]
#[verifier::external_body]
pub struct ExFieldDescriptor(prost_reflect::FieldDescriptor);

#[verifier::external_type_specification]
#[verifier::external_body]
pub struct ExExtensionDescriptor(prost_reflect::ExtensionDescriptor);

#[verifier::external_type_specification]
#[verifier::external_body]
pub struct ExValue(prost_reflect::Value);

/// Relies on prost-reflect's `Kind`: the protobuf wire-type code of a
/// field's kind, as descriptor.proto assigns them (double is 1, float 2,
/// and so on up to sint64 at 18; message kinds share code 11, enum
/// kinds 14).
#[verifier::external_body]
fn kind_code_of(k: prost_reflect::Kind) -> (r: u64)
    ensures
        1 <= r <= 18,
{
    match k {
        Kind::Double => 1, Kind::Float => 2, Kind::Int64 => 3, Kind::Uint64 => 4,
        Kind::Int32 => 5, Kind::Fixed64 => 6, Kind::Fixed32 => 7, Kind::Bool => 8,
        Kind::String => 9, Kind::Message(_) => 11, Kind::Bytes => 12, Kind::Uint32 => 13,
        Kind::Enum(_) => 14, Kind::Sfixed32 => 15, Kind::Sfixed64 => 16, Kind::Sint32 => 17,
        Kind::Sint64 => 18,
    }
}

/// Relies on prost-reflect's `DescriptorPool::decode` and its descriptor
/// accessors: the entries are a function of the bytes alone, and an
/// empty input is a valid, empty descriptor set.
#[verifier::external_body]
fn decode_pool_entries(raw: &Vec<u8>) -> (r: Option<Vec<MessageEntry>>)
    ensures
        match r {
            Some(v) => pool_entries(raw@) == Some(entries_view(v@)),
            None => pool_entries(raw@) is None,
        },
        r is None ==> raw@.len() > 0,
        r matches Some(v) ==> (raw@.len() == 0 ==> v@.len() == 0),
{
    let pool = prost_reflect::DescriptorPool::decode(raw.as_slice()).ok()?;
    let col = pool.get_extension_by_name("protolith.annotation.v1.collection");
    let key = pool.get_extension_by_name("protolith.annotation.v1.key");
    Some(pool.all_messages().map(|m| message_entry_of(&m, &col, &key)).collect())
}

/// Relies on prost-reflect's message accessors: one decoded entry per
/// message, converted field by field.
#[verifier::external_body]
fn message_entry_of(
    m: &prost_reflect::MessageDescriptor,
    col: &Option<prost_reflect::ExtensionDescriptor>,
    key: &Option<prost_reflect::ExtensionDescriptor>,
) -> MessageEntry {
    MessageEntry {
        name: m.name().as_bytes().to_vec(),
        full_name: m.full_name().as_bytes().to_vec(),
        descriptor: m.descriptor_proto().encode_to_vec(),
        is_collection: col.as_ref().map_or(false, |e| m.options().has_extension(e)),
        fields: m.fields().map(|f| field_entry_of(&f, key)).collect(),
    }
}

/// Relies on prost-reflect's field accessors: one decoded entry per
/// declared field.
#[verifier::external_body]
fn field_entry_of(
    f: &prost_reflect::FieldDescriptor,
    key: &Option<prost_reflect::ExtensionDescriptor>,
) -> FieldEntry {
    FieldEntry {
        name: f.name().as_bytes().to_vec(),
        kind_code: kind_code_of(f.kind()),
        is_key: key.as_ref().map_or(false, |e| f.options().has_extension(e)),
    }
}

/// Relies on prost-reflect's `DynamicMessage::decode` and field access:
/// decode the pool, look the message type up by full name, decode the
/// record, and render the named field. The result is a function of the
/// four arguments alone.
#[verifier::external_body]
pub fn extract_key_field(raw: &Vec<u8>, fqn: &Vec<u8>, field: &Vec<u8>, msg: &Vec<u8>) -> (r:
    Option<Vec<u8>>)
    ensures
        match r {
            Some(v) => decoded_key_field(raw@, fqn@, field@, msg@) == Some(v@),
            None => decoded_key_field(raw@, fqn@, field@, msg@) is None,
        },
{
    let pool = prost_reflect::DescriptorPool::decode(raw.as_slice()).ok()?;
    let fqn_s = core::str::from_utf8(fqn).ok()?;
    let field_s = core::str::from_utf8(field).ok()?;
    let desc = pool.get_message_by_name(fqn_s)?;
    let dm = prost_reflect::DynamicMessage::decode(desc, msg.as_slice()).ok()?;
    let value = dm.get_field_by_name(field_s)?;
    value_key_bytes(value.as_ref())
}

/// Relies on prost-reflect's `Value`: the key rendering of a scalar,
/// strings verbatim and integers in decimal; other kinds have none.
#[verifier::external_body]
fn value_key_bytes(v: &prost_reflect::Value) -> Option<Vec<u8>> {
    match v {
        prost_reflect::Value::String(s) => Some(s.as_bytes().to_vec()),
        prost_reflect::Value::U64(n) => Some(n.to_string().into_bytes()),
        prost_reflect::Value::U32(n) => Some(n.to_string().into_bytes()),
        prost_reflect::Value::I64(n) => Some(n.to_string().into_bytes()),
        prost_reflect::Value::I32(n) => Some(n.to_string().into_bytes()),
        _ => None,
    }
}

/// A decoded descriptor set: the raw bytes and their decoded entries.
pub struct Pool {
    raw: Vec<u8>,
    entries: Vec<MessageEntry>,
}

/// The first entry named `fqn`, if any.
pub open spec fn find_entry(s: Seq<MessageEntryView>, fqn: Seq<u8>) -> Option<MessageEntryView>
    decreases s.len(),
{
    if s.len() == 0 {
        None
    } else if s[0].full_name == fqn {
        Some(s[0])
    } else {
        find_entry(s.skip(1), fqn)
    }
}

impl Pool {
    pub closed spec fn raw_spec(&self) -> Seq<u8> {
        self.raw@
    }

    pub closed spec fn entries_spec(&self) -> Seq<MessageEntryView> {
        entries_view(self.entries@)
    }

    /// The entries are exactly what the raw bytes decode to.
    pub open spec fn wf(&self) -> bool {
        pool_entries(self.raw_spec()) == Some(self.entries_spec())
    }

    /// Decode a descriptor set. Keeps the raw bytes so a boot can
    /// rehydrate the same pool later.
    pub fn decode_pool(raw: Vec<u8>) -> (r: Option<Pool>)
        ensures
            match r {
                Some(p) => p.wf() && p.raw_spec() == raw@ && (raw@.len() == 0
                    ==> p.entries_spec().len() == 0),
                None => pool_entries(raw@) is None && raw@.len() > 0,
            },
    {
        match decode_pool_entries(&raw) {
            None => None,
            Some(entries) => Some(Pool { raw, entries }),
        }
    }

    /// An empty pool from an empty descriptor set.
    pub fn empty_pool() -> (r: Pool)
        ensures
            r.wf(),
            r.raw_spec().len() == 0,
            r.entries_spec().len() == 0,
    {
        let raw: Vec<u8> = Vec::new();
        match Pool::decode_pool(raw) {
            Some(p) => {
                proof {
                    assert(p.entries_spec().len() == 0);
                }
                p
            },
            None => {
                proof {
                    assert(false);
                }
                Pool { raw: Vec::new(), entries: Vec::new() }
            },
        }
    }

    pub fn raw_bytes(&self) -> (r: Vec<u8>)
        ensures
            r@ == self.raw_spec(),
    {
        clone_bytes(&self.raw)
    }

    /// Look a message type up by its fully qualified name.
    pub fn get_message_by_name(&self, fqn: &Vec<u8>) -> (r: Option<usize>)
        ensures
            match r {
                Some(i) => i < self.entries_spec().len() && find_entry(
                    self.entries_spec(),
                    fqn@,
                ) == Some(self.entries_spec()[i as int]),
                None => find_entry(self.entries_spec(), fqn@) is None,
            },
    {
        let mut i: usize = 0;
        proof {
            assert(self.entries_spec().skip(0) =~= self.entries_spec());
        }
        while i < self.entries.len()
            invariant
                i <= self.entries@.len(),
                find_entry(self.entries_spec(), fqn@) == find_entry(
                    self.entries_spec().skip(i as int),
                    fqn@,
                ),
            decreases self.entries@.len() - i,
        {
            proof {
                assert(self.entries_spec().skip(i as int)[0] == self.entries_spec()[i as int]);
                assert(self.entries_spec().skip(i as int).skip(1) =~= self.entries_spec().skip(
                    i + 1,
                ));
            }
            if crate::bytes::bytes_eq(&self.entries[i].full_name, fqn) {
                assert(self.entries_spec()[i as int].full_name == fqn@);
                return Some(i);
            }
            i += 1;
        }
        assert(self.entries_spec().skip(i as int).len() == 0);
        None
    }

    /// The field name carrying the key annotation of entry `i`, if any.
    pub fn key_field_of(&self, i: usize) -> (r: Option<Vec<u8>>)
        requires
            i < self.entries_spec().len(),
        ensures
            match r {
                Some(f) => first_key_field(self.entries_spec()[i as int].fields) == Some(f@),
                None => first_key_field(self.entries_spec()[i as int].fields) is None,
            },
    {
        let e = &self.entries[i];
        let mut j: usize = 0;
        proof {
            assert(e@.fields.skip(0) =~= e@.fields);
        }
        while j < e.fields.len()
            invariant
                j <= e.fields@.len(),
                i < self.entries@.len(),
                e == &self.entries[i as int],
                first_key_field(e@.fields) == first_key_field(e@.fields.skip(j as int)),
            decreases e.fields@.len() - j,
        {
            proof {
                assert(e@.fields.skip(j as int)[0] == e@.fields[j as int]);
                assert(e@.fields.skip(j as int).skip(1) =~= e@.fields.skip(j + 1));
                assert(e@.fields[j as int] == e.fields@[j as int]@);
            }
            if e.fields[j].is_key {
                proof {
                    assert(first_key_field(e@.fields.skip(j as int)) == Some(
                        e@.fields[j as int].name,
                    ));
                    assert(e@ == self.entries_spec()[i as int]);
                }
                return Some(clone_bytes(&e.fields[j].name));
            }
            j += 1;
        }
        assert(e@.fields.skip(j as int).len() == 0);
        None
    }
}

/// The name of the first field marked as the key, if any.
pub open spec fn first_key_field(fields: Seq<FieldEntryView>) -> Option<Seq<u8>>
    decreases fields.len(),
{
    if fields.len() == 0 {
        None
    } else if fields[0].is_key {
        Some(fields[0].name)
    } else {
        first_key_field(fields.skip(1))
    }
}

/// The index declarations of one annotated message: one key index per
/// field carrying the key annotation.
pub open spec fn key_indexes_spec(fqn: Seq<u8>, fields: Seq<FieldEntryView>) -> Seq<IndexView>
    decreases fields.len(),
{
    if fields.len() == 0 {
        Seq::empty()
    } else {
        let rest = key_indexes_spec(fqn, fields.drop_last());
        if fields.last().is_key {
            rest.push(
                IndexView {
                    index_id: fqn + seq![58u8] + fields.last().name,
                    schema_id: fqn,
                    field_name: fields.last().name,
                    index_type: INDEX_TYPE_KEY,
                },
            )
        } else {
            rest
        }
    }
}

/// The declared fields of one message, as collection fields.
pub open spec fn fields_spec(fields: Seq<FieldEntryView>) -> Seq<FieldView> {
    Seq::new(fields.len(), |i: int| FieldView { name: fields[i].name, field_type: fields[i].kind_code })
}

/// The collection value materialized from one annotated message.
pub open spec fn collection_of_entry(e: MessageEntryView) -> CollectionView {
    CollectionView {
        name: e.name,
        full_name: e.full_name,
        descriptor: e.descriptor,
        fields: fields_spec(e.fields),
        indexes: key_indexes_spec(e.full_name, e.fields),
    }
}

/// The collections of a descriptor set: one per message carrying the
/// collection annotation, in order.
pub open spec fn collections_spec(entries: Seq<MessageEntryView>) -> Seq<CollectionView>
    decreases entries.len(),
{
    if entries.len() == 0 {
        Seq::empty()
    } else {
        let rest = collections_spec(entries.drop_last());
        if entries.last().is_collection {
            rest.push(collection_of_entry(entries.last()))
        } else {
            rest
        }
    }
}

/// Materialize the collections declared by the pool's annotations.
pub fn build_collections(pool: &Pool) -> (r: Vec<Collection>)
    ensures
        Seq::new(r@.len(), |i: int| r@[i]@) == collections_spec(pool.entries_spec()),
{
    let mut r: Vec<Collection> = Vec::new();
    let entries = &pool.entries;
    let mut i: usize = 0;
    proof {
        assert(pool.entries_spec().take(0) =~= Seq::<MessageEntryView>::empty());
        assert(Seq::new(r@.len(), |i: int| r@[i]@) =~= collections_spec(
            pool.entries_spec().take(0),
        ));
    }
    while i < entries.len()
        invariant
            i <= entries@.len(),
            entries == &pool.entries,
            Seq::new(r@.len(), |k: int| r@[k]@) == collections_spec(
                pool.entries_spec().take(i as int),
            ),
        decreases entries@.len() - i,
    {
        proof {
            assert(pool.entries_spec().take(i + 1).drop_last() =~= pool.entries_spec().take(
                i as int,
            ));
            assert(pool.entries_spec().take(i + 1).last() == pool.entries_spec()[i as int]);
            assert(pool.entries_spec()[i as int] == entries@[i as int]@);
        }
        let e = &entries[i];
        if e.is_collection {
            // Fields of the collection record.
            let mut fields: Vec<Field> = Vec::new();
            let mut j: usize = 0;
            while j < e.fields.len()
                invariant
                    j <= e.fields@.len(),
                    e == &entries@[i as int],
                    i < entries@.len(),
                    fields@.len() == j,
                    forall|k: int|
                        0 <= k < j ==> (#[trigger] fields@[k])@ == (FieldView {
                            name: e.fields@[k]@.name,
                            field_type: e.fields@[k]@.kind_code,
                        }),
                decreases e.fields@.len() - j,
            {
                let f = &e.fields[j];
                fields.push(Field { name: clone_bytes(&f.name), field_type: f.kind_code });
                j += 1;
            }
            // One key index per annotated field.
            let mut indexes: Vec<Index> = Vec::new();
            let mut m: usize = 0;
            proof {
                assert(e@.fields.take(0) =~= Seq::<FieldEntryView>::empty());
                assert(Seq::new(indexes@.len(), |k: int| indexes@[k]@) =~= key_indexes_spec(
                    e@.full_name,
                    e@.fields.take(0),
                ));
            }
            while m < e.fields.len()
                invariant
                    m <= e.fields@.len(),
                    e == &entries@[i as int],
                    i < entries@.len(),
                    Seq::new(indexes@.len(), |k: int| indexes@[k]@) == key_indexes_spec(
                        e@.full_name,
                        e@.fields.take(m as int),
                    ),
                decreases e.fields@.len() - m,
            {
                proof {
                    assert(e@.fields.take(m + 1).drop_last() =~= e@.fields.take(m as int));
                    assert(e@.fields.take(m + 1).last() == e@.fields[m as int]);
                    assert(e@.fields[m as int] == e.fields@[m as int]@);
                }
                let f = &e.fields[m];
                if f.is_key {
                    let mut sep: Vec<u8> = Vec::new();
                    sep.push(58u8);
                    let head = crate::bytes::bytes_concat(&e.full_name, &sep);
                    let index_id = crate::bytes::bytes_concat(&head, &f.name);
                    assert(index_id@ =~= e@.full_name + seq![58u8] + f@.name);
                    let x = Index {
                        index_id,
                        schema_id: clone_bytes(&e.full_name),
                        field_name: clone_bytes(&f.name),
                        index_type: INDEX_TYPE_KEY,
                    };
                    indexes.push(x);
                    proof {
                        assert(Seq::new(indexes@.len(), |k: int| indexes@[k]@)
                            =~= key_indexes_spec(e@.full_name, e@.fields.take(m as int)).push(
                            indexes@.last()@,
                        ));
                    }
                }
                m += 1;
            }
            let c = Collection {
                name: clone_bytes(&e.name),
                full_name: clone_bytes(&e.full_name),
                descriptor: clone_bytes(&e.descriptor),
                fields,
                indexes,
            };
            proof {
                assert(c@ =~= collection_of_entry(e@)) by {
                    assert(c@.fields =~= fields_spec(e@.fields));
                    assert(e@.fields.take(e.fields@.len() as int) =~= e@.fields);
                    assert(c@.indexes =~= key_indexes_spec(e@.full_name, e@.fields));
                }
            }
            r.push(c);
            proof {
                assert(Seq::new(r@.len(), |k: int| r@[k]@) =~= collections_spec(
                    pool.entries_spec().take(i as int),
                ).push(collection_of_entry(pool.entries_spec()[i as int])));
            }
        }
        i += 1;
    }
    proof {
        assert(pool.entries_spec().take(i as int) =~= pool.entries_spec());
    }
    r
}

} // verus!

verus! {

/// The collections of a descriptor set are named exactly by its
/// messages carrying the collection annotation.
pub proof fn lemma_collections_spec_names(entries: Seq<MessageEntryView>, fqn: Seq<u8>)
    ensures
        (exists|i: int|
            0 <= i < collections_spec(entries).len() && (
            #[trigger] collections_spec(entries)[i]).full_name == fqn) <==> (exists|m: int|
            0 <= m < entries.len() && (#[trigger] entries[m]).is_collection
                && entries[m].full_name == fqn),
    decreases entries.len(),
{
    let cs = collections_spec(entries);
    if entries.len() == 0 {
    } else {
        let pre = entries.drop_last();
        let last = entries.last();
        lemma_collections_spec_names(pre, fqn);
        let csp = collections_spec(pre);
        if exists|i: int| 0 <= i < cs.len() && (#[trigger] cs[i]).full_name == fqn {
            let i = choose|i: int| 0 <= i < cs.len() && (#[trigger] cs[i]).full_name == fqn;
            if last.is_collection && i == cs.len() - 1 {
                assert(cs.last() == collection_of_entry(last));
                assert(entries[entries.len() - 1].is_collection && entries[entries.len()
                    - 1].full_name == fqn);
            } else {
                assert(csp[i] == cs[i]);
                let m = choose|m: int|
                    0 <= m < pre.len() && (#[trigger] pre[m]).is_collection && pre[m].full_name
                        == fqn;
                assert(entries[m] == pre[m]);
            }
        }
        if exists|m: int|
            0 <= m < entries.len() && (#[trigger] entries[m]).is_collection
                && entries[m].full_name == fqn {
            let m = choose|m: int|
                0 <= m < entries.len() && (#[trigger] entries[m]).is_collection
                    && entries[m].full_name == fqn;
            if m == entries.len() - 1 {
                assert(cs.last().full_name == fqn);
                assert(cs[cs.len() - 1].full_name == fqn);
            } else {
                assert(pre[m] == entries[m]);
                let i = choose|i: int|
                    0 <= i < csp.len() && (#[trigger] csp[i]).full_name == fqn;
                assert(cs[i] == csp[i]);
            }
        }
    }
}

} // verus!
