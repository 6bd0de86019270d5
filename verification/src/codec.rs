//! Schema metadata records and their byte encoding.
//!
//! Collections, schemas, schema versions and index declarations are stored
//! in the metadata column families as flat byte records: integers as eight
//! little-endian bytes, byte strings length-prefixed, lists count-prefixed.
//! Decoding is proved to be the exact inverse of encoding.

use vstd::prelude::*;

verus! {

/// 256 to the power `c`.
pub open spec fn pow256(c: nat) -> nat
    decreases c,
{
    if c == 0 {
        1
    } else {
        256 * pow256((c - 1) as nat)
    }
}

/// Little-endian encoding of `n` in `c` bytes.
pub open spec fn enc_rec(n: nat, c: nat) -> Seq<u8>
    decreases c,
{
    if c == 0 {
        Seq::empty()
    } else {
        seq![(n % 256) as u8] + enc_rec(n / 256, (c - 1) as nat)
    }
}

/// The number encoded by `s`, first byte least significant.
pub open spec fn dec_rec(s: Seq<u8>) -> nat
    decreases s.len(),
{
    if s.len() == 0 {
        0
    } else {
        (s[0] + 256 * dec_rec(s.skip(1))) as nat
    }
}

pub open spec fn enc_u64(n: u64) -> Seq<u8> {
    enc_rec(n as nat, 8)
}

/// A length-prefixed byte string.
pub open spec fn enc_bytes(b: Seq<u8>) -> Seq<u8> {
    enc_u64(b.len() as u64) + b
}

pub proof fn lemma_pow256_8()
    ensures
        pow256(8) == 0x10000000000000000,
{
    reveal_with_fuel(pow256, 9);
}

pub proof fn lemma_enc_rec_len(n: nat, c: nat)
    ensures
        enc_rec(n, c).len() == c,
    decreases c,
{
    if c > 0 {
        lemma_enc_rec_len(n / 256, (c - 1) as nat);
    }
}

pub proof fn lemma_dec_bound(s: Seq<u8>)
    ensures
        dec_rec(s) < pow256(s.len() as nat),
    decreases s.len(),
{
    if s.len() == 0 {
    } else {
        lemma_dec_bound(s.skip(1));
        let r = dec_rec(s.skip(1));
        let p = pow256((s.len() - 1) as nat);
        assert(r <= p - 1);
        assert(256 * r <= 256 * (p - 1)) by (nonlinear_arith)
            requires r <= p - 1, p >= 1;
        assert(s[0] + 256 * r < 256 * p);
    }
}

/// Decoding inverts encoding.
pub proof fn lemma_dec_enc(n: nat, c: nat)
    requires
        n < pow256(c),
    ensures
        dec_rec(enc_rec(n, c)) == n,
    decreases c,
{
    if c == 0 {
        assert(n == 0);
    } else {
        let q = n / 256;
        assert(q < pow256((c - 1) as nat)) by (nonlinear_arith)
            requires n < 256 * pow256((c - 1) as nat), q == n / 256;
        lemma_dec_enc(q, (c - 1) as nat);
        let e = enc_rec(n, c);
        assert(e[0] == (n % 256) as u8);
        assert(e.skip(1) =~= enc_rec(q, (c - 1) as nat));
        assert(n % 256 + 256 * (n / 256) == n) by (nonlinear_arith);
    }
}

/// Encoding inverts decoding, for any sequence of the right length.
pub proof fn lemma_enc_dec(s: Seq<u8>, c: nat)
    requires
        s.len() == c,
    ensures
        enc_rec(dec_rec(s), c) == s,
    decreases c,
{
    if c == 0 {
        assert(enc_rec(dec_rec(s), 0) =~= s);
    } else {
        let rest = s.skip(1);
        lemma_enc_dec(rest, (c - 1) as nat);
        let n = dec_rec(s);
        assert(n == s[0] + 256 * dec_rec(rest));
        assert(n % 256 == s[0] && n / 256 == dec_rec(rest)) by (nonlinear_arith)
            requires n == s[0] + 256 * dec_rec(rest), 0 <= s[0] < 256;
        assert(enc_rec(n, c) =~= seq![(n % 256) as u8] + enc_rec(n / 256, (c - 1) as nat));
        assert(enc_rec(n, c) =~= s);
    }
}

/// Write `n` as eight little-endian bytes onto `out`.
pub fn write_u64(out: &mut Vec<u8>, n: u64)
    ensures
        final(out)@ == old(out)@ + enc_u64(n),
{
    let ghost base = out@;
    let mut m: u64 = n;
    let mut i: usize = 0;
    while i < 8
        invariant
            i <= 8,
            out@ + enc_rec(m as nat, (8 - i) as nat) == base + enc_u64(n),
        decreases 8 - i,
    {
        let b: u8 = (m % 256) as u8;
        proof {
            assert(enc_rec(m as nat, (8 - i) as nat) =~= seq![b] + enc_rec(
                (m / 256) as nat,
                (8 - (i + 1)) as nat,
            ));
            assert(out@.push(b) + enc_rec((m / 256) as nat, (8 - (i + 1)) as nat) =~= out@
                + enc_rec(m as nat, (8 - i) as nat));
        }
        out.push(b);
        m = m / 256;
        i += 1;
    }
    assert(enc_rec(m as nat, 0) =~= Seq::<u8>::empty());
    assert(out@ + enc_rec(m as nat, 0) =~= out@);
}

/// Read eight little-endian bytes at `pos`.
pub fn read_u64(buf: &Vec<u8>, pos: usize) -> (r: Option<(u64, usize)>)
    ensures
        match r {
            Some((n, p)) => pos + 8 <= buf@.len() && p == pos + 8 && n as nat == dec_rec(
                buf@.subrange(pos as int, pos + 8),
            ),
            None => pos + 8 > buf@.len(),
        },
{
    if buf.len() < 8 || pos > buf.len() - 8 {
        return None;
    }
    let ghost s = buf@.subrange(pos as int, pos + 8);
    let mut acc: u64 = 0;
    let mut i: usize = 8;
    proof {
        assert(s.skip(8) =~= Seq::<u8>::empty());
    }
    while i > 0
        invariant
            i <= 8,
            pos + 8 <= buf@.len(),
            pos + 8 <= usize::MAX,
            s == buf@.subrange(pos as int, pos + 8),
            acc as nat == dec_rec(s.skip(i as int)),
        decreases i,
    {
        proof {
            lemma_dec_bound(s.skip(i - 1));
            lemma_pow256_8();
            assert(pow256(s.skip(i - 1).len() as nat) <= pow256(8)) by {
                lemma_pow256_monotone(s.skip(i - 1).len() as nat, 8);
            }
            assert(s.skip(i - 1)[0] == s[i - 1]);
            assert(s.skip(i - 1).skip(1) =~= s.skip(i as int));
            assert(dec_rec(s.skip(i - 1)) == s[i - 1] + 256 * acc as nat);
            assert(s[i - 1] + 256 * acc as nat <= u64::MAX);
        }
        assert(pos + i - 1 < buf@.len());
        let idx: usize = pos + i - 1;
        let b: u8 = buf[idx];
        assert(b == s[i - 1]);
        acc = b as u64 + 256 * acc;
        i -= 1;
    }
    assert(s.skip(0) =~= s);
    Some((acc, pos + 8))
}

pub proof fn lemma_pow256_monotone(a: nat, b: nat)
    requires
        a <= b,
    ensures
        pow256(a) <= pow256(b),
    decreases b,
{
    if a < b {
        lemma_pow256_monotone(a, (b - 1) as nat);
        assert(pow256(b) == 256 * pow256((b - 1) as nat));
        assert(pow256((b - 1) as nat) <= 256 * pow256((b - 1) as nat)) by (nonlinear_arith)
            requires pow256((b - 1) as nat) >= 0;
    }
}

/// Write a length-prefixed byte string onto `out`.
pub fn write_bytes(out: &mut Vec<u8>, b: &Vec<u8>)
    ensures
        final(out)@ == old(out)@ + enc_bytes(b@),
{
    write_u64(out, b.len() as u64);
    let ghost mid = out@;
    let mut i: usize = 0;
    while i < b.len()
        invariant
            i <= b.len(),
            out@ == mid + b@.take(i as int),
        decreases b.len() - i,
    {
        out.push(b[i]);
        assert(out@ =~= mid + b@.take(i + 1));
        i += 1;
    }
    assert(out@ =~= old(out)@ + enc_bytes(b@));
}

/// Read a length-prefixed byte string at `pos`.
pub fn read_bytes(buf: &Vec<u8>, pos: usize) -> (r: Option<(Vec<u8>, usize)>)
    ensures
        match r {
            Some((b, p)) => {
                &&& pos + 8 <= buf@.len()
                &&& dec_rec(buf@.subrange(pos as int, pos + 8)) == b@.len()
                &&& pos + 8 + b@.len() <= buf@.len()
                &&& p == pos + 8 + b@.len()
                &&& b@ == buf@.subrange(pos + 8, pos + 8 + b@.len())
                &&& buf@.subrange(pos as int, p as int) == enc_bytes(b@)
            },
            None => pos + 8 > buf@.len() || pos + 8 + dec_rec(
                buf@.subrange(pos as int, pos + 8),
            ) > buf@.len(),
        },
{
    let (n, p1) = match read_u64(buf, pos) {
        None => {
            return None;
        },
        Some(x) => x,
    };
    if n > (buf.len() - p1) as u64 {
        return None;
    }
    let len: usize = n as usize;
    let mut b: Vec<u8> = Vec::new();
    let mut i: usize = 0;
    while i < len
        invariant
            i <= len,
            p1 + len <= buf@.len(),
            p1 + len <= usize::MAX,
            b@ == buf@.subrange(p1 as int, p1 + i),
        decreases len - i,
    {
        assert(p1 + i < buf@.len());
        let idx: usize = p1 + i;
        b.push(buf[idx]);
        assert(b@ =~= buf@.subrange(p1 as int, p1 + i + 1));
        i += 1;
    }
    proof {
        let whole = buf@.subrange(pos as int, p1 + len);
        assert(whole =~= buf@.subrange(pos as int, pos + 8) + b@);
        lemma_enc_dec(buf@.subrange(pos as int, pos + 8), 8);
        assert(buf@.subrange(pos as int, pos + 8) == enc_u64(n));
        assert(whole =~= enc_bytes(b@));
    }
    Some((b, p1 + len))
}

/// If `enc_bytes(x)` sits at `pos` in `buf`, reading there yields exactly `x`.
pub proof fn lemma_chunk_at(buf: Seq<u8>, pos: int, x: Seq<u8>)
    requires
        0 <= pos,
        x.len() <= u64::MAX,
        pos + enc_bytes(x).len() <= buf.len(),
        buf.subrange(pos, pos + enc_bytes(x).len() as int) == enc_bytes(x),
    ensures
        enc_bytes(x).len() == 8 + x.len(),
        pos + 8 <= buf.len(),
        dec_rec(buf.subrange(pos, pos + 8)) == x.len(),
        buf.subrange(pos + 8, pos + 8 + x.len() as int) == x,
{
    let lx = x.len() as u64;
    lemma_enc_rec_len(lx as nat, 8);
    assert(enc_bytes(x).len() == 8 + x.len());
    let whole = buf.subrange(pos, pos + enc_bytes(x).len() as int);
    assert(buf.subrange(pos, pos + 8) =~= enc_u64(lx)) by {
        assert forall|j: int| 0 <= j < 8 implies #[trigger] buf.subrange(pos, pos + 8)[j]
            == enc_u64(lx)[j] by {
            assert(whole[j] == enc_bytes(x)[j]);
            assert(enc_bytes(x)[j] == enc_u64(lx)[j]);
        }
    }
    lemma_pow256_8();
    lemma_dec_enc(lx as nat, 8);
    assert(buf.subrange(pos + 8, pos + 8 + x.len() as int) =~= x) by {
        assert forall|j: int| 0 <= j < x.len() implies #[trigger] buf.subrange(
            pos + 8,
            pos + 8 + x.len() as int,
        )[j] == x[j] by {
            assert(whole[8 + j] == enc_bytes(x)[8 + j]);
            assert(enc_bytes(x)[8 + j] == x[j]);
        }
    }
}

/// If `enc_u64(n)` sits at `pos` in `buf`, reading there yields exactly `n`.
pub proof fn lemma_u64_at(buf: Seq<u8>, pos: int, n: u64)
    requires
        0 <= pos,
        pos + 8 <= buf.len(),
        buf.subrange(pos, pos + 8) == enc_u64(n),
    ensures
        dec_rec(buf.subrange(pos, pos + 8)) == n as nat,
{
    lemma_pow256_8();
    lemma_dec_enc(n as nat, 8);
}

} // verus!

verus! {

/// A declared field of a collection: its name and protobuf wire-type code.
pub struct Field {
    pub name: Vec<u8>,
    pub field_type: u64,
}

pub struct FieldView {
    pub name: Seq<u8>,
    pub field_type: u64,
}

impl View for Field {
    type V = FieldView;

    open spec fn view(&self) -> FieldView {
        FieldView { name: self.name@, field_type: self.field_type }
    }
}

/// Index kind code: the primary key.
pub const INDEX_TYPE_KEY: u64 = 1;

/// Index kind code: a secondary index (declared, not yet consulted).
pub const INDEX_TYPE_SECONDARY: u64 = 2;

/// A declaration that a field of a collection is used as a lookup key.
pub struct Index {
    pub index_id: Vec<u8>,
    pub schema_id: Vec<u8>,
    pub field_name: Vec<u8>,
    pub index_type: u64,
}

pub struct IndexView {
    pub index_id: Seq<u8>,
    pub schema_id: Seq<u8>,
    pub field_name: Seq<u8>,
    pub index_type: u64,
}

impl View for Index {
    type V = IndexView;

    open spec fn view(&self) -> IndexView {
        IndexView {
            index_id: self.index_id@,
            schema_id: self.schema_id@,
            field_name: self.field_name@,
            index_type: self.index_type,
        }
    }
}

/// A named record type inside a database.
pub struct Collection {
    pub name: Vec<u8>,
    pub full_name: Vec<u8>,
    pub descriptor: Vec<u8>,
    pub fields: Vec<Field>,
    pub indexes: Vec<Index>,
}

pub struct CollectionView {
    pub name: Seq<u8>,
    pub full_name: Seq<u8>,
    pub descriptor: Seq<u8>,
    pub fields: Seq<FieldView>,
    pub indexes: Seq<IndexView>,
}

impl View for Collection {
    type V = CollectionView;

    open spec fn view(&self) -> CollectionView {
        CollectionView {
            name: self.name@,
            full_name: self.full_name@,
            descriptor: self.descriptor@,
            fields: Seq::new(self.fields@.len(), |i: int| self.fields@[i]@),
            indexes: Seq::new(self.indexes@.len(), |i: int| self.indexes@[i]@),
        }
    }
}

/// The persisted metadata entry for one collection at one version.
pub struct Schema {
    pub schema_id: Vec<u8>,
    pub schema_version: u64,
    pub schema_definition: Vec<u8>,
}

pub struct SchemaView {
    pub schema_id: Seq<u8>,
    pub schema_version: u64,
    pub schema_definition: Seq<u8>,
}

impl View for Schema {
    type V = SchemaView;

    open spec fn view(&self) -> SchemaView {
        SchemaView {
            schema_id: self.schema_id@,
            schema_version: self.schema_version,
            schema_definition: self.schema_definition@,
        }
    }
}

/// The pointer record naming one version of a collection's schema.
pub struct SchemaVersion {
    pub schema_id: Vec<u8>,
    pub version_number: u64,
    pub is_current: bool,
}

pub struct SchemaVersionView {
    pub schema_id: Seq<u8>,
    pub version_number: u64,
    pub is_current: bool,
}

impl View for SchemaVersion {
    type V = SchemaVersionView;

    open spec fn view(&self) -> SchemaVersionView {
        SchemaVersionView {
            schema_id: self.schema_id@,
            version_number: self.version_number,
            is_current: self.is_current,
        }
    }
}

pub open spec fn enc_field(f: FieldView) -> Seq<u8> {
    enc_bytes(f.name) + enc_u64(f.field_type)
}

pub open spec fn enc_fields(s: Seq<FieldView>) -> Seq<u8>
    decreases s.len(),
{
    if s.len() == 0 {
        Seq::empty()
    } else {
        enc_field(s[0]) + enc_fields(s.skip(1))
    }
}

pub open spec fn enc_index(x: IndexView) -> Seq<u8> {
    enc_bytes(x.index_id) + enc_bytes(x.schema_id) + enc_bytes(x.field_name) + enc_u64(
        x.index_type,
    )
}

pub open spec fn enc_indexes(s: Seq<IndexView>) -> Seq<u8>
    decreases s.len(),
{
    if s.len() == 0 {
        Seq::empty()
    } else {
        enc_index(s[0]) + enc_indexes(s.skip(1))
    }
}

pub open spec fn enc_collection(c: CollectionView) -> Seq<u8> {
    enc_bytes(c.name) + enc_bytes(c.full_name) + enc_bytes(c.descriptor) + enc_u64(
        c.fields.len() as u64,
    ) + enc_fields(c.fields) + enc_u64(c.indexes.len() as u64) + enc_indexes(c.indexes)
}

pub open spec fn enc_schema(s: SchemaView) -> Seq<u8> {
    enc_bytes(s.schema_id) + enc_u64(s.schema_version) + enc_bytes(s.schema_definition)
}

pub open spec fn enc_schema_version(v: SchemaVersionView) -> Seq<u8> {
    enc_bytes(v.schema_id) + enc_u64(v.version_number) + seq![
        if v.is_current {
            1u8
        } else {
            0u8
        },
    ]
}

/// Byte-string fields short enough for their length prefixes to be exact.
pub open spec fn valid_field(f: FieldView) -> bool {
    f.name.len() <= u64::MAX
}

pub open spec fn valid_index(x: IndexView) -> bool {
    x.index_id.len() <= u64::MAX && x.schema_id.len() <= u64::MAX && x.field_name.len()
        <= u64::MAX
}

pub open spec fn valid_collection(c: CollectionView) -> bool {
    &&& c.name.len() <= u64::MAX
    &&& c.full_name.len() <= u64::MAX
    &&& c.descriptor.len() <= u64::MAX
    &&& c.fields.len() <= u64::MAX
    &&& c.indexes.len() <= u64::MAX
    &&& forall|i: int| 0 <= i < c.fields.len() ==> valid_field(#[trigger] c.fields[i])
    &&& forall|i: int| 0 <= i < c.indexes.len() ==> valid_index(#[trigger] c.indexes[i])
}

pub open spec fn valid_schema(s: SchemaView) -> bool {
    s.schema_id.len() <= u64::MAX && s.schema_definition.len() <= u64::MAX
}

pub open spec fn valid_schema_version(v: SchemaVersionView) -> bool {
    v.schema_id.len() <= u64::MAX
}

impl Field {
    pub fn clone_rec(&self) -> (r: Field)
        ensures
            r@ == self@,
    {
        Field { name: crate::kv::clone_bytes(&self.name), field_type: self.field_type }
    }
}

impl Index {
    pub fn clone_rec(&self) -> (r: Index)
        ensures
            r@ == self@,
    {
        Index {
            index_id: crate::kv::clone_bytes(&self.index_id),
            schema_id: crate::kv::clone_bytes(&self.schema_id),
            field_name: crate::kv::clone_bytes(&self.field_name),
            index_type: self.index_type,
        }
    }
}

impl Collection {
    pub fn clone_rec(&self) -> (r: Collection)
        ensures
            r@ == self@,
    {
        let mut fields: Vec<Field> = Vec::new();
        let mut i: usize = 0;
        while i < self.fields.len()
            invariant
                i <= self.fields@.len(),
                fields@.len() == i,
                forall|j: int| 0 <= j < i ==> (#[trigger] fields@[j])@ == self.fields@[j]@,
            decreases self.fields@.len() - i,
        {
            fields.push(self.fields[i].clone_rec());
            i += 1;
        }
        let mut indexes: Vec<Index> = Vec::new();
        let mut k: usize = 0;
        while k < self.indexes.len()
            invariant
                k <= self.indexes@.len(),
                indexes@.len() == k,
                forall|j: int| 0 <= j < k ==> (#[trigger] indexes@[j])@ == self.indexes@[j]@,
            decreases self.indexes@.len() - k,
        {
            indexes.push(self.indexes[k].clone_rec());
            k += 1;
        }
        let r = Collection {
            name: crate::kv::clone_bytes(&self.name),
            full_name: crate::kv::clone_bytes(&self.full_name),
            descriptor: crate::kv::clone_bytes(&self.descriptor),
            fields,
            indexes,
        };
        assert(r@.fields =~= self@.fields);
        assert(r@.indexes =~= self@.indexes);
        r
    }
}

impl Schema {
    pub fn clone_rec(&self) -> (r: Schema)
        ensures
            r@ == self@,
    {
        Schema {
            schema_id: crate::kv::clone_bytes(&self.schema_id),
            schema_version: self.schema_version,
            schema_definition: crate::kv::clone_bytes(&self.schema_definition),
        }
    }
}

impl SchemaVersion {
    pub fn clone_rec(&self) -> (r: SchemaVersion)
        ensures
            r@ == self@,
    {
        SchemaVersion {
            schema_id: crate::kv::clone_bytes(&self.schema_id),
            version_number: self.version_number,
            is_current: self.is_current,
        }
    }
}

} // verus!

verus! {

pub proof fn lemma_enc_fields_push(s: Seq<FieldView>, f: FieldView)
    ensures
        enc_fields(s.push(f)) == enc_fields(s) + enc_field(f),
    decreases s.len(),
{
    if s.len() == 0 {
        assert(s.push(f)[0] == f);
        assert(s.push(f).skip(1) =~= Seq::<FieldView>::empty());
        assert(enc_fields(s.push(f).skip(1)) == Seq::<u8>::empty());
        assert(enc_fields(s.push(f)) == enc_field(f) + Seq::<u8>::empty());
        assert(enc_fields(s) == Seq::<u8>::empty());
        assert(enc_fields(s.push(f)) =~= enc_fields(s) + enc_field(f));
    } else {
        assert(s.push(f)[0] == s[0]);
        assert(s.push(f).skip(1) =~= s.skip(1).push(f));
        lemma_enc_fields_push(s.skip(1), f);
        assert(enc_fields(s.push(f)) == enc_field(s[0]) + (enc_fields(s.skip(1)) + enc_field(
            f,
        )));
        assert(enc_field(s[0]) + (enc_fields(s.skip(1)) + enc_field(f)) =~= (enc_field(s[0])
            + enc_fields(s.skip(1))) + enc_field(f));
    }
}

pub proof fn lemma_enc_indexes_push(s: Seq<IndexView>, x: IndexView)
    ensures
        enc_indexes(s.push(x)) == enc_indexes(s) + enc_index(x),
    decreases s.len(),
{
    if s.len() == 0 {
        assert(s.push(x)[0] == x);
        assert(s.push(x).skip(1) =~= Seq::<IndexView>::empty());
        assert(enc_indexes(s.push(x).skip(1)) == Seq::<u8>::empty());
        assert(enc_indexes(s.push(x)) == enc_index(x) + Seq::<u8>::empty());
        assert(enc_indexes(s) == Seq::<u8>::empty());
        assert(enc_indexes(s.push(x)) =~= enc_indexes(s) + enc_index(x));
    } else {
        assert(s.push(x)[0] == s[0]);
        assert(s.push(x).skip(1) =~= s.skip(1).push(x));
        lemma_enc_indexes_push(s.skip(1), x);
        assert(enc_indexes(s.push(x)) == enc_index(s[0]) + (enc_indexes(s.skip(1)) + enc_index(
            x,
        )));
        assert(enc_index(s[0]) + (enc_indexes(s.skip(1)) + enc_index(x)) =~= (enc_index(s[0])
            + enc_indexes(s.skip(1))) + enc_index(x));
    }
}

/// A part written at `pos` followed by a rest splits into exact subranges.
pub proof fn lemma_split_at(buf: Seq<u8>, pos: int, a: Seq<u8>, b: Seq<u8>)
    requires
        0 <= pos,
        pos + a.len() + b.len() <= buf.len(),
        buf.subrange(pos, pos + a.len() + b.len()) == a + b,
    ensures
        buf.subrange(pos, pos + a.len() as int) == a,
        buf.subrange(pos + a.len() as int, pos + a.len() + b.len()) == b,
{
    let w = buf.subrange(pos, pos + a.len() + b.len());
    assert(buf.subrange(pos, pos + a.len() as int) =~= a) by {
        assert forall|j: int| 0 <= j < a.len() implies #[trigger] buf.subrange(
            pos,
            pos + a.len() as int,
        )[j] == a[j] by {
            assert(w[j] == (a + b)[j]);
        }
    }
    assert(buf.subrange(pos + a.len() as int, pos + a.len() + b.len()) =~= b) by {
        assert forall|j: int| 0 <= j < b.len() implies #[trigger] buf.subrange(
            pos + a.len() as int,
            pos + a.len() + b.len(),
        )[j] == b[j] by {
            assert(w[a.len() + j] == (a + b)[a.len() + j]);
        }
    }
}

fn write_field(out: &mut Vec<u8>, f: &Field)
    ensures
        final(out)@ == old(out)@ + enc_field(f@),
{
    write_bytes(out, &f.name);
    write_u64(out, f.field_type);
    assert(out@ =~= old(out)@ + enc_field(f@));
}

fn write_index(out: &mut Vec<u8>, x: &Index)
    ensures
        final(out)@ == old(out)@ + enc_index(x@),
{
    write_bytes(out, &x.index_id);
    write_bytes(out, &x.schema_id);
    write_bytes(out, &x.field_name);
    write_u64(out, x.index_type);
    assert(out@ =~= old(out)@ + enc_index(x@));
}

/// Serialize a collection record.
pub fn encode_collection(c: &Collection) -> (r: Vec<u8>)
    ensures
        r@ == enc_collection(c@),
{
    let mut out: Vec<u8> = Vec::new();
    write_bytes(&mut out, &c.name);
    write_bytes(&mut out, &c.full_name);
    write_bytes(&mut out, &c.descriptor);
    write_u64(&mut out, c.fields.len() as u64);
    let ghost base = out@;
    let mut i: usize = 0;
    while i < c.fields.len()
        invariant
            i <= c.fields@.len(),
            out@ == base + enc_fields(c@.fields.take(i as int)),
        decreases c.fields@.len() - i,
    {
        proof {
            assert(c@.fields.take(i + 1) =~= c@.fields.take(i as int).push(c@.fields[i as int]));
            lemma_enc_fields_push(c@.fields.take(i as int), c@.fields[i as int]);
        }
        write_field(&mut out, &c.fields[i]);
        assert(out@ =~= base + enc_fields(c@.fields.take(i + 1)));
        i += 1;
    }
    assert(c@.fields.take(i as int) =~= c@.fields);
    write_u64(&mut out, c.indexes.len() as u64);
    let ghost base2 = out@;
    let mut k: usize = 0;
    while k < c.indexes.len()
        invariant
            k <= c.indexes@.len(),
            out@ == base2 + enc_indexes(c@.indexes.take(k as int)),
        decreases c.indexes@.len() - k,
    {
        proof {
            assert(c@.indexes.take(k + 1) =~= c@.indexes.take(k as int).push(
                c@.indexes[k as int],
            ));
            lemma_enc_indexes_push(c@.indexes.take(k as int), c@.indexes[k as int]);
        }
        write_index(&mut out, &c.indexes[k]);
        assert(out@ =~= base2 + enc_indexes(c@.indexes.take(k + 1)));
        k += 1;
    }
    assert(c@.indexes.take(k as int) =~= c@.indexes);
    assert(out@ =~= enc_collection(c@));
    out
}

/// Serialize a schema record.
pub fn encode_schema(s: &Schema) -> (r: Vec<u8>)
    ensures
        r@ == enc_schema(s@),
{
    let mut out: Vec<u8> = Vec::new();
    write_bytes(&mut out, &s.schema_id);
    write_u64(&mut out, s.schema_version);
    write_bytes(&mut out, &s.schema_definition);
    assert(out@ =~= enc_schema(s@));
    out
}

/// Serialize a schema-version record.
pub fn encode_schema_version(v: &SchemaVersion) -> (r: Vec<u8>)
    ensures
        r@ == enc_schema_version(v@),
{
    let mut out: Vec<u8> = Vec::new();
    write_bytes(&mut out, &v.schema_id);
    write_u64(&mut out, v.version_number);
    if v.is_current {
        out.push(1u8);
    } else {
        out.push(0u8);
    }
    assert(out@ =~= enc_schema_version(v@));
    out
}

/// Serialize an index record.
pub fn encode_index(x: &Index) -> (r: Vec<u8>)
    ensures
        r@ == enc_index(x@),
{
    let mut out: Vec<u8> = Vec::new();
    write_index(&mut out, x);
    assert(out@ =~= enc_index(x@));
    out
}

} // verus!

verus! {

/// Views of a vector of fields / indexes.
pub open spec fn fields_view(s: Seq<Field>) -> Seq<FieldView> {
    Seq::new(s.len(), |i: int| s[i]@)
}

pub open spec fn indexes_view(s: Seq<Index>) -> Seq<IndexView> {
    Seq::new(s.len(), |i: int| s[i]@)
}

fn decode_field(buf: &Vec<u8>, pos: usize) -> (r: Option<(Field, usize)>)
    ensures
        match r {
            Some((f, p)) => {
                &&& pos <= p <= buf@.len()
                &&& valid_field(f@)
                &&& buf@.subrange(pos as int, p as int) == enc_field(f@)
                &&& p >= pos + 16
            },
            None => true,
        },
        forall|fv: FieldView|
            valid_field(fv) && pos + enc_field(fv).len() <= buf@.len() && buf@.subrange(
                pos as int,
                pos + enc_field(fv).len() as int,
            ) == enc_field(fv) ==> (r matches Some(rp) && rp.0@ == fv && rp.1 == pos + enc_field(
                fv,
            ).len()),
{
    let name_read = read_bytes(buf, pos);
    proof {
        assert forall|fv: FieldView|
            valid_field(fv) && pos + enc_field(fv).len() <= buf@.len() && buf@.subrange(
                pos as int,
                pos + enc_field(fv).len() as int,
            ) == enc_field(fv) implies pos + 8 <= buf@.len() && pos + 8 + dec_rec(
            buf@.subrange(pos as int, pos + 8),
        ) <= buf@.len() by {
            lemma_enc_rec_len(fv.field_type as nat, 8);
            lemma_enc_rec_len(fv.name.len() as nat, 8);
            lemma_split_at(buf@, pos as int, enc_bytes(fv.name), enc_u64(fv.field_type));
            lemma_chunk_at(buf@, pos as int, fv.name);
        }
    }
    let (name, p1) = match name_read {
        None => {
            return None;
        },
        Some(x) => x,
    };
    let t_read = read_u64(buf, p1);
    proof {
        assert forall|fv: FieldView|
            valid_field(fv) && pos + enc_field(fv).len() <= buf@.len() && buf@.subrange(
                pos as int,
                pos + enc_field(fv).len() as int,
            ) == enc_field(fv) implies p1 + 8 <= buf@.len() by {
            lemma_enc_rec_len(fv.field_type as nat, 8);
            lemma_enc_rec_len(fv.name.len() as nat, 8);
            lemma_split_at(buf@, pos as int, enc_bytes(fv.name), enc_u64(fv.field_type));
            lemma_chunk_at(buf@, pos as int, fv.name);
        }
    }
    let (ft, p2) = match t_read {
        None => {
            return None;
        },
        Some(x) => x,
    };
    let f = Field { name, field_type: ft };
    proof {
        lemma_enc_dec(buf@.subrange(p1 as int, p1 + 8), 8);
        assert(buf@.subrange(p1 as int, p1 + 8) == enc_u64(ft));
        assert(buf@.subrange(pos as int, p2 as int) =~= buf@.subrange(pos as int, p1 as int)
            + buf@.subrange(p1 as int, p2 as int));
        assert(buf@.subrange(pos as int, p2 as int) == enc_field(f@));
        lemma_enc_rec_len(f@.name.len() as nat, 8);
        assert forall|fv: FieldView|
            valid_field(fv) && pos + enc_field(fv).len() <= buf@.len() && buf@.subrange(
                pos as int,
                pos + enc_field(fv).len() as int,
            ) == enc_field(fv) implies f@ == fv && p2 == pos + enc_field(fv).len() by {
            lemma_enc_rec_len(fv.field_type as nat, 8);
            lemma_enc_rec_len(fv.name.len() as nat, 8);
            lemma_split_at(buf@, pos as int, enc_bytes(fv.name), enc_u64(fv.field_type));
            lemma_chunk_at(buf@, pos as int, fv.name);
            assert(name@ == fv.name);
            lemma_u64_at(buf@, pos + 8 + fv.name.len() as int, fv.field_type);
        }
    }
    Some((f, p2))
}

fn decode_index(buf: &Vec<u8>, pos: usize) -> (r: Option<(Index, usize)>)
    ensures
        match r {
            Some((x, p)) => {
                &&& pos <= p <= buf@.len()
                &&& valid_index(x@)
                &&& buf@.subrange(pos as int, p as int) == enc_index(x@)
                &&& p >= pos + 32
            },
            None => true,
        },
        forall|xv: IndexView|
            valid_index(xv) && pos + enc_index(xv).len() <= buf@.len() && buf@.subrange(
                pos as int,
                pos + enc_index(xv).len() as int,
            ) == enc_index(xv) ==> (r matches Some(rp) && rp.0@ == xv && rp.1 == pos + enc_index(
                xv,
            ).len()),
{
    proof {
        assert forall|xv: IndexView|
            valid_index(xv) && pos + enc_index(xv).len() <= buf@.len() && buf@.subrange(
                pos as int,
                pos + enc_index(xv).len() as int,
            ) == enc_index(xv) implies index_parts_at(buf@, pos as int, xv) by {
            lemma_index_parts(buf@, pos as int, xv);
        }
    }
    let (index_id, p1) = match read_bytes(buf, pos) {
        None => {
            return None;
        },
        Some(x) => x,
    };
    let (schema_id, p2) = match read_bytes(buf, p1) {
        None => {
            return None;
        },
        Some(x) => x,
    };
    let (field_name, p3) = match read_bytes(buf, p2) {
        None => {
            return None;
        },
        Some(x) => x,
    };
    let (it, p4) = match read_u64(buf, p3) {
        None => {
            return None;
        },
        Some(x) => x,
    };
    let x = Index { index_id, schema_id, field_name, index_type: it };
    proof {
        lemma_enc_dec(buf@.subrange(p3 as int, p3 + 8), 8);
        assert(buf@.subrange(p3 as int, p3 + 8) == enc_u64(it));
        assert(buf@.subrange(pos as int, p4 as int) =~= buf@.subrange(pos as int, p1 as int)
            + buf@.subrange(p1 as int, p2 as int) + buf@.subrange(p2 as int, p3 as int)
            + buf@.subrange(p3 as int, p4 as int));
        assert(buf@.subrange(pos as int, p4 as int) == enc_index(x@));
        lemma_enc_rec_len(x@.index_id.len() as nat, 8);
        lemma_enc_rec_len(x@.schema_id.len() as nat, 8);
        lemma_enc_rec_len(x@.field_name.len() as nat, 8);
        assert forall|xv: IndexView|
            valid_index(xv) && pos + enc_index(xv).len() <= buf@.len() && buf@.subrange(
                pos as int,
                pos + enc_index(xv).len() as int,
            ) == enc_index(xv) implies x@ == xv && p4 == pos + enc_index(xv).len() by {
            lemma_index_parts(buf@, pos as int, xv);
            assert(index_id@ == xv.index_id);
            assert(schema_id@ == xv.schema_id);
            assert(field_name@ == xv.field_name);
        }
    }
    Some((x, p4))
}

/// The three byte strings and the type code of an encoded index record,
/// each in place at its own offset.
pub open spec fn index_parts_at(buf: Seq<u8>, pos: int, xv: IndexView) -> bool {
    let l1 = 8 + xv.index_id.len() as int;
    let l2 = 8 + xv.schema_id.len() as int;
    let l3 = 8 + xv.field_name.len() as int;
    &&& pos + l1 + l2 + l3 + 8 <= buf.len()
    &&& pos + 8 <= buf.len() && dec_rec(buf.subrange(pos, pos + 8)) == xv.index_id.len()
    &&& buf.subrange(pos + 8, pos + l1) == xv.index_id
    &&& dec_rec(buf.subrange(pos + l1, pos + l1 + 8)) == xv.schema_id.len()
    &&& buf.subrange(pos + l1 + 8, pos + l1 + l2) == xv.schema_id
    &&& dec_rec(buf.subrange(pos + l1 + l2, pos + l1 + l2 + 8)) == xv.field_name.len()
    &&& buf.subrange(pos + l1 + l2 + 8, pos + l1 + l2 + l3) == xv.field_name
    &&& dec_rec(buf.subrange(pos + l1 + l2 + l3, pos + l1 + l2 + l3 + 8)) == xv.index_type
}

pub proof fn lemma_index_parts(buf: Seq<u8>, pos: int, xv: IndexView)
    requires
        valid_index(xv),
        0 <= pos,
        pos + enc_index(xv).len() <= buf.len(),
        buf.subrange(pos, pos + enc_index(xv).len() as int) == enc_index(xv),
    ensures
        index_parts_at(buf, pos, xv),
{
    lemma_enc_rec_len(xv.index_id.len() as nat, 8);
    lemma_enc_rec_len(xv.schema_id.len() as nat, 8);
    lemma_enc_rec_len(xv.field_name.len() as nat, 8);
    lemma_enc_rec_len(xv.index_type as nat, 8);
    let a = enc_bytes(xv.index_id);
    let b = enc_bytes(xv.schema_id);
    let c = enc_bytes(xv.field_name);
    let d = enc_u64(xv.index_type);
    assert(buf.subrange(pos, pos + (a.len() + (b.len() + (c.len() + d.len())))) =~= a + (b + (c
        + d)));
    lemma_split_at(buf, pos, a, b + (c + d));
    lemma_split_at(buf, pos + a.len() as int, b, c + d);
    lemma_split_at(buf, pos + a.len() + b.len() as int, c, d);
    lemma_chunk_at(buf, pos, xv.index_id);
    lemma_chunk_at(buf, pos + a.len() as int, xv.schema_id);
    lemma_chunk_at(buf, pos + a.len() + b.len() as int, xv.field_name);
    lemma_u64_at(buf, pos + a.len() + b.len() + c.len() as int, xv.index_type);
}

} // verus!

verus! {

pub open spec fn valid_fields(s: Seq<FieldView>) -> bool {
    forall|i: int| 0 <= i < s.len() ==> valid_field(#[trigger] s[i])
}

pub open spec fn valid_indexes(s: Seq<IndexView>) -> bool {
    forall|i: int| 0 <= i < s.len() ==> valid_index(#[trigger] s[i])
}

fn decode_fields(buf: &Vec<u8>, pos: usize, count: u64) -> (r: Option<(Vec<Field>, usize)>)
    requires
        pos <= buf@.len(),
    ensures
        match r {
            Some((fs, p)) => {
                &&& pos <= p <= buf@.len()
                &&& fs@.len() == count
                &&& valid_fields(fields_view(fs@))
                &&& buf@.subrange(pos as int, p as int) == enc_fields(fields_view(fs@))
            },
            None => true,
        },
        forall|vs: Seq<FieldView>|
            vs.len() == count && valid_fields(vs) && pos + enc_fields(vs).len() <= buf@.len()
                && buf@.subrange(pos as int, pos + enc_fields(vs).len() as int) == enc_fields(vs)
                ==> (r matches Some(rp) && fields_view(rp.0@) == vs && rp.1 == pos + enc_fields(
                vs,
            ).len()),
    decreases count,
{
    if count == 0 {
        let fs: Vec<Field> = Vec::new();
        proof {
            assert(buf@.subrange(pos as int, pos as int) =~= Seq::<u8>::empty());
            assert(fields_view(fs@) =~= Seq::<FieldView>::empty());
            assert(enc_fields(fields_view(fs@)) == Seq::<u8>::empty());
            assert forall|vs: Seq<FieldView>|
                vs.len() == count && valid_fields(vs) && pos + enc_fields(vs).len() <= buf@.len()
                    && buf@.subrange(pos as int, pos + enc_fields(vs).len() as int) == enc_fields(
                    vs,
                ) implies fields_view(fs@) == vs && pos == pos + enc_fields(vs).len() by {
                assert(vs =~= fields_view(fs@));
            }
        }
        return Some((fs, pos));
    }
    let head = decode_field(buf, pos);
    proof {
        assert forall|vs: Seq<FieldView>|
            vs.len() == count && valid_fields(vs) && pos + enc_fields(vs).len() <= buf@.len()
                && buf@.subrange(pos as int, pos + enc_fields(vs).len() as int) == enc_fields(vs)
            implies head matches Some(hp) && hp.0@ == vs[0] && hp.1 == pos + enc_field(
            vs[0],
        ).len() by {
            assert(vs[0] == vs.first());
            assert(enc_fields(vs) == enc_field(vs[0]) + enc_fields(vs.skip(1)));
            lemma_split_at(buf@, pos as int, enc_field(vs[0]), enc_fields(vs.skip(1)));
        }
    }
    let (f, p1) = match head {
        None => {
            return None;
        },
        Some(x) => x,
    };
    let tail = decode_fields(buf, p1, count - 1);
    proof {
        assert forall|vs: Seq<FieldView>|
            vs.len() == count && valid_fields(vs) && pos + enc_fields(vs).len() <= buf@.len()
                && buf@.subrange(pos as int, pos + enc_fields(vs).len() as int) == enc_fields(vs)
            implies tail matches Some(tp) && fields_view(tp.0@) == vs.skip(1) && tp.1 == p1
            + enc_fields(vs.skip(1)).len() by {
            assert(enc_fields(vs) == enc_field(vs[0]) + enc_fields(vs.skip(1)));
            lemma_split_at(buf@, pos as int, enc_field(vs[0]), enc_fields(vs.skip(1)));
            assert(f@ == vs[0] && p1 == pos + enc_field(vs[0]).len());
            assert(vs.skip(1).len() == count - 1);
            assert(valid_fields(vs.skip(1))) by {
                assert forall|i: int| 0 <= i < vs.skip(1).len() implies valid_field(
                    #[trigger] vs.skip(1)[i],
                ) by {
                    assert(vs.skip(1)[i] == vs[i + 1]);
                }
            }
        }
    }
    let (rest, p2) = match tail {
        None => {
            return None;
        },
        Some(x) => x,
    };
    let ghost restv = rest@;
    let mut fs = rest;
    fs.insert(0, f);
    proof {
        assert(fs@ =~= seq![f] + restv);
        let w = fields_view(fs@);
        assert(w[0] == f@);
        assert(w.skip(1) =~= fields_view(restv)) by {
            assert forall|i: int| 0 <= i < restv.len() implies #[trigger] w.skip(1)[i]
                == fields_view(restv)[i] by {
                assert(w.skip(1)[i] == w[i + 1]);
                assert(fs@[i + 1] == restv[i]);
            }
        }
        assert(enc_fields(w) == enc_field(w[0]) + enc_fields(w.skip(1)));
        assert(buf@.subrange(pos as int, p2 as int) =~= buf@.subrange(pos as int, p1 as int)
            + buf@.subrange(p1 as int, p2 as int));
        assert(buf@.subrange(pos as int, p2 as int) == enc_fields(w));
        assert(valid_fields(w)) by {
            assert forall|i: int| 0 <= i < w.len() implies valid_field(#[trigger] w[i]) by {
                if i > 0 {
                    assert(w[i] == fields_view(restv)[i - 1]);
                }
            }
        }
        assert forall|vs: Seq<FieldView>|
            vs.len() == count && valid_fields(vs) && pos + enc_fields(vs).len() <= buf@.len()
                && buf@.subrange(pos as int, pos + enc_fields(vs).len() as int) == enc_fields(vs)
            implies fields_view(fs@) == vs && p2 == pos + enc_fields(vs).len() by {
            assert(enc_fields(vs) == enc_field(vs[0]) + enc_fields(vs.skip(1)));
            assert(f@ == vs[0]);
            assert(fields_view(restv) == vs.skip(1));
            assert(fields_view(fs@) =~= vs) by {
                assert forall|i: int| 0 <= i < vs.len() implies #[trigger] w[i] == vs[i] by {
                    if i > 0 {
                        assert(w[i] == w.skip(1)[i - 1]);
                        assert(vs[i] == vs.skip(1)[i - 1]);
                    }
                }
            }
        }
    }
    Some((fs, p2))
}

fn decode_indexes(buf: &Vec<u8>, pos: usize, count: u64) -> (r: Option<(Vec<Index>, usize)>)
    requires
        pos <= buf@.len(),
    ensures
        match r {
            Some((xs, p)) => {
                &&& pos <= p <= buf@.len()
                &&& xs@.len() == count
                &&& valid_indexes(indexes_view(xs@))
                &&& buf@.subrange(pos as int, p as int) == enc_indexes(indexes_view(xs@))
            },
            None => true,
        },
        forall|vs: Seq<IndexView>|
            vs.len() == count && valid_indexes(vs) && pos + enc_indexes(vs).len() <= buf@.len()
                && buf@.subrange(pos as int, pos + enc_indexes(vs).len() as int) == enc_indexes(
                vs,
            ) ==> (r matches Some(rp) && indexes_view(rp.0@) == vs && rp.1 == pos + enc_indexes(
                vs,
            ).len()),
    decreases count,
{
    if count == 0 {
        let xs: Vec<Index> = Vec::new();
        proof {
            assert(buf@.subrange(pos as int, pos as int) =~= Seq::<u8>::empty());
            assert(indexes_view(xs@) =~= Seq::<IndexView>::empty());
            assert(enc_indexes(indexes_view(xs@)) == Seq::<u8>::empty());
            assert forall|vs: Seq<IndexView>|
                vs.len() == count && valid_indexes(vs) && pos + enc_indexes(vs).len()
                    <= buf@.len() && buf@.subrange(
                    pos as int,
                    pos + enc_indexes(vs).len() as int,
                ) == enc_indexes(vs) implies indexes_view(xs@) == vs && pos == pos + enc_indexes(
                vs,
            ).len() by {
                assert(vs =~= indexes_view(xs@));
            }
        }
        return Some((xs, pos));
    }
    let head = decode_index(buf, pos);
    proof {
        assert forall|vs: Seq<IndexView>|
            vs.len() == count && valid_indexes(vs) && pos + enc_indexes(vs).len() <= buf@.len()
                && buf@.subrange(pos as int, pos + enc_indexes(vs).len() as int) == enc_indexes(
                vs,
            ) implies head matches Some(hp) && hp.0@ == vs[0] && hp.1 == pos + enc_index(
            vs[0],
        ).len() by {
            assert(enc_indexes(vs) == enc_index(vs[0]) + enc_indexes(vs.skip(1)));
            lemma_split_at(buf@, pos as int, enc_index(vs[0]), enc_indexes(vs.skip(1)));
        }
    }
    let (x, p1) = match head {
        None => {
            return None;
        },
        Some(v) => v,
    };
    let tail = decode_indexes(buf, p1, count - 1);
    proof {
        assert forall|vs: Seq<IndexView>|
            vs.len() == count && valid_indexes(vs) && pos + enc_indexes(vs).len() <= buf@.len()
                && buf@.subrange(pos as int, pos + enc_indexes(vs).len() as int) == enc_indexes(
                vs,
            ) implies tail matches Some(tp) && indexes_view(tp.0@) == vs.skip(1) && tp.1 == p1
            + enc_indexes(vs.skip(1)).len() by {
            assert(enc_indexes(vs) == enc_index(vs[0]) + enc_indexes(vs.skip(1)));
            lemma_split_at(buf@, pos as int, enc_index(vs[0]), enc_indexes(vs.skip(1)));
            assert(x@ == vs[0] && p1 == pos + enc_index(vs[0]).len());
            assert(vs.skip(1).len() == count - 1);
            assert(valid_indexes(vs.skip(1))) by {
                assert forall|i: int| 0 <= i < vs.skip(1).len() implies valid_index(
                    #[trigger] vs.skip(1)[i],
                ) by {
                    assert(vs.skip(1)[i] == vs[i + 1]);
                }
            }
        }
    }
    let (rest, p2) = match tail {
        None => {
            return None;
        },
        Some(v) => v,
    };
    let ghost restv = rest@;
    let mut xs = rest;
    xs.insert(0, x);
    proof {
        assert(xs@ =~= seq![x] + restv);
        let w = indexes_view(xs@);
        assert(w[0] == x@);
        assert(w.skip(1) =~= indexes_view(restv)) by {
            assert forall|i: int| 0 <= i < restv.len() implies #[trigger] w.skip(1)[i]
                == indexes_view(restv)[i] by {
                assert(w.skip(1)[i] == w[i + 1]);
                assert(xs@[i + 1] == restv[i]);
            }
        }
        assert(enc_indexes(w) == enc_index(w[0]) + enc_indexes(w.skip(1)));
        assert(buf@.subrange(pos as int, p2 as int) =~= buf@.subrange(pos as int, p1 as int)
            + buf@.subrange(p1 as int, p2 as int));
        assert(buf@.subrange(pos as int, p2 as int) == enc_indexes(w));
        assert(valid_indexes(w)) by {
            assert forall|i: int| 0 <= i < w.len() implies valid_index(#[trigger] w[i]) by {
                if i > 0 {
                    assert(w[i] == indexes_view(restv)[i - 1]);
                }
            }
        }
        assert forall|vs: Seq<IndexView>|
            vs.len() == count && valid_indexes(vs) && pos + enc_indexes(vs).len() <= buf@.len()
                && buf@.subrange(pos as int, pos + enc_indexes(vs).len() as int) == enc_indexes(
                vs,
            ) implies indexes_view(xs@) == vs && p2 == pos + enc_indexes(vs).len() by {
            assert(enc_indexes(vs) == enc_index(vs[0]) + enc_indexes(vs.skip(1)));
            assert(x@ == vs[0]);
            assert(indexes_view(restv) == vs.skip(1));
            assert(indexes_view(xs@) =~= vs) by {
                assert forall|i: int| 0 <= i < vs.len() implies #[trigger] w[i] == vs[i] by {
                    if i > 0 {
                        assert(w[i] == w.skip(1)[i - 1]);
                        assert(vs[i] == vs.skip(1)[i - 1]);
                    }
                }
            }
        }
    }
    Some((xs, p2))
}

} // verus!

verus! {

/// The seven components of an encoded collection record, each in place.
pub open spec fn collection_parts_at(buf: Seq<u8>, cv: CollectionView) -> bool {
    let l1 = 8 + cv.name.len() as int;
    let l2 = 8 + cv.full_name.len() as int;
    let l3 = 8 + cv.descriptor.len() as int;
    let o3 = l1 + l2 + l3;
    let lf = enc_fields(cv.fields).len() as int;
    let o4 = o3 + 8 + lf;
    let li = enc_indexes(cv.indexes).len() as int;
    &&& buf.len() == o4 + 8 + li
    &&& dec_rec(buf.subrange(0, 8)) == cv.name.len()
    &&& buf.subrange(8, l1) == cv.name
    &&& dec_rec(buf.subrange(l1, l1 + 8)) == cv.full_name.len()
    &&& buf.subrange(l1 + 8, l1 + l2) == cv.full_name
    &&& dec_rec(buf.subrange(l1 + l2, l1 + l2 + 8)) == cv.descriptor.len()
    &&& buf.subrange(l1 + l2 + 8, o3) == cv.descriptor
    &&& dec_rec(buf.subrange(o3, o3 + 8)) == cv.fields.len()
    &&& buf.subrange(o3 + 8, o4) == enc_fields(cv.fields)
    &&& dec_rec(buf.subrange(o4, o4 + 8)) == cv.indexes.len()
    &&& buf.subrange(o4 + 8, o4 + 8 + li) == enc_indexes(cv.indexes)
}

pub proof fn lemma_collection_parts(buf: Seq<u8>, cv: CollectionView)
    requires
        valid_collection(cv),
        buf == enc_collection(cv),
    ensures
        collection_parts_at(buf, cv),
{
    lemma_enc_rec_len(cv.name.len() as nat, 8);
    lemma_enc_rec_len(cv.full_name.len() as nat, 8);
    lemma_enc_rec_len(cv.descriptor.len() as nat, 8);
    lemma_enc_rec_len(cv.fields.len() as nat, 8);
    lemma_enc_rec_len(cv.indexes.len() as nat, 8);
    let a = enc_bytes(cv.name);
    let b = enc_bytes(cv.full_name);
    let c = enc_bytes(cv.descriptor);
    let d = enc_u64(cv.fields.len() as u64);
    let e = enc_fields(cv.fields);
    let f = enc_u64(cv.indexes.len() as u64);
    let g = enc_indexes(cv.indexes);
    assert(buf.subrange(0, buf.len() as int) =~= a + (b + (c + (d + (e + (f + g))))));
    lemma_split_at(buf, 0, a, b + (c + (d + (e + (f + g)))));
    lemma_split_at(buf, a.len() as int, b, c + (d + (e + (f + g))));
    lemma_split_at(buf, a.len() + b.len() as int, c, d + (e + (f + g)));
    lemma_split_at(buf, a.len() + b.len() + c.len() as int, d, e + (f + g));
    lemma_split_at(buf, a.len() + b.len() + c.len() + d.len() as int, e, f + g);
    lemma_split_at(buf, a.len() + b.len() + c.len() + d.len() + e.len() as int, f, g);
    lemma_chunk_at(buf, 0, cv.name);
    lemma_chunk_at(buf, a.len() as int, cv.full_name);
    lemma_chunk_at(buf, a.len() + b.len() as int, cv.descriptor);
    lemma_u64_at(buf, a.len() + b.len() + c.len() as int, cv.fields.len() as u64);
    lemma_u64_at(buf, a.len() + b.len() + c.len() + d.len() + e.len() as int, cv.indexes.len() as u64);
}

/// Deserialize a collection record; inverse of `encode_collection`.
#[verifier::rlimit(100)]
#[verifier::spinoff_prover]
pub fn decode_collection(buf: &Vec<u8>) -> (r: Option<Collection>)
    ensures
        r matches Some(c) ==> valid_collection(c@) && buf@ == enc_collection(c@),
        forall|cv: CollectionView|
            valid_collection(cv) && buf@ == enc_collection(cv) ==> (r matches Some(c) && c@
                == cv),
{
    proof {
        assert forall|cv: CollectionView|
            valid_collection(cv) && buf@ == enc_collection(cv) implies collection_parts_at(
            buf@,
            cv,
        ) by {
            lemma_collection_parts(buf@, cv);
        }
    }
    let (name, p1) = match read_bytes(buf, 0) {
        None => {
            return None;
        },
        Some(v) => v,
    };
    let (full_name, p2) = match read_bytes(buf, p1) {
        None => {
            return None;
        },
        Some(v) => v,
    };
    let (descriptor, p3) = match read_bytes(buf, p2) {
        None => {
            return None;
        },
        Some(v) => v,
    };
    let (nf, p4) = match read_u64(buf, p3) {
        None => {
            return None;
        },
        Some(v) => v,
    };
    let fr = decode_fields(buf, p4, nf);
    proof {
        assert forall|cv: CollectionView|
            valid_collection(cv) && buf@ == enc_collection(cv) implies fr matches Some(fp)
            && fields_view(fp.0@) == cv.fields && fp.1 == p4 + enc_fields(cv.fields).len() by {
            lemma_collection_parts(buf@, cv);
        }
    }
    let (fields, p5) = match fr {
        None => {
            return None;
        },
        Some(v) => v,
    };
    let (ni, p6) = match read_u64(buf, p5) {
        None => {
            return None;
        },
        Some(v) => v,
    };
    let xr = decode_indexes(buf, p6, ni);
    proof {
        assert forall|cv: CollectionView|
            valid_collection(cv) && buf@ == enc_collection(cv) implies xr matches Some(xp)
            && indexes_view(xp.0@) == cv.indexes && xp.1 == p6 + enc_indexes(
            cv.indexes,
        ).len() by {
            lemma_collection_parts(buf@, cv);
        }
    }
    let (indexes, p7) = match xr {
        None => {
            return None;
        },
        Some(v) => v,
    };
    if p7 != buf.len() {
        proof {
            assert forall|cv: CollectionView|
                valid_collection(cv) && buf@ == enc_collection(cv) implies false by {
                lemma_collection_parts(buf@, cv);
            }
        }
        return None;
    }
    let c = Collection { name, full_name, descriptor, fields, indexes };
    proof {
        lemma_enc_dec(buf@.subrange(p3 as int, p3 + 8), 8);
        lemma_enc_dec(buf@.subrange(p5 as int, p5 + 8), 8);
        assert(buf@.subrange(p3 as int, p3 + 8) == enc_u64(nf));
        assert(buf@.subrange(p5 as int, p5 + 8) == enc_u64(ni));
        assert(c@.fields =~= fields_view(fields@));
        assert(c@.indexes =~= indexes_view(indexes@));
        assert(buf@ =~= buf@.subrange(0, p1 as int) + buf@.subrange(p1 as int, p2 as int)
            + buf@.subrange(p2 as int, p3 as int) + buf@.subrange(p3 as int, p4 as int)
            + buf@.subrange(p4 as int, p5 as int) + buf@.subrange(p5 as int, p6 as int)
            + buf@.subrange(p6 as int, p7 as int));
        assert(buf@ == enc_collection(c@));
        assert forall|cv: CollectionView|
            valid_collection(cv) && buf@ == enc_collection(cv) implies c@ == cv by {
            lemma_collection_parts(buf@, cv);
            assert(name@ == cv.name);
            assert(full_name@ == cv.full_name);
            assert(descriptor@ == cv.descriptor);
            assert(c@.fields == cv.fields);
            assert(c@.indexes == cv.indexes);
        }
    }
    Some(c)
}

/// Deserialize a schema record; inverse of `encode_schema`.
pub fn decode_schema(buf: &Vec<u8>) -> (r: Option<Schema>)
    ensures
        r matches Some(s) ==> valid_schema(s@) && buf@ == enc_schema(s@),
        forall|sv: SchemaView|
            valid_schema(sv) && buf@ == enc_schema(sv) ==> (r matches Some(s) && s@ == sv),
{
    proof {
        assert forall|sv: SchemaView|
            valid_schema(sv) && buf@ == enc_schema(sv) implies schema_parts_at(buf@, sv) by {
            lemma_schema_parts(buf@, sv);
        }
    }
    let (schema_id, p1) = match read_bytes(buf, 0) {
        None => {
            return None;
        },
        Some(v) => v,
    };
    let (ver, p2) = match read_u64(buf, p1) {
        None => {
            return None;
        },
        Some(v) => v,
    };
    let (def, p3) = match read_bytes(buf, p2) {
        None => {
            return None;
        },
        Some(v) => v,
    };
    if p3 != buf.len() {
        proof {
            assert forall|sv: SchemaView|
                valid_schema(sv) && buf@ == enc_schema(sv) implies false by {
                lemma_schema_parts(buf@, sv);
            }
        }
        return None;
    }
    let s = Schema { schema_id, schema_version: ver, schema_definition: def };
    proof {
        lemma_enc_dec(buf@.subrange(p1 as int, p1 + 8), 8);
        assert(buf@.subrange(p1 as int, p1 + 8) == enc_u64(ver));
        assert(buf@ =~= buf@.subrange(0, p1 as int) + buf@.subrange(p1 as int, p2 as int)
            + buf@.subrange(p2 as int, p3 as int));
        assert(buf@ == enc_schema(s@));
        assert forall|sv: SchemaView|
            valid_schema(sv) && buf@ == enc_schema(sv) implies s@ == sv by {
            lemma_schema_parts(buf@, sv);
        }
    }
    Some(s)
}

/// The components of an encoded schema record, each in place.
pub open spec fn schema_parts_at(buf: Seq<u8>, sv: SchemaView) -> bool {
    let l1 = 8 + sv.schema_id.len() as int;
    let l3 = 8 + sv.schema_definition.len() as int;
    &&& buf.len() == l1 + 8 + l3
    &&& dec_rec(buf.subrange(0, 8)) == sv.schema_id.len()
    &&& buf.subrange(8, l1) == sv.schema_id
    &&& dec_rec(buf.subrange(l1, l1 + 8)) == sv.schema_version
    &&& dec_rec(buf.subrange(l1 + 8, l1 + 16)) == sv.schema_definition.len()
    &&& buf.subrange(l1 + 16, l1 + 8 + l3) == sv.schema_definition
}

pub proof fn lemma_schema_parts(buf: Seq<u8>, sv: SchemaView)
    requires
        valid_schema(sv),
        buf == enc_schema(sv),
    ensures
        schema_parts_at(buf, sv),
{
    lemma_enc_rec_len(sv.schema_id.len() as nat, 8);
    lemma_enc_rec_len(sv.schema_version as nat, 8);
    lemma_enc_rec_len(sv.schema_definition.len() as nat, 8);
    let a = enc_bytes(sv.schema_id);
    let b = enc_u64(sv.schema_version);
    let c = enc_bytes(sv.schema_definition);
    assert(buf.subrange(0, buf.len() as int) =~= a + (b + c));
    lemma_split_at(buf, 0, a, b + c);
    lemma_split_at(buf, a.len() as int, b, c);
    lemma_chunk_at(buf, 0, sv.schema_id);
    lemma_u64_at(buf, a.len() as int, sv.schema_version);
    lemma_chunk_at(buf, a.len() + b.len() as int, sv.schema_definition);
}

/// Deserialize a schema-version record; inverse of `encode_schema_version`.
pub fn decode_schema_version(buf: &Vec<u8>) -> (r: Option<SchemaVersion>)
    ensures
        r matches Some(v) ==> valid_schema_version(v@) && buf@ == enc_schema_version(v@),
        forall|vv: SchemaVersionView|
            valid_schema_version(vv) && buf@ == enc_schema_version(vv) ==> (r matches Some(v)
                && v@ == vv),
{
    proof {
        assert forall|vv: SchemaVersionView|
            valid_schema_version(vv) && buf@ == enc_schema_version(vv) implies sv_parts_at(
            buf@,
            vv,
        ) by {
            lemma_sv_parts(buf@, vv);
        }
    }
    let (schema_id, p1) = match read_bytes(buf, 0) {
        None => {
            return None;
        },
        Some(v) => v,
    };
    let (ver, p2) = match read_u64(buf, p1) {
        None => {
            return None;
        },
        Some(v) => v,
    };
    if p2 >= buf.len() {
        proof {
            assert forall|vv: SchemaVersionView|
                valid_schema_version(vv) && buf@ == enc_schema_version(vv) implies false by {
                lemma_sv_parts(buf@, vv);
            }
        }
        return None;
    }
    if p2 + 1 != buf.len() {
        proof {
            assert forall|vv: SchemaVersionView|
                valid_schema_version(vv) && buf@ == enc_schema_version(vv) implies false by {
                lemma_sv_parts(buf@, vv);
            }
        }
        return None;
    }
    let flag = buf[p2];
    if flag > 1 {
        proof {
            assert forall|vv: SchemaVersionView|
                valid_schema_version(vv) && buf@ == enc_schema_version(vv) implies false by {
                lemma_sv_parts(buf@, vv);
            }
        }
        return None;
    }
    let v = SchemaVersion { schema_id, version_number: ver, is_current: flag == 1 };
    proof {
        lemma_enc_dec(buf@.subrange(p1 as int, p1 + 8), 8);
        assert(buf@.subrange(p1 as int, p1 + 8) == enc_u64(ver));
        assert(buf@ =~= buf@.subrange(0, p1 as int) + buf@.subrange(p1 as int, p2 as int) + seq![
            flag,
        ]);
        assert(buf@ == enc_schema_version(v@));
        assert forall|vv: SchemaVersionView|
            valid_schema_version(vv) && buf@ == enc_schema_version(vv) implies v@ == vv by {
            lemma_sv_parts(buf@, vv);
        }
    }
    Some(v)
}

/// The components of an encoded schema-version record, each in place.
pub open spec fn sv_parts_at(buf: Seq<u8>, vv: SchemaVersionView) -> bool {
    let l1 = 8 + vv.schema_id.len() as int;
    &&& buf.len() == l1 + 9
    &&& dec_rec(buf.subrange(0, 8)) == vv.schema_id.len()
    &&& buf.subrange(8, l1) == vv.schema_id
    &&& dec_rec(buf.subrange(l1, l1 + 8)) == vv.version_number
    &&& buf[l1 + 8] == (if vv.is_current {
        1u8
    } else {
        0u8
    })
}

pub proof fn lemma_sv_parts(buf: Seq<u8>, vv: SchemaVersionView)
    requires
        valid_schema_version(vv),
        buf == enc_schema_version(vv),
    ensures
        sv_parts_at(buf, vv),
{
    lemma_enc_rec_len(vv.schema_id.len() as nat, 8);
    lemma_enc_rec_len(vv.version_number as nat, 8);
    let a = enc_bytes(vv.schema_id);
    let b = enc_u64(vv.version_number);
    let c = seq![
        if vv.is_current {
            1u8
        } else {
            0u8
        },
    ];
    assert(buf.subrange(0, buf.len() as int) =~= a + (b + c));
    lemma_split_at(buf, 0, a, b + c);
    lemma_split_at(buf, a.len() as int, b, c);
    lemma_chunk_at(buf, 0, vv.schema_id);
    lemma_u64_at(buf, a.len() as int, vv.version_number);
    assert(buf.subrange(a.len() + b.len() as int, a.len() + b.len() + 1 as int) == c);
    assert(buf[a.len() + b.len() as int] == c[0]);
}

} // verus!
