//! Ordered key-value store with named column families.
//!
//! Each column family keeps its entries sorted in strict byte-lexicographic
//! key order, so iteration from a seek key yields ascending keys and every
//! key occurs at most once. `get` reads the latest `put`, and a prefix scan
//! returns exactly the entries whose key starts with the prefix, in order.

use vstd::prelude::*;
use crate::bytes::{lex_lt, is_prefix, lemma_lex_trichotomy, lemma_lex_transitive, bytes_eq,
    bytes_lt, bytes_starts_with};

verus! {

/// A named column family is missing at the moment of use.
#[derive(Debug, Clone, PartialEq, Eq)]
pub enum DBError {
    InvalidColumnFamily(Vec<u8>),
}

/// The entry list of a column family, as sequences of byte sequences.
pub open spec fn pairs_view(s: Seq<(Vec<u8>, Vec<u8>)>) -> Seq<(Seq<u8>, Seq<u8>)> {
    Seq::new(s.len(), |i: int| (s[i].0@, s[i].1@))
}

/// Entries sorted in strict ascending key order (hence keys are unique).
pub open spec fn sorted_strict(s: Seq<(Seq<u8>, Seq<u8>)>) -> bool {
    forall|i: int, j: int| 0 <= i < j < s.len() ==> lex_lt(#[trigger] s[i].0, #[trigger] s[j].0)
}

/// The value stored under `k`, if any.
pub open spec fn find_spec(s: Seq<(Seq<u8>, Seq<u8>)>, k: Seq<u8>) -> Option<Seq<u8>>
    decreases s.len(),
{
    if s.len() == 0 {
        None
    } else if s[0].0 == k {
        Some(s[0].1)
    } else {
        find_spec(s.skip(1), k)
    }
}

/// The entries after storing `v` under `k`, keeping sorted order.
pub open spec fn put_spec(s: Seq<(Seq<u8>, Seq<u8>)>, k: Seq<u8>, v: Seq<u8>) -> Seq<
    (Seq<u8>, Seq<u8>),
>
    decreases s.len(),
{
    if s.len() == 0 {
        seq![(k, v)]
    } else if lex_lt(k, s[0].0) {
        seq![(k, v)] + s
    } else if k == s[0].0 {
        seq![(k, v)] + s.skip(1)
    } else {
        seq![s[0]] + put_spec(s.skip(1), k, v)
    }
}

/// The entries whose key starts with `p`, in order.
pub open spec fn filter_prefix_spec(s: Seq<(Seq<u8>, Seq<u8>)>, p: Seq<u8>) -> Seq<
    (Seq<u8>, Seq<u8>),
>
    decreases s.len(),
{
    if s.len() == 0 {
        Seq::empty()
    } else if is_prefix(p, s[0].0) {
        seq![s[0]] + filter_prefix_spec(s.skip(1), p)
    } else {
        filter_prefix_spec(s.skip(1), p)
    }
}

/// Every key of `s` is strictly above `k`.
pub open spec fn above(k: Seq<u8>, s: Seq<(Seq<u8>, Seq<u8>)>) -> bool {
    forall|j: int| 0 <= j < s.len() ==> lex_lt(k, #[trigger] s[j].0)
}

pub proof fn lemma_sorted_skip(s: Seq<(Seq<u8>, Seq<u8>)>)
    requires
        sorted_strict(s),
        s.len() > 0,
    ensures
        sorted_strict(s.skip(1)),
        above(s[0].0, s.skip(1)),
{
    assert forall|i: int, j: int| 0 <= i < j < s.skip(1).len() implies lex_lt(
        #[trigger] s.skip(1)[i].0,
        #[trigger] s.skip(1)[j].0,
    ) by {
        assert(s.skip(1)[i] == s[i + 1]);
        assert(s.skip(1)[j] == s[j + 1]);
    }
    assert forall|j: int| 0 <= j < s.skip(1).len() implies lex_lt(
        s[0].0,
        #[trigger] s.skip(1)[j].0,
    ) by {
        assert(s.skip(1)[j] == s[j + 1]);
    }
}

pub proof fn lemma_cons_sorted(x: (Seq<u8>, Seq<u8>), s: Seq<(Seq<u8>, Seq<u8>)>)
    requires
        sorted_strict(s),
        above(x.0, s),
    ensures
        sorted_strict(seq![x] + s),
{
    let t = seq![x] + s;
    assert forall|i: int, j: int| 0 <= i < j < t.len() implies lex_lt(
        #[trigger] t[i].0,
        #[trigger] t[j].0,
    ) by {
        if i == 0 {
            assert(t[j] == s[j - 1]);
        } else {
            assert(t[i] == s[i - 1]);
            assert(t[j] == s[j - 1]);
        }
    }
}

/// Storing keeps the entries sorted, and `find_spec` afterwards returns the
/// stored value for the stored key and is unchanged for every other key.
pub proof fn lemma_put(s: Seq<(Seq<u8>, Seq<u8>)>, k: Seq<u8>, v: Seq<u8>)
    requires
        sorted_strict(s),
    ensures
        sorted_strict(put_spec(s, k, v)),
        find_spec(put_spec(s, k, v), k) == Some(v),
        forall|k2: Seq<u8>| k2 != k ==> #[trigger] find_spec(put_spec(s, k, v), k2) == find_spec(
            s,
            k2,
        ),
    decreases s.len(),
{
    let r = put_spec(s, k, v);
    if s.len() == 0 {
        assert(r == seq![(k, v)]);
        assert(r[0] == (k, v));
        assert(r.skip(1) =~= Seq::<(Seq<u8>, Seq<u8>)>::empty());
        assert forall|k2: Seq<u8>| k2 != k implies #[trigger] find_spec(r, k2) == find_spec(
            s,
            k2,
        ) by {
            assert(find_spec(r.skip(1), k2) == None::<Seq<u8>>);
        }
    } else {
        lemma_lex_trichotomy(k, s[0].0);
        lemma_sorted_skip(s);
        if lex_lt(k, s[0].0) {
            assert(r == seq![(k, v)] + s);
            assert(r[0] == (k, v));
            assert(above(k, s)) by {
                assert forall|j: int| 0 <= j < s.len() implies lex_lt(k, #[trigger] s[j].0) by {
                    if j > 0 {
                        lemma_lex_transitive(k, s[0].0, s[j].0);
                    }
                }
            }
            lemma_cons_sorted((k, v), s);
            assert(r.skip(1) =~= s);
        } else if k == s[0].0 {
            assert(r == seq![(k, v)] + s.skip(1));
            assert(r[0] == (k, v));
            lemma_cons_sorted((k, v), s.skip(1));
            assert(r.skip(1) =~= s.skip(1));
            assert forall|k2: Seq<u8>| k2 != k implies #[trigger] find_spec(r, k2) == find_spec(
                s,
                k2,
            ) by {
                assert(find_spec(r, k2) == find_spec(s.skip(1), k2));
            }
        } else {
            assert(lex_lt(s[0].0, k));
            lemma_put(s.skip(1), k, v);
            let r2 = put_spec(s.skip(1), k, v);
            assert(r == seq![s[0]] + r2);
            assert(above(s[0].0, r2)) by {
                assert forall|j: int| 0 <= j < r2.len() implies lex_lt(
                    s[0].0,
                    #[trigger] r2[j].0,
                ) by {
                    lemma_put_keys(s.skip(1), k, v, j);
                    if r2[j].0 == k {
                    } else {
                        let i = choose|i: int| 0 <= i < s.skip(1).len() && s.skip(1)[i].0
                            == r2[j].0;
                        assert(s.skip(1)[i] == s[i + 1]);
                    }
                }
            }
            lemma_cons_sorted(s[0], r2);
            assert(r[0] == s[0]);
            assert(r.skip(1) =~= r2);
            assert(find_spec(r, k) == find_spec(r2, k));
            assert forall|k2: Seq<u8>| k2 != k implies #[trigger] find_spec(r, k2) == find_spec(
                s,
                k2,
            ) by {
                if k2 == s[0].0 {
                    assert(find_spec(r, k2) == Some(r[0].1));
                } else {
                    assert(find_spec(r, k2) == find_spec(r2, k2));
                    assert(find_spec(s, k2) == find_spec(s.skip(1), k2));
                }
            }
        }
    }
}

/// Every key of `put_spec(s, k, v)` is `k` or a key of `s`.
pub proof fn lemma_put_keys(s: Seq<(Seq<u8>, Seq<u8>)>, k: Seq<u8>, v: Seq<u8>, j: int)
    requires
        0 <= j < put_spec(s, k, v).len(),
    ensures
        put_spec(s, k, v)[j].0 == k || exists|i: int|
            0 <= i < s.len() && #[trigger] s[i].0 == put_spec(s, k, v)[j].0,
    decreases s.len(),
{
    let r = put_spec(s, k, v);
    if s.len() == 0 {
    } else if lex_lt(k, s[0].0) {
        if j > 0 {
            assert(r[j] == s[j - 1]);
        }
    } else if k == s[0].0 {
        if j > 0 {
            assert(r[j] == s.skip(1)[j - 1]);
            assert(s.skip(1)[j - 1] == s[j]);
        }
    } else {
        if j == 0 {
            assert(r[0] == s[0]);
        } else {
            assert(r[j] == put_spec(s.skip(1), k, v)[j - 1]);
            lemma_put_keys(s.skip(1), k, v, j - 1);
            if put_spec(s.skip(1), k, v)[j - 1].0 != k {
                let i = choose|i: int| 0 <= i < s.skip(1).len() && #[trigger] s.skip(1)[i].0
                    == put_spec(s.skip(1), k, v)[j - 1].0;
                assert(s.skip(1)[i] == s[i + 1]);
            }
        }
    }
}

/// Membership in a prefix scan: exactly the entries of `s` under the prefix.
pub proof fn lemma_filter_prefix_members(s: Seq<(Seq<u8>, Seq<u8>)>, p: Seq<u8>)
    ensures
        forall|e: (Seq<u8>, Seq<u8>)| #[trigger] filter_prefix_spec(s, p).contains(e) <==> (
        s.contains(e) && is_prefix(p, e.0)),
    decreases s.len(),
{
    let r = filter_prefix_spec(s, p);
    if s.len() == 0 {
        assert forall|e: (Seq<u8>, Seq<u8>)| !(#[trigger] r.contains(e)) by {
            assert(r.len() == 0);
        }
        assert forall|e: (Seq<u8>, Seq<u8>)| !(#[trigger] s.contains(e)) by {
            assert(s.len() == 0);
        }
    } else {
        lemma_filter_prefix_members(s.skip(1), p);
        let r2 = filter_prefix_spec(s.skip(1), p);
        assert forall|e: (Seq<u8>, Seq<u8>)| #[trigger] s.skip(1).contains(e) implies s.contains(
            e,
        ) by {
            let i = choose|i: int| 0 <= i < s.skip(1).len() && s.skip(1)[i] == e;
            assert(s[i + 1] == e);
        }
        if is_prefix(p, s[0].0) {
            assert(r == seq![s[0]] + r2);
            assert forall|e: (Seq<u8>, Seq<u8>)| #[trigger] r.contains(e) implies (s.contains(e)
                && is_prefix(p, e.0)) by {
                let i = choose|i: int| 0 <= i < r.len() && r[i] == e;
                if i == 0 {
                    assert(s[0] == e);
                    assert(s.contains(e));
                } else {
                    assert(r2[i - 1] == e);
                    assert(r2.contains(e));
                }
            }
            assert forall|e: (Seq<u8>, Seq<u8>)| s.contains(e) && is_prefix(p, e.0)
                implies #[trigger] r.contains(e) by {
                let i = choose|i: int| 0 <= i < s.len() && s[i] == e;
                if i == 0 {
                    assert(r[0] == e);
                } else {
                    assert(s.skip(1)[i - 1] == e);
                    assert(s.skip(1).contains(e));
                    assert(r2.contains(e));
                    let j = choose|j: int| 0 <= j < r2.len() && r2[j] == e;
                    assert(r[j + 1] == e);
                }
            }
        } else {
            assert(r == r2);
            assert forall|e: (Seq<u8>, Seq<u8>)| s.contains(e) && is_prefix(p, e.0)
                implies #[trigger] r.contains(e) by {
                let i = choose|i: int| 0 <= i < s.len() && s[i] == e;
                if i == 0 {
                    assert(false);
                } else {
                    assert(s.skip(1)[i - 1] == e);
                    assert(s.skip(1).contains(e));
                }
            }
        }
    }
}

/// One column family: a named sorted list of key-value entries.
pub struct ColumnFamily {
    name: Vec<u8>,
    entries: Vec<(Vec<u8>, Vec<u8>)>,
}

/// Copy a byte vector.
pub fn clone_bytes(v: &Vec<u8>) -> (r: Vec<u8>)
    ensures
        r@ == v@,
{
    let mut r: Vec<u8> = Vec::new();
    let mut i: usize = 0;
    while i < v.len()
        invariant
            i <= v.len(),
            r@ == v@.take(i as int),
        decreases v.len() - i,
    {
        r.push(v[i]);
        assert(r@ =~= v@.take(i + 1));
        i += 1;
    }
    assert(r@ =~= v@);
    r
}

impl ColumnFamily {
    /// The entries, as sequences of byte sequences.
    pub closed spec fn view(&self) -> Seq<(Seq<u8>, Seq<u8>)> {
        pairs_view(self.entries@)
    }

    pub closed spec fn name_spec(&self) -> Seq<u8> {
        self.name@
    }

    /// Entries are sorted in strict ascending key order.
    pub open spec fn wf(&self) -> bool {
        sorted_strict(self@)
    }

    pub fn new(name: Vec<u8>) -> (r: ColumnFamily)
        ensures
            r@ =~= Seq::<(Seq<u8>, Seq<u8>)>::empty(),
            r.name_spec() == name@,
            r.wf(),
    {
        let r = ColumnFamily { name, entries: Vec::new() };
        assert(r@ =~= Seq::<(Seq<u8>, Seq<u8>)>::empty());
        r
    }

    pub fn name(&self) -> (r: Vec<u8>)
        ensures
            r@ == self.name_spec(),
    {
        clone_bytes(&self.name)
    }

    /// Point lookup: the value stored under `key`, if any.
    pub fn get_entry(&self, key: &Vec<u8>) -> (r: Option<Vec<u8>>)
        ensures
            match r {
                Some(v) => find_spec(self@, key@) == Some(v@),
                None => find_spec(self@, key@) is None,
            },
    {
        let mut i: usize = 0;
        assert(self@.skip(0) =~= self@);
        while i < self.entries.len()
            invariant
                i <= self.entries.len(),
                find_spec(self@, key@) == find_spec(self@.skip(i as int), key@),
        decreases self.entries.len() - i,
        {
            assert(self@[i as int] == (self.entries@[i as int].0@, self.entries@[i as int].1@));
            assert(self@.skip(i as int)[0] == self@[i as int]);
            assert(self@.skip(i as int).skip(1) =~= self@.skip(i + 1));
            if bytes_eq(&self.entries[i].0, key) {
                let v = clone_bytes(&self.entries[i].1);
                return Some(v);
            }
            i += 1;
        }
        assert(self@.skip(i as int).len() == 0);
        None
    }

    /// Store `value` under `key`, keeping sorted order; overwrites.
    pub fn put_entry(&mut self, key: Vec<u8>, value: Vec<u8>)
        requires
            old(self).wf(),
        ensures
            final(self).wf(),
            final(self)@ == put_spec(old(self)@, key@, value@),
            final(self).name_spec() == old(self).name_spec(),
    {
        let ghost s = self@;
        let ghost kk = key@;
        let mut i: usize = 0;
        loop
            invariant
                i <= self.entries.len(),
                s == self@,
                kk == key@,
                forall|j: int| 0 <= j < i ==> lex_lt(#[trigger] s[j].0, kk),
            ensures
                i <= self.entries.len(),
                s == self@,
                kk == key@,
                forall|j: int| 0 <= j < i ==> lex_lt(#[trigger] s[j].0, kk),
                i == self.entries.len() || !lex_lt(s[i as int].0, kk),
            decreases self.entries.len() - i,
        {
            if i >= self.entries.len() {
                break;
            }
            assert(s[i as int] == (self.entries@[i as int].0@, self.entries@[i as int].1@));
            if !bytes_lt(&self.entries[i].0, &key) {
                break;
            }
            i += 1;
        }
        proof {
            lemma_put(s, kk, value@);
        }
        if i < self.entries.len() && bytes_eq(&self.entries[i].0, &key) {
            proof {
                lemma_put_spec_at(s, kk, value@, i as int);
            }
            self.entries.set(i, (key, value));
            assert(self@ =~= s.take(i as int) + seq![(kk, value@)] + s.skip(i + 1));
        } else {
            proof {
                if i < self.entries.len() {
                    lemma_lex_trichotomy(s[i as int].0, kk);
                }
                lemma_put_spec_at(s, kk, value@, i as int);
            }
            self.entries.insert(i, (key, value));
            assert(self@ =~= s.take(i as int) + seq![(kk, value@)] + s.skip(i as int));
        }
    }

    /// All entries whose key starts with `prefix`, in ascending key order.
    pub fn scan(&self, prefix: &Vec<u8>) -> (r: Vec<(Vec<u8>, Vec<u8>)>)
        ensures
            pairs_view(r@) == filter_prefix_spec(self@, prefix@),
    {
        let mut r: Vec<(Vec<u8>, Vec<u8>)> = Vec::new();
        let mut i: usize = 0;
        assert(self@.skip(0) =~= self@);
        assert(pairs_view(r@) + filter_prefix_spec(self@, prefix@)
            =~= filter_prefix_spec(self@, prefix@));
        while i < self.entries.len()
            invariant
                i <= self.entries.len(),
                filter_prefix_spec(self@, prefix@) == pairs_view(r@) + filter_prefix_spec(
                    self@.skip(i as int),
                    prefix@,
                ),
            decreases self.entries.len() - i,
        {
            let ghost rv = pairs_view(r@);
            assert(self@[i as int] == (self.entries@[i as int].0@, self.entries@[i as int].1@));
            assert(self@.skip(i as int)[0] == self@[i as int]);
            assert(self@.skip(i as int).skip(1) =~= self@.skip(i + 1));
            if bytes_starts_with(&self.entries[i].0, prefix) {
                let k = clone_bytes(&self.entries[i].0);
                let v = clone_bytes(&self.entries[i].1);
                r.push((k, v));
                proof {
                    let rv2 = pairs_view(r@);
                    assert(rv2 =~= rv.push((self@[i as int].0, self@[i as int].1)));
                    assert(rv + (seq![self@[i as int]] + filter_prefix_spec(
                        self@.skip(i + 1),
                        prefix@,
                    )) =~= rv2 + filter_prefix_spec(self@.skip(i + 1), prefix@));
                }
            }
            i += 1;
        }
        assert(self@.skip(i as int).len() == 0);
        assert(filter_prefix_spec(self@.skip(i as int), prefix@)
            =~= Seq::<(Seq<u8>, Seq<u8>)>::empty());
        assert(filter_prefix_spec(self@, prefix@) =~= pairs_view(r@));
        r
    }
}

/// Where the linear search stops, `put_spec` is a splice at that position.
pub proof fn lemma_put_spec_at(s: Seq<(Seq<u8>, Seq<u8>)>, k: Seq<u8>, v: Seq<u8>, i: int)
    requires
        sorted_strict(s),
        0 <= i <= s.len(),
        forall|j: int| 0 <= j < i ==> lex_lt(#[trigger] s[j].0, k),
        i < s.len() ==> !lex_lt(s[i].0, k),
    ensures
        i < s.len() && s[i].0 == k ==> put_spec(s, k, v) == s.take(i) + seq![(k, v)] + s.skip(
            i + 1,
        ),
        (i == s.len() || s[i].0 != k) ==> put_spec(s, k, v) == s.take(i) + seq![(k, v)] + s.skip(
            i,
        ),
    decreases i,
{
    if i == 0 {
        if s.len() == 0 {
            assert(put_spec(s, k, v) =~= s.take(0) + seq![(k, v)] + s.skip(0));
        } else {
            lemma_lex_trichotomy(k, s[0].0);
            if s[0].0 == k {
                assert(put_spec(s, k, v) == seq![(k, v)] + s.skip(1));
                assert(put_spec(s, k, v) =~= s.take(0) + seq![(k, v)] + s.skip(1));
            } else {
                assert(lex_lt(k, s[0].0));
                assert(put_spec(s, k, v) == seq![(k, v)] + s);
                assert(put_spec(s, k, v) =~= s.take(0) + seq![(k, v)] + s.skip(0));
            }
        }
    } else {
        assert(lex_lt(s[0].0, k));
        lemma_lex_trichotomy(k, s[0].0);
        assert(put_spec(s, k, v) == seq![s[0]] + put_spec(s.skip(1), k, v));
        lemma_sorted_skip(s);
        assert forall|j: int| 0 <= j < i - 1 implies lex_lt(#[trigger] s.skip(1)[j].0, k) by {
            assert(s.skip(1)[j] == s[j + 1]);
        }
        if i - 1 < s.skip(1).len() {
            assert(s.skip(1)[i - 1] == s[i]);
        }
        lemma_put_spec_at(s.skip(1), k, v, i - 1);
        if i < s.len() && s[i].0 == k {
            assert(s.skip(1)[i - 1].0 == k);
            assert(put_spec(s.skip(1), k, v) == s.skip(1).take(i - 1) + seq![(k, v)] + s.skip(
                1,
            ).skip(i));
            assert(seq![s[0]] + (s.skip(1).take(i - 1) + seq![(k, v)] + s.skip(1).skip(i))
                =~= s.take(i) + seq![(k, v)] + s.skip(i + 1));
        } else {
            assert(put_spec(s.skip(1), k, v) == s.skip(1).take(i - 1) + seq![(k, v)] + s.skip(
                1,
            ).skip(i - 1));
            assert(seq![s[0]] + (s.skip(1).take(i - 1) + seq![(k, v)] + s.skip(1).skip(i - 1))
                =~= s.take(i) + seq![(k, v)] + s.skip(i));
        }
    }
}

} // verus!

use vstd::prelude::*;

verus! {

/// The whole store: a set of uniquely named column families.
pub struct Kv {
    cfs: Vec<ColumnFamily>,
}

impl Kv {
    pub closed spec fn cf_index(self, n: Seq<u8>) -> int {
        choose|i: int| 0 <= i < self.cfs@.len() && self.cfs@[i].name_spec() == n
    }

    /// Is there a column family named `n`?
    pub closed spec fn has_cf(self, n: Seq<u8>) -> bool {
        exists|i: int| 0 <= i < self.cfs@.len() && #[trigger] self.cfs@[i].name_spec() == n
    }

    /// The entries of the column family named `n`.
    pub closed spec fn cf_at(self, n: Seq<u8>) -> Seq<(Seq<u8>, Seq<u8>)> {
        self.cfs@[self.cf_index(n)]@
    }

    /// The names of the column families, in creation order.
    pub closed spec fn names(self) -> Seq<Seq<u8>> {
        Seq::new(self.cfs@.len(), |i: int| self.cfs@[i].name_spec())
    }

    /// Names are unique and every column family is sorted.
    pub closed spec fn wf(self) -> bool {
        &&& forall|i: int, j: int|
            0 <= i < j < self.cfs@.len() ==> (#[trigger] self.cfs@[i].name_spec())
                != (#[trigger] self.cfs@[j].name_spec())
        &&& forall|i: int| 0 <= i < self.cfs@.len() ==> (#[trigger] self.cfs@[i]).wf()
    }

    proof fn lemma_cf_at(self, i: int)
        requires
            self.wf(),
            0 <= i < self.cfs@.len(),
        ensures
            self.has_cf(self.cfs@[i].name_spec()),
            self.cf_index(self.cfs@[i].name_spec()) == i,
            self.cf_at(self.cfs@[i].name_spec()) == self.cfs@[i]@,
    {
        let n = self.cfs@[i].name_spec();
        assert(self.has_cf(n));
        let j = self.cf_index(n);
        assert(0 <= j < self.cfs@.len() && self.cfs@[j].name_spec() == n);
        if i != j {
            assert(false);
        }
    }

    /// Membership in `names()` is the same as `has_cf`.
    pub proof fn lemma_names_has_cf(self)
        ensures
            forall|n: Seq<u8>| self.has_cf(n) <==> self.names().contains(n),
    {
        assert forall|n: Seq<u8>| self.has_cf(n) implies self.names().contains(n) by {
            let i = choose|i: int| 0 <= i < self.cfs@.len() && #[trigger] self.cfs@[i].name_spec()
                == n;
            assert(self.names()[i] == n);
        }
        assert forall|n: Seq<u8>| self.names().contains(n) implies self.has_cf(n) by {
            let i = choose|i: int| 0 <= i < self.names().len() && self.names()[i] == n;
            assert(self.cfs@[i].name_spec() == n);
        }
    }

    /// An empty store with no column families.
    pub fn new() -> (r: Kv)
        ensures
            r.wf(),
            forall|n: Seq<u8>| !r.has_cf(n),
            r.names() =~= Seq::<Seq<u8>>::empty(),
    {
        Kv { cfs: Vec::new() }
    }

    fn find_cf(&self, name: &Vec<u8>) -> (r: Option<usize>)
        requires
            self.wf(),
        ensures
            match r {
                Some(i) => i < self.cfs@.len() && self.cfs@[i as int].name_spec() == name@
                    && self.has_cf(name@) && self.cf_at(name@) == self.cfs@[i as int]@,
                None => !self.has_cf(name@),
            },
    {
        let mut i: usize = 0;
        while i < self.cfs.len()
            invariant
                i <= self.cfs@.len(),
                self.wf(),
                forall|j: int| 0 <= j < i ==> (#[trigger] self.cfs@[j].name_spec()) != name@,
            decreases self.cfs@.len() - i,
        {
            let cn = self.cfs[i].name();
            if bytes_eq(&cn, name) {
                proof {
                    self.lemma_cf_at(i as int);
                }
                return Some(i);
            }
            i += 1;
        }
        None
    }

    /// Does a column family named `name` exist?
    pub fn cf_exists(&self, name: &Vec<u8>) -> (r: bool)
        requires
            self.wf(),
        ensures
            r == self.has_cf(name@),
    {
        match self.find_cf(name) {
            Some(_) => true,
            None => false,
        }
    }

    /// Create the column family `name` if it is missing; idempotent.
    pub fn create_cf(&mut self, name: Vec<u8>)
        requires
            old(self).wf(),
        ensures
            final(self).wf(),
            final(self).has_cf(name@),
            old(self).has_cf(name@) ==> *final(self) == *old(self),
            !old(self).has_cf(name@) ==> {
                &&& final(self).cf_at(name@) =~= Seq::<(Seq<u8>, Seq<u8>)>::empty()
                &&& final(self).names() =~= old(self).names().push(name@)
            },
            forall|n: Seq<u8>| n != name@ ==> #[trigger] final(self).has_cf(n) == old(
                self,
            ).has_cf(n),
            forall|n: Seq<u8>| n != name@ && old(self).has_cf(n) ==> #[trigger] final(self).cf_at(
                n,
            ) == old(self).cf_at(n),
    {
        let ghost olds = *self;
        match self.find_cf(&name) {
            Some(_) => {},
            None => {
                let ghost oldlen = self.cfs@.len() as int;
                let c = ColumnFamily::new(name);
                self.cfs.push(c);
                proof {
                    assert forall|i: int, j: int| 0 <= i < j < self.cfs@.len() implies (
                    #[trigger] self.cfs@[i].name_spec()) != (#[trigger] self.cfs@[j].name_spec())
                        by {
                        if j < oldlen {
                            assert(olds.cfs@[i] == self.cfs@[i]);
                            assert(olds.cfs@[j] == self.cfs@[j]);
                        } else {
                            assert(j == oldlen);
                            if i < oldlen {
                                assert(olds.cfs@[i] == self.cfs@[i]);
                                olds.lemma_cf_at(i);
                            }
                        }
                    }
                    assert(final(self).wf()) by {
                        assert forall|i: int| 0 <= i < self.cfs@.len() implies (
                        #[trigger] self.cfs@[i]).wf() by {
                            if i < oldlen {
                                assert(olds.cfs@[i] == self.cfs@[i]);
                            }
                        }
                    }
                    self.lemma_cf_at(oldlen);
                    assert forall|n: Seq<u8>| n != self.cfs@[oldlen].name_spec() implies (
                    #[trigger] self.has_cf(n)) == olds.has_cf(n) by {
                        if self.has_cf(n) {
                            let i = choose|i: int| 0 <= i < self.cfs@.len()
                                && #[trigger] self.cfs@[i].name_spec() == n;
                            assert(i < oldlen);
                            assert(olds.cfs@[i].name_spec() == n);
                        }
                        if olds.has_cf(n) {
                            let i = choose|i: int| 0 <= i < olds.cfs@.len()
                                && #[trigger] olds.cfs@[i].name_spec() == n;
                            assert(self.cfs@[i].name_spec() == n);
                        }
                    }
                    assert forall|n: Seq<u8>| n != self.cfs@[oldlen].name_spec() && olds.has_cf(n)
                        implies #[trigger] self.cf_at(n) == olds.cf_at(n) by {
                        let i = choose|i: int| 0 <= i < olds.cfs@.len()
                            && #[trigger] olds.cfs@[i].name_spec() == n;
                        olds.lemma_cf_at(i);
                        assert(self.cfs@[i] == olds.cfs@[i]);
                        self.lemma_cf_at(i);
                    }
                    assert(final(self).names() =~= olds.names().push(
                        self.cfs@[oldlen].name_spec(),
                    ));
                }
            },
        }
    }

    /// Point read from the column family `cf`.
    pub fn get(&self, cf: &Vec<u8>, key: &Vec<u8>) -> (r: Result<Option<Vec<u8>>, DBError>)
        requires
            self.wf(),
        ensures
            match r {
                Ok(o) => self.has_cf(cf@) && (match o {
                    Some(v) => find_spec(self.cf_at(cf@), key@) == Some(v@),
                    None => find_spec(self.cf_at(cf@), key@) is None,
                }),
                Err(e) => !self.has_cf(cf@) && (e matches DBError::InvalidColumnFamily(n)
                    && n@ == cf@),
            },
    {
        match self.find_cf(cf) {
            None => Err(DBError::InvalidColumnFamily(clone_bytes(cf))),
            Some(i) => Ok(self.cfs[i].get_entry(key)),
        }
    }

    /// Store `value` under `key` in the column family `cf`.
    pub fn put(&mut self, cf: &Vec<u8>, key: Vec<u8>, value: Vec<u8>) -> (r: Result<(), DBError>)
        requires
            old(self).wf(),
        ensures
            final(self).wf(),
            match r {
                Ok(()) => {
                    &&& old(self).has_cf(cf@)
                    &&& final(self).cf_at(cf@) == put_spec(old(self).cf_at(cf@), key@, value@)
                    &&& forall|n: Seq<u8>| #[trigger] final(self).has_cf(n) == old(self).has_cf(n)
                    &&& forall|n: Seq<u8>| n != cf@ && old(self).has_cf(n)
                        ==> #[trigger] final(self).cf_at(n) == old(self).cf_at(n)
                    &&& final(self).names() == old(self).names()
                },
                Err(e) => !old(self).has_cf(cf@) && *final(self) == *old(self) && (
                e matches DBError::InvalidColumnFamily(n) && n@ == cf@),
            },
    {
        let ghost olds = *self;
        match self.find_cf(cf) {
            None => Err(DBError::InvalidColumnFamily(clone_bytes(cf))),
            Some(i) => {
                let mut c = self.cfs.remove(i);
                c.put_entry(key, value);
                self.cfs.insert(i, c);
                proof {
                    assert(self.cfs@ =~= olds.cfs@.update(i as int, self.cfs@[i as int]));
                    assert(self.cfs@[i as int].name_spec() == cf@);
                    assert(final(self).wf()) by {
                        assert forall|a: int, b: int| 0 <= a < b < self.cfs@.len() implies (
                        #[trigger] self.cfs@[a].name_spec()) != (
                        #[trigger] self.cfs@[b].name_spec()) by {
                            assert(olds.cfs@[a].name_spec() == self.cfs@[a].name_spec());
                            assert(olds.cfs@[b].name_spec() == self.cfs@[b].name_spec());
                        }
                        assert forall|a: int| 0 <= a < self.cfs@.len() implies (
                        #[trigger] self.cfs@[a]).wf() by {
                            if a != i {
                                assert(self.cfs@[a] == olds.cfs@[a]);
                            }
                        }
                    }
                    self.lemma_cf_at(i as int);
                    olds.lemma_cf_at(i as int);
                    assert forall|n: Seq<u8>| (#[trigger] self.has_cf(n)) == olds.has_cf(n) by {
                        if self.has_cf(n) {
                            let a = choose|a: int| 0 <= a < self.cfs@.len()
                                && #[trigger] self.cfs@[a].name_spec() == n;
                            assert(olds.cfs@[a].name_spec() == n);
                        }
                        if olds.has_cf(n) {
                            let a = choose|a: int| 0 <= a < olds.cfs@.len()
                                && #[trigger] olds.cfs@[a].name_spec() == n;
                            assert(self.cfs@[a].name_spec() == n);
                        }
                    }
                    assert forall|n: Seq<u8>| n != cf@ && olds.has_cf(n)
                        implies #[trigger] self.cf_at(n) == olds.cf_at(n) by {
                        let a = choose|a: int| 0 <= a < olds.cfs@.len()
                            && #[trigger] olds.cfs@[a].name_spec() == n;
                        olds.lemma_cf_at(a);
                        assert(a != i);
                        assert(self.cfs@[a] == olds.cfs@[a]);
                        self.lemma_cf_at(a);
                    }
                    assert(final(self).names() =~= olds.names());
                }
                Ok(())
            },
        }
    }

    /// All entries of `cf` whose key starts with `prefix`, ascending.
    pub fn scan_prefix(&self, cf: &Vec<u8>, prefix: &Vec<u8>) -> (r: Result<
        Vec<(Vec<u8>, Vec<u8>)>,
        DBError,
    >)
        requires
            self.wf(),
        ensures
            match r {
                Ok(v) => self.has_cf(cf@) && pairs_view(v@) == filter_prefix_spec(
                    self.cf_at(cf@),
                    prefix@,
                ),
                Err(e) => !self.has_cf(cf@) && (e matches DBError::InvalidColumnFamily(n)
                    && n@ == cf@),
            },
    {
        match self.find_cf(cf) {
            None => Err(DBError::InvalidColumnFamily(clone_bytes(cf))),
            Some(i) => Ok(self.cfs[i].scan(prefix)),
        }
    }

    /// The names of all column families, in creation order.
    pub fn list_cf_names(&self) -> (r: Vec<Vec<u8>>)
        ensures
            Seq::new(r@.len(), |i: int| r@[i]@) == self.names(),
    {
        let mut r: Vec<Vec<u8>> = Vec::new();
        let mut i: usize = 0;
        while i < self.cfs.len()
            invariant
                i <= self.cfs@.len(),
                r@.len() == i,
                forall|j: int| 0 <= j < i ==> (#[trigger] r@[j])@ == self.cfs@[j].name_spec(),
            decreases self.cfs@.len() - i,
        {
            r.push(self.cfs[i].name());
            i += 1;
        }
        assert(Seq::new(r@.len(), |i: int| r@[i]@) =~= self.names());
        r
    }
}

} // verus!

verus! {

/// Membership after a store: the new pair, plus every old pair under
/// a different key.
pub proof fn lemma_put_members(s: Seq<(Seq<u8>, Seq<u8>)>, k: Seq<u8>, v: Seq<u8>)
    requires
        sorted_strict(s),
    ensures
        forall|e: (Seq<u8>, Seq<u8>)| #[trigger] put_spec(s, k, v).contains(e) <==> (e == (k, v)
            || (s.contains(e) && e.0 != k)),
    decreases s.len(),
{
    let r = put_spec(s, k, v);
    if s.len() == 0 {
        assert(r =~= seq![(k, v)]);
        assert forall|e: (Seq<u8>, Seq<u8>)| #[trigger] r.contains(e) implies (e == (k, v) || (
        s.contains(e) && e.0 != k)) by {
            let i = choose|i: int| 0 <= i < r.len() && r[i] == e;
            assert(r[0] == (k, v));
        }
        assert(r.contains((k, v))) by {
            assert(r[0] == (k, v));
        }
    } else {
        lemma_lex_trichotomy(k, s[0].0);
        lemma_sorted_skip(s);
        if lex_lt(k, s[0].0) {
            assert(r == seq![(k, v)] + s);
            assert forall|e: (Seq<u8>, Seq<u8>)| #[trigger] r.contains(e) implies (e == (k, v)
                || (s.contains(e) && e.0 != k)) by {
                let i = choose|i: int| 0 <= i < r.len() && r[i] == e;
                if i > 0 {
                    assert(s[i - 1] == e);
                    assert(s.contains(e));
                    let j = choose|j: int| 0 <= j < s.len() && s[j] == e;
                    if j == 0 {
                    } else {
                        lemma_lex_transitive(k, s[0].0, s[j].0);
                    }
                }
            }
            assert(r.contains((k, v))) by {
                assert(r[0] == (k, v));
            }
            assert forall|e: (Seq<u8>, Seq<u8>)| s.contains(e) && e.0 != k implies #[trigger]
                r.contains(e) by {
                let j = choose|j: int| 0 <= j < s.len() && s[j] == e;
                assert(r[j + 1] == e);
            }
        } else if k == s[0].0 {
            assert(r == seq![(k, v)] + s.skip(1));
            assert forall|e: (Seq<u8>, Seq<u8>)| #[trigger] r.contains(e) implies (e == (k, v)
                || (s.contains(e) && e.0 != k)) by {
                let i = choose|i: int| 0 <= i < r.len() && r[i] == e;
                if i > 0 {
                    assert(s.skip(1)[i - 1] == e);
                    assert(s[i] == e);
                    assert(s.contains(e));
                    assert(lex_lt(s[0].0, s[i].0));
                }
            }
            assert(r.contains((k, v))) by {
                assert(r[0] == (k, v));
            }
            assert forall|e: (Seq<u8>, Seq<u8>)| s.contains(e) && e.0 != k implies #[trigger]
                r.contains(e) by {
                let j = choose|j: int| 0 <= j < s.len() && s[j] == e;
                assert(j != 0);
                assert(s.skip(1)[j - 1] == e);
                assert(r[j] == e);
            }
        } else {
            lemma_put_members(s.skip(1), k, v);
            let r2 = put_spec(s.skip(1), k, v);
            assert(r == seq![s[0]] + r2);
            assert forall|e: (Seq<u8>, Seq<u8>)| #[trigger] r.contains(e) implies (e == (k, v)
                || (s.contains(e) && e.0 != k)) by {
                let i = choose|i: int| 0 <= i < r.len() && r[i] == e;
                if i == 0 {
                    assert(e == s[0]);
                    assert(s.contains(e));
                } else {
                    assert(r2[i - 1] == e);
                    assert(r2.contains(e));
                    if e != (k, v) {
                        assert(s.skip(1).contains(e) && e.0 != k);
                        let j = choose|j: int| 0 <= j < s.skip(1).len() && s.skip(1)[j] == e;
                        assert(s[j + 1] == e);
                        assert(s.contains(e));
                    }
                }
            }
            assert(r.contains((k, v))) by {
                assert(r2.contains((k, v)));
                let j = choose|j: int| 0 <= j < r2.len() && r2[j] == (k, v);
                assert(r[j + 1] == (k, v));
            }
            assert forall|e: (Seq<u8>, Seq<u8>)| s.contains(e) && e.0 != k implies #[trigger]
                r.contains(e) by {
                let j = choose|j: int| 0 <= j < s.len() && s[j] == e;
                if j == 0 {
                    assert(r[0] == e);
                } else {
                    assert(s.skip(1)[j - 1] == e);
                    assert(s.skip(1).contains(e));
                    assert(r2.contains(e));
                    let m = choose|m: int| 0 <= m < r2.len() && r2[m] == e;
                    assert(r[m + 1] == e);
                }
            }
        }
    }
}

/// In a sorted list, a successful lookup is the same as membership.
pub proof fn lemma_find_contains(s: Seq<(Seq<u8>, Seq<u8>)>, k: Seq<u8>, v: Seq<u8>)
    requires
        sorted_strict(s),
    ensures
        find_spec(s, k) == Some(v) <==> s.contains((k, v)),
    decreases s.len(),
{
    if s.len() == 0 {
        assert(!s.contains((k, v))) by {
            if s.contains((k, v)) {
                let i = choose|i: int| 0 <= i < s.len() && s[i] == (k, v);
            }
        }
    } else {
        lemma_sorted_skip(s);
        lemma_find_contains(s.skip(1), k, v);
        if s[0].0 == k {
            if s[0].1 == v {
                assert(s.contains((k, v))) by {
                    assert(s[0] == (k, v));
                }
            } else {
                if s.contains((k, v)) {
                    let i = choose|i: int| 0 <= i < s.len() && s[i] == (k, v);
                    assert(i != 0);
                    assert(lex_lt(s[0].0, s[i].0));
                    lemma_lex_trichotomy(s[0].0, s[i].0);
                    assert(false);
                }
            }
        } else {
            if s.contains((k, v)) {
                let i = choose|i: int| 0 <= i < s.len() && s[i] == (k, v);
                assert(i != 0);
                assert(s.skip(1)[i - 1] == (k, v));
                assert(s.skip(1).contains((k, v)));
            }
            if s.skip(1).contains((k, v)) {
                let i = choose|i: int| 0 <= i < s.skip(1).len() && s.skip(1)[i] == (k, v);
                assert(s[i + 1] == (k, v));
                assert(s.contains((k, v)));
            }
        }
    }
}

/// Scanning with an empty prefix yields every entry.
pub proof fn lemma_filter_empty_prefix(s: Seq<(Seq<u8>, Seq<u8>)>)
    ensures
        filter_prefix_spec(s, Seq::<u8>::empty()) == s,
    decreases s.len(),
{
    if s.len() == 0 {
        assert(filter_prefix_spec(s, Seq::<u8>::empty()) =~= s);
    } else {
        assert(is_prefix(Seq::<u8>::empty(), s[0].0)) by {
            assert(s[0].0.take(0) =~= Seq::<u8>::empty());
        }
        lemma_filter_empty_prefix(s.skip(1));
        assert(filter_prefix_spec(s, Seq::<u8>::empty()) =~= s);
    }
}

} // verus!

verus! {

impl Kv {
    /// Every column family of a well-formed store is sorted.
    pub proof fn lemma_cf_sorted(self, n: Seq<u8>)
        requires
            self.wf(),
            self.has_cf(n),
        ensures
            sorted_strict(self.cf_at(n)),
    {
        let i = choose|i: int|
            0 <= i < self.cfs@.len() && #[trigger] self.cfs@[i].name_spec() == n;
        self.lemma_cf_at(i);
    }
}

} // verus!
