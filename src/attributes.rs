//! Attribute-set identity: an ordered attribute sequence with its combined hash,
//! and the key order used to build the canonical (key-sorted) form.

use crate::common::{
    string_values_view, Array, ArrayModel, Key, KeyValue, KeyValueModel, StringValue, Value,
    ValueModel,
};
use vstd::multiset::Multiset;
use vstd::prelude::*;
use vstd::utf8::{decode_utf8, encode_utf8, encode_utf8_decode_utf8};

verus! {

/// The models of a sequence of pairs, one for one.
pub open spec fn attrs_view(s: Seq<KeyValue>) -> Seq<KeyValueModel> {
    s.map_values(|kv: KeyValue| kv@)
}

/// Lexicographic order on bytes, a prefix coming first.
pub open spec fn bytes_le(a: Seq<u8>, b: Seq<u8>) -> bool
    decreases a.len(),
{
    if a.len() == 0 {
        true
    } else if b.len() == 0 {
        false
    } else if a[0] < b[0] {
        true
    } else if a[0] > b[0] {
        false
    } else {
        bytes_le(a.drop_first(), b.drop_first())
    }
}

/// Key order: lexicographic on the keys' UTF-8 encodings, as `str` orders them.
pub open spec fn key_le(a: Seq<char>, b: Seq<char>) -> bool {
    bytes_le(encode_utf8(a), encode_utf8(b))
}

/// Puts `x` into `t` after every element from the end whose key is not above it:
/// one step of a stable insertion sort.
pub open spec fn insert_by_key(t: Seq<KeyValueModel>, x: KeyValueModel) -> Seq<KeyValueModel>
    decreases t.len(),
{
    if t.len() == 0 {
        seq![x]
    } else if key_le(t.last().key, x.key) {
        t.push(x)
    } else {
        insert_by_key(t.drop_last(), x).push(t.last())
    }
}

/// The stable sort of `s` by key.
pub open spec fn sort_by_key(s: Seq<KeyValueModel>) -> Seq<KeyValueModel>
    decreases s.len(),
{
    if s.len() == 0 {
        s
    } else {
        insert_by_key(sort_by_key(s.drop_last()), s.last())
    }
}

/// Whether `a` comes no later than `b` in key order.
pub fn key_le_exec(a: &Key, b: &Key) -> (r: bool)
    ensures
        r == key_le(a@, b@),
{
    let x = a.as_str().as_bytes();
    let y = b.as_str().as_bytes();
    let mut i: usize = 0;
    assert(x@.skip(0) =~= x@);
    assert(y@.skip(0) =~= y@);
    loop
        invariant
            i <= x@.len(),
            i <= y@.len(),
            x@ == encode_utf8(a@),
            y@ == encode_utf8(b@),
            bytes_le(x@, y@) == bytes_le(x@.skip(i as int), y@.skip(i as int)),
        decreases x@.len() - i,
    {
        if i == x.len() {
            return true;
        }
        if i == y.len() {
            return false;
        }
        if x[i] < y[i] {
            return true;
        }
        if x[i] > y[i] {
            return false;
        }
        assert(x@.skip(i as int).drop_first() =~= x@.skip(i + 1));
        assert(y@.skip(i as int).drop_first() =~= y@.skip(i + 1));
        i += 1;
    }
}

fn insert_sorted(r: &mut Vec<KeyValue>, x: KeyValue)
    ensures
        attrs_view(final(r)@) == insert_by_key(attrs_view(old(r)@), x@),
{
    let ghost t = attrs_view(r@);
    let ghost xv = x@;
    let mut pos: usize = r.len();
    assert(t.subrange(0, pos as int) =~= t);
    assert(t.subrange(pos as int, t.len() as int) =~= Seq::<KeyValueModel>::empty());
    assert(t + Seq::<KeyValueModel>::empty() =~= t);
    loop
        invariant
            pos <= r.len(),
            t == attrs_view(r@),
            xv == x@,
            insert_by_key(t, xv) == insert_by_key(t.subrange(0, pos as int), xv) + t.subrange(
                pos as int,
                t.len() as int,
            ),
        ensures
            pos <= r.len(),
            t == attrs_view(r@),
            insert_by_key(t, xv) == insert_by_key(t.subrange(0, pos as int), xv) + t.subrange(
                pos as int,
                t.len() as int,
            ),
            pos == 0 || key_le(t[pos - 1].key, xv.key),
        decreases pos,
    {
        if pos == 0 {
            break;
        }
        if key_le_exec(&r[pos - 1].key, &x.key) {
            break;
        }
        proof {
            let p = pos as int;
            let head = t.subrange(0, p);
            assert(head.drop_last() =~= t.subrange(0, p - 1));
            assert(head.last() == t[p - 1]);
            assert(insert_by_key(head, xv) == insert_by_key(t.subrange(0, p - 1), xv).push(
                t[p - 1],
            ));
            assert(insert_by_key(t.subrange(0, p - 1), xv).push(t[p - 1]) + t.subrange(
                p,
                t.len() as int,
            ) =~= insert_by_key(t.subrange(0, p - 1), xv) + t.subrange(p - 1, t.len() as int));
        }
        pos -= 1;
    }
    proof {
        let p = pos as int;
        let head = t.subrange(0, p);
        if p > 0 {
            assert(head.last() == t[p - 1]);
        } else {
            assert(head.len() == 0);
        }
        assert(insert_by_key(head, xv) == head.push(xv));
    }
    r.insert(pos, x);
    assert(attrs_view(r@) =~= t.subrange(0, pos as int).push(xv) + t.subrange(
        pos as int,
        t.len() as int,
    ));
}

/// A copy of `attributes`, stably sorted by key.
pub fn sorted_by_key(attributes: &[KeyValue]) -> (r: Vec<KeyValue>)
    ensures
        attrs_view(r@) == sort_by_key(attrs_view(attributes@)),
{
    let mut r: Vec<KeyValue> = Vec::new();
    let mut i: usize = 0;
    while i < attributes.len()
        invariant
            i <= attributes@.len(),
            attrs_view(r@) == sort_by_key(attrs_view(attributes@.subrange(0, i as int))),
        decreases attributes@.len() - i,
    {
        let ghost prefix = attrs_view(attributes@.subrange(0, i + 1));
        assert(prefix.drop_last() =~= attrs_view(attributes@.subrange(0, i as int)));
        assert(prefix.last() == attributes@[i as int]@);
        insert_sorted(&mut r, attributes[i].duplicate());
        i += 1;
    }
    assert(attributes@.subrange(0, i as int) =~= attributes@);
    r
}

/// Start value of the combined hash.
pub const HASH_OFFSET: u64 = 0xcbf29ce484222325;

/// Multiplier of the combined hash.
pub const HASH_PRIME: u64 = 0x100000001b3;

/// Folds one word into a running hash.
pub open spec fn mix(h: u64, x: u64) -> u64 {
    ((((h ^ x) as nat) * (HASH_PRIME as nat)) % 0x10000000000000000nat) as u64
}

/// Folds bytes into a running hash, first to last.
pub open spec fn hash_bytes(h: u64, b: Seq<u8>) -> u64
    decreases b.len(),
{
    if b.len() == 0 {
        h
    } else {
        hash_bytes(mix(h, b[0] as u64), b.drop_first())
    }
}

/// Folds words into a running hash, first to last.
pub open spec fn hash_words(h: u64, w: Seq<u64>) -> u64
    decreases w.len(),
{
    if w.len() == 0 {
        h
    } else {
        hash_words(mix(h, w[0]), w.drop_first())
    }
}

/// Folds strings into a running hash, first to last: each one's length, then
/// its bytes.
pub open spec fn hash_strings(h: u64, ss: Seq<Seq<char>>) -> u64
    decreases ss.len(),
{
    if ss.len() == 0 {
        h
    } else {
        hash_strings(
            hash_bytes(mix(h, encode_utf8(ss[0]).len() as u64), encode_utf8(ss[0])),
            ss.drop_first(),
        )
    }
}

/// Folds a value into a running hash: its kind, then its content. Floats enter
/// by bit pattern.
pub open spec fn hash_value(h: u64, v: ValueModel) -> u64 {
    match v {
        ValueModel::Bool(b) => mix(mix(h, 1), if b { 1 } else { 0 }),
        ValueModel::I64(i) => mix(mix(h, 2), i as u64),
        ValueModel::F64(f) => mix(mix(h, 3), f),
        ValueModel::String(s) => hash_bytes(mix(h, 4), encode_utf8(s)),
        ValueModel::Array(a) => match a {
            ArrayModel::Bool(e) => hash_words(mix(h, 5), e.map_values(|b: bool| if b { 1u64 } else { 0u64 })),
            ArrayModel::I64(e) => hash_words(mix(h, 6), e.map_values(|i: i64| i as u64)),
            ArrayModel::F64(e) => hash_words(mix(h, 7), e),
            ArrayModel::String(e) => hash_strings(mix(h, 8), e),
        },
    }
}

/// Folds a pair into a running hash: its key, then its value.
pub open spec fn hash_pair(h: u64, kv: KeyValueModel) -> u64 {
    hash_value(hash_bytes(h, encode_utf8(kv.key)), kv.value)
}

/// Folds pairs into a running hash, in sequence order.
pub open spec fn hash_pairs(h: u64, s: Seq<KeyValueModel>) -> u64
    decreases s.len(),
{
    if s.len() == 0 {
        h
    } else {
        hash_pairs(hash_pair(h, s[0]), s.drop_first())
    }
}

/// The combined hash of an attribute sequence.
pub open spec fn hash_attrs(s: Seq<KeyValueModel>) -> u64 {
    hash_pairs(HASH_OFFSET, s)
}

fn mix_exec(h: u64, x: u64) -> (r: u64)
    ensures
        r == mix(h, x),
{
    (h ^ x).wrapping_mul(HASH_PRIME)
}

fn hash_bytes_exec(h: u64, b: &[u8]) -> (r: u64)
    ensures
        r == hash_bytes(h, b@),
{
    let mut acc: u64 = h;
    let mut i: usize = 0;
    assert(b@.skip(0) =~= b@);
    while i < b.len()
        invariant
            i <= b@.len(),
            hash_bytes(h, b@) == hash_bytes(acc, b@.skip(i as int)),
        decreases b@.len() - i,
    {
        assert(b@.skip(i as int).drop_first() =~= b@.skip(i + 1));
        acc = mix_exec(acc, b[i] as u64);
        i += 1;
    }
    assert(b@.skip(i as int).len() == 0);
    acc
}

fn hash_words_exec(h: u64, w: &Vec<u64>) -> (r: u64)
    ensures
        r == hash_words(h, w@),
{
    let mut acc: u64 = h;
    let mut i: usize = 0;
    assert(w@.skip(0) =~= w@);
    while i < w.len()
        invariant
            i <= w@.len(),
            hash_words(h, w@) == hash_words(acc, w@.skip(i as int)),
        decreases w@.len() - i,
    {
        assert(w@.skip(i as int).drop_first() =~= w@.skip(i + 1));
        acc = mix_exec(acc, w[i]);
        i += 1;
    }
    assert(w@.skip(i as int).len() == 0);
    acc
}

fn hash_bools_exec(h: u64, e: &Vec<bool>) -> (r: u64)
    ensures
        r == hash_words(h, e@.map_values(|b: bool| if b { 1u64 } else { 0u64 })),
{
    let ghost w = e@.map_values(|b: bool| if b { 1u64 } else { 0u64 });
    let mut acc: u64 = h;
    let mut i: usize = 0;
    assert(w.skip(0) =~= w);
    while i < e.len()
        invariant
            i <= e@.len(),
            w == e@.map_values(|b: bool| if b { 1u64 } else { 0u64 }),
            hash_words(h, w) == hash_words(acc, w.skip(i as int)),
        decreases e@.len() - i,
    {
        assert(w.skip(i as int).drop_first() =~= w.skip(i + 1));
        acc = mix_exec(acc, if e[i] { 1 } else { 0 });
        i += 1;
    }
    assert(w.skip(i as int).len() == 0);
    acc
}

fn hash_ints_exec(h: u64, e: &Vec<i64>) -> (r: u64)
    ensures
        r == hash_words(h, e@.map_values(|i: i64| i as u64)),
{
    let ghost w = e@.map_values(|i: i64| i as u64);
    let mut acc: u64 = h;
    let mut i: usize = 0;
    assert(w.skip(0) =~= w);
    while i < e.len()
        invariant
            i <= e@.len(),
            w == e@.map_values(|i: i64| i as u64),
            hash_words(h, w) == hash_words(acc, w.skip(i as int)),
        decreases e@.len() - i,
    {
        assert(w.skip(i as int).drop_first() =~= w.skip(i + 1));
        acc = mix_exec(acc, e[i] as u64);
        i += 1;
    }
    assert(w.skip(i as int).len() == 0);
    acc
}

fn hash_strings_exec(h: u64, e: &Vec<StringValue>) -> (r: u64)
    ensures
        r == hash_strings(h, string_values_view(e@)),
{
    let ghost w = string_values_view(e@);
    let mut acc: u64 = h;
    let mut i: usize = 0;
    assert(w.skip(0) =~= w);
    while i < e.len()
        invariant
            i <= e@.len(),
            w == string_values_view(e@),
            hash_strings(h, w) == hash_strings(acc, w.skip(i as int)),
        decreases e@.len() - i,
    {
        assert(w.skip(i as int).drop_first() =~= w.skip(i + 1));
        let bytes = e[i].as_str().as_bytes();
        acc = hash_bytes_exec(mix_exec(acc, bytes.len() as u64), bytes);
        i += 1;
    }
    assert(w.skip(i as int).len() == 0);
    acc
}

fn hash_value_exec(h: u64, v: &Value) -> (r: u64)
    ensures
        r == hash_value(h, v@),
{
    match v {
        Value::Bool(b) => mix_exec(mix_exec(h, 1), if *b { 1 } else { 0 }),
        Value::I64(i) => mix_exec(mix_exec(h, 2), *i as u64),
        Value::F64(f) => mix_exec(mix_exec(h, 3), *f),
        Value::String(s) => hash_bytes_exec(mix_exec(h, 4), s.as_str().as_bytes()),
        Value::Array(a) => match a {
            Array::Bool(e) => hash_bools_exec(mix_exec(h, 5), e),
            Array::I64(e) => hash_ints_exec(mix_exec(h, 6), e),
            Array::F64(e) => hash_words_exec(mix_exec(h, 7), e),
            Array::String(e) => hash_strings_exec(mix_exec(h, 8), e),
        },
    }
}

/// The combined hash of `values`: each pair's key, then its value, in order.
pub fn calculate_hash(values: &[KeyValue]) -> (r: u64)
    ensures
        r == hash_attrs(attrs_view(values@)),
{
    let ghost s = attrs_view(values@);
    let mut acc: u64 = HASH_OFFSET;
    let mut i: usize = 0;
    assert(s.skip(0) =~= s);
    while i < values.len()
        invariant
            i <= values@.len(),
            s == attrs_view(values@),
            hash_attrs(s) == hash_pairs(acc, s.skip(i as int)),
        decreases values@.len() - i,
    {
        assert(s.skip(i as int).drop_first() =~= s.skip(i + 1));
        let kv = &values[i];
        let k = hash_bytes_exec(acc, kv.key.as_str().as_bytes());
        acc = hash_value_exec(k, &kv.value);
        i += 1;
    }
    assert(s.skip(i as int).len() == 0);
    acc
}

/// An attribute-set identity: the pairs as given, with their combined hash.
pub struct MetricAttributes {
    pub attributes: Vec<KeyValue>,
    pub hash_value: u64,
}

impl View for MetricAttributes {
    type V = Seq<KeyValueModel>;

    open spec fn view(&self) -> Seq<KeyValueModel> {
        attrs_view(self.attributes@)
    }
}

impl MetricAttributes {
    /// The stored hash is the combined hash of the pairs.
    pub open spec fn wf(&self) -> bool {
        self.hash_value == hash_attrs(self@)
    }

    /// The identity of a copy of `attributes`.
    pub fn new(attributes: &[KeyValue]) -> (r: MetricAttributes)
        ensures
            r.wf(),
            r@ == attrs_view(attributes@),
    {
        let attributes_vec = copy_pairs(attributes);
        MetricAttributes::new_from_vec(attributes_vec)
    }

    /// The identity of `attributes`, which it takes over.
    pub fn new_from_vec(attributes: Vec<KeyValue>) -> (r: MetricAttributes)
        ensures
            r.wf(),
            r@ == attrs_view(attributes@),
    {
        let hash_value = calculate_hash(attributes.as_slice());
        MetricAttributes { attributes, hash_value }
    }

    /// The stored combined hash.
    pub fn hash_value(&self) -> (r: u64)
        requires
            self.wf(),
        ensures
            r == hash_attrs(self@),
    {
        self.hash_value
    }

    /// Whether the two identities hold equal sequences. Equal hashes alone never
    /// make two identities equal: on equal hashes the pairs are compared one by one.
    pub fn same_as(&self, other: &MetricAttributes) -> (r: bool)
        requires
            self.wf(),
            other.wf(),
        ensures
            r == (self@ == other@),
    {
        if self.hash_value != other.hash_value {
            return false;
        }
        same_pairs(self.attributes.as_slice(), other.attributes.as_slice())
    }
}

/// A copy of `attributes`, pair by pair.
pub fn copy_pairs(attributes: &[KeyValue]) -> (r: Vec<KeyValue>)
    ensures
        attrs_view(r@) == attrs_view(attributes@),
{
    let mut r: Vec<KeyValue> = Vec::new();
    let mut i: usize = 0;
    while i < attributes.len()
        invariant
            i <= attributes@.len(),
            r@.len() == i,
            forall|j: int| 0 <= j < i ==> r@[j]@ == attributes@[j]@,
        decreases attributes@.len() - i,
    {
        r.push(attributes[i].duplicate());
        i += 1;
    }
    assert(attrs_view(r@) =~= attrs_view(attributes@));
    r
}

/// Whether the two sequences are equal pair by pair, in order.
pub fn same_pairs(a: &[KeyValue], b: &[KeyValue]) -> (r: bool)
    ensures
        r == (attrs_view(a@) == attrs_view(b@)),
{
    if a.len() != b.len() {
        assert(attrs_view(a@).len() != attrs_view(b@).len());
        return false;
    }
    let mut i: usize = 0;
    while i < a.len()
        invariant
            i <= a@.len(),
            a@.len() == b@.len(),
            forall|j: int| 0 <= j < i ==> a@[j]@ == b@[j]@,
        decreases a@.len() - i,
    {
        if !(a[i] == b[i]) {
            assert(attrs_view(a@)[i as int] != attrs_view(b@)[i as int]);
            return false;
        }
        i += 1;
    }
    assert(attrs_view(a@) =~= attrs_view(b@));
    true
}

/// Adjacent pairs are in key order.
pub open spec fn is_key_sorted(s: Seq<KeyValueModel>) -> bool {
    forall|i: int| 0 <= i < s.len() - 1 ==> key_le(#[trigger] s[i].key, s[i + 1].key)
}

proof fn lemma_bytes_le_total(a: Seq<u8>, b: Seq<u8>)
    ensures
        bytes_le(a, b) || bytes_le(b, a),
    decreases a.len(),
{
    if a.len() > 0 && b.len() > 0 && a[0] == b[0] {
        lemma_bytes_le_total(a.drop_first(), b.drop_first());
    }
}

/// Key order is total.
pub proof fn lemma_key_le_total(a: Seq<char>, b: Seq<char>)
    ensures
        key_le(a, b) || key_le(b, a),
{
    lemma_bytes_le_total(encode_utf8(a), encode_utf8(b));
}

proof fn lemma_insert_len(t: Seq<KeyValueModel>, x: KeyValueModel)
    ensures
        insert_by_key(t, x).len() == t.len() + 1,
    decreases t.len(),
{
    if t.len() > 0 {
        lemma_insert_len(t.drop_last(), x);
    }
}

/// Sorting keeps the length.
pub proof fn lemma_sort_len(s: Seq<KeyValueModel>)
    ensures
        sort_by_key(s).len() == s.len(),
    decreases s.len(),
{
    if s.len() > 0 {
        lemma_sort_len(s.drop_last());
        lemma_insert_len(sort_by_key(s.drop_last()), s.last());
    }
}

proof fn lemma_insert_sorted(t: Seq<KeyValueModel>, x: KeyValueModel)
    requires
        is_key_sorted(t),
    ensures
        is_key_sorted(insert_by_key(t, x)),
        t.len() > 0 ==> insert_by_key(t, x).last() == x || insert_by_key(t, x).last() == t.last(),
    decreases t.len(),
{
    lemma_insert_len(t, x);
    if t.len() > 0 && !key_le(t.last().key, x.key) {
        let u = t.drop_last();
        assert(is_key_sorted(u)) by {
            assert forall|i: int| 0 <= i < u.len() - 1 implies key_le(#[trigger] u[i].key, u[i + 1].key) by {
                assert(u[i] == t[i] && u[i + 1] == t[i + 1]);
            }
        }
        lemma_insert_sorted(u, x);
        lemma_insert_len(u, x);
        lemma_key_le_total(t.last().key, x.key);
        let r = insert_by_key(u, x);
        if u.len() > 0 {
            assert(t[u.len() - 1] == u.last());
            assert(key_le(u.last().key, t.last().key));
        } else {
            assert(r =~= seq![x]);
        }
        assert(key_le(r.last().key, t.last().key));
        let w = r.push(t.last());
        assert forall|i: int| 0 <= i < w.len() - 1 implies key_le(#[trigger] w[i].key, w[i + 1].key) by {
            if i < r.len() - 1 {
                assert(w[i] == r[i] && w[i + 1] == r[i + 1]);
            }
        }
    } else if t.len() > 0 {
        let w = t.push(x);
        assert forall|i: int| 0 <= i < w.len() - 1 implies key_le(#[trigger] w[i].key, w[i + 1].key) by {
            if i < t.len() - 1 {
                assert(w[i] == t[i] && w[i + 1] == t[i + 1]);
            }
        }
    }
}

/// A sorted sequence is in key order.
pub proof fn lemma_sort_sorted(s: Seq<KeyValueModel>)
    ensures
        is_key_sorted(sort_by_key(s)),
    decreases s.len(),
{
    if s.len() > 0 {
        lemma_sort_sorted(s.drop_last());
        lemma_insert_sorted(sort_by_key(s.drop_last()), s.last());
    }
}

/// Sorting a sequence that is in key order leaves it as it is.
pub proof fn lemma_sort_of_sorted(s: Seq<KeyValueModel>)
    requires
        is_key_sorted(s),
    ensures
        sort_by_key(s) == s,
    decreases s.len(),
{
    if s.len() > 0 {
        let u = s.drop_last();
        assert(is_key_sorted(u)) by {
            assert forall|i: int| 0 <= i < u.len() - 1 implies key_le(#[trigger] u[i].key, u[i + 1].key) by {
                assert(u[i] == s[i] && u[i + 1] == s[i + 1]);
            }
        }
        lemma_sort_of_sorted(u);
        if u.len() > 0 {
            assert(u.last() == s[s.len() - 2]);
        }
        assert(u.push(s.last()) =~= s);
    }
}

/// Sorting twice is sorting once.
pub proof fn lemma_sort_idempotent(s: Seq<KeyValueModel>)
    ensures
        sort_by_key(sort_by_key(s)) == sort_by_key(s),
{
    lemma_sort_sorted(s);
    lemma_sort_of_sorted(sort_by_key(s));
}

proof fn lemma_bytes_le_trans(a: Seq<u8>, b: Seq<u8>, c: Seq<u8>)
    requires
        bytes_le(a, b),
        bytes_le(b, c),
    ensures
        bytes_le(a, c),
    decreases a.len(),
{
    if a.len() > 0 && b.len() > 0 && c.len() > 0 && a[0] == b[0] && b[0] == c[0] {
        lemma_bytes_le_trans(a.drop_first(), b.drop_first(), c.drop_first());
    }
}

proof fn lemma_bytes_le_antisym(a: Seq<u8>, b: Seq<u8>)
    requires
        bytes_le(a, b),
        bytes_le(b, a),
    ensures
        a == b,
    decreases a.len(),
{
    if a.len() > 0 && b.len() > 0 {
        lemma_bytes_le_antisym(a.drop_first(), b.drop_first());
        assert(a =~= seq![a[0]] + a.drop_first());
        assert(b =~= seq![b[0]] + b.drop_first());
    } else {
        assert(a =~= b);
    }
}

/// Key order is transitive.
pub proof fn lemma_key_le_trans(a: Seq<char>, b: Seq<char>, c: Seq<char>)
    requires
        key_le(a, b),
        key_le(b, c),
    ensures
        key_le(a, c),
{
    lemma_bytes_le_trans(encode_utf8(a), encode_utf8(b), encode_utf8(c));
}

/// Key order is antisymmetric: keys that precede each other are equal.
pub proof fn lemma_key_le_antisym(a: Seq<char>, b: Seq<char>)
    requires
        key_le(a, b),
        key_le(b, a),
    ensures
        a == b,
{
    lemma_bytes_le_antisym(encode_utf8(a), encode_utf8(b));
    encode_utf8_decode_utf8(a);
    encode_utf8_decode_utf8(b);
}

proof fn lemma_sorted_drop_last(s: Seq<KeyValueModel>)
    requires
        is_key_sorted(s),
        s.len() > 0,
    ensures
        is_key_sorted(s.drop_last()),
{
    let u = s.drop_last();
    assert forall|i: int| 0 <= i < u.len() - 1 implies key_le(#[trigger] u[i].key, u[i + 1].key) by {
        assert(u[i] == s[i] && u[i + 1] == s[i + 1]);
    }
}

proof fn lemma_sorted_pair(s: Seq<KeyValueModel>, i: int, j: int)
    requires
        is_key_sorted(s),
        0 <= i < j < s.len(),
    ensures
        key_le(s[i].key, s[j].key),
    decreases j - i,
{
    if j > i + 1 {
        lemma_sorted_pair(s, i, j - 1);
        assert(key_le(s[j - 1].key, s[j].key));
        lemma_key_le_trans(s[i].key, s[j - 1].key, s[j].key);
    }
}

proof fn lemma_insert_multiset(t: Seq<KeyValueModel>, x: KeyValueModel)
    ensures
        insert_by_key(t, x).to_multiset() == t.to_multiset().insert(x),
    decreases t.len(),
{
    broadcast use vstd::seq_lib::group_to_multiset_ensures;

    if t.len() == 0 {
        assert(seq![x] =~= t.push(x));
    } else if !key_le(t.last().key, x.key) {
        let u = t.drop_last();
        lemma_insert_multiset(u, x);
        assert(t =~= u.push(t.last()));
        assert(insert_by_key(t, x).to_multiset() =~= t.to_multiset().insert(x));
    }
}

/// Sorting keeps the multiset of pairs.
pub proof fn lemma_sort_multiset(s: Seq<KeyValueModel>)
    ensures
        sort_by_key(s).to_multiset() == s.to_multiset(),
    decreases s.len(),
{
    broadcast use vstd::seq_lib::group_to_multiset_ensures;

    if s.len() > 0 {
        lemma_sort_multiset(s.drop_last());
        lemma_insert_multiset(sort_by_key(s.drop_last()), s.last());
        assert(s =~= s.drop_last().push(s.last()));
    }
}

/// Within the multiset `m`, pairs with one key are one pair.
pub open spec fn keys_identify(m: Multiset<KeyValueModel>) -> bool {
    forall|a: KeyValueModel, b: KeyValueModel|
        m.count(a) > 0 && m.count(b) > 0 && a.key == b.key ==> a == b
}

proof fn lemma_multiset_drop_last(x1: Seq<KeyValueModel>, y1: Seq<KeyValueModel>, a: KeyValueModel)
    requires
        x1.push(a).to_multiset() == y1.push(a).to_multiset(),
        keys_identify(x1.push(a).to_multiset()),
    ensures
        x1.to_multiset() == y1.to_multiset(),
        keys_identify(x1.to_multiset()),
{
    broadcast use vstd::seq_lib::group_to_multiset_ensures;

    let mx = x1.to_multiset();
    let my = y1.to_multiset();
    assert(x1.push(a).to_multiset() == mx.insert(a));
    assert(y1.push(a).to_multiset() == my.insert(a));
    assert forall|v: KeyValueModel| mx.count(v) == my.count(v) by {
        assert(mx.insert(a).count(v) == my.insert(a).count(v));
    }
    assert(mx =~= my);
    assert forall|b: KeyValueModel, c: KeyValueModel|
        mx.count(b) > 0 && mx.count(c) > 0 && b.key == c.key implies b == c by {
        assert(mx.insert(a).count(b) > 0 && mx.insert(a).count(c) > 0);
    }
}

proof fn lemma_sorted_unique(x: Seq<KeyValueModel>, y: Seq<KeyValueModel>)
    requires
        is_key_sorted(x),
        is_key_sorted(y),
        x.to_multiset() == y.to_multiset(),
        keys_identify(x.to_multiset()),
    ensures
        x == y,
    decreases x.len(),
{
    broadcast use vstd::seq_lib::group_to_multiset_ensures;

    if x.len() == 0 {
        assert(x.to_multiset().len() == 0);
        assert(y.to_multiset().len() == y.len());
        assert(x =~= y);
    } else {
        let n = x.len() as int;
        assert(x.to_multiset().len() == x.len());
        assert(y.to_multiset().len() == y.len());
        assert(y.len() == n);
        let xl = x.last();
        let yl = y.last();
        assert(x.contains(xl));
        assert(x.to_multiset().count(xl) > 0);
        assert(y.to_multiset().count(xl) > 0);
        assert(y.contains(xl));
        let k = choose|k: int| 0 <= k < n && y[k] == xl;
        assert(y.contains(yl));
        assert(y.to_multiset().count(yl) > 0);
        assert(x.to_multiset().count(yl) > 0);
        assert(x.contains(yl));
        let k2 = choose|k: int| 0 <= k < n && x[k] == yl;
        if k < n - 1 && k2 < n - 1 {
            lemma_sorted_pair(y, k, n - 1);
            lemma_sorted_pair(x, k2, n - 1);
            lemma_key_le_antisym(xl.key, yl.key);
        } else if k < n - 1 {
            assert(x[k2] == xl);
        }
        assert(xl == yl);
        let x1 = x.drop_last();
        let y1 = y.drop_last();
        assert(x =~= x1.push(xl));
        assert(y =~= y1.push(xl));
        lemma_multiset_drop_last(x1, y1, xl);
        lemma_sorted_drop_last(x);
        lemma_sorted_drop_last(y);
        lemma_sorted_unique(x1, y1);
    }
}

/// Orderings of one multiset of pairs, no two of them sharing a key unless
/// equal, have one key-sorted form.
pub proof fn lemma_sort_permutation(p: Seq<KeyValueModel>, s: Seq<KeyValueModel>)
    requires
        p.to_multiset() == s.to_multiset(),
        forall|i: int, j: int|
            0 <= i < s.len() && 0 <= j < s.len() && s[i].key == s[j].key ==> s[i] == s[j],
    ensures
        sort_by_key(p) == sort_by_key(s),
{
    broadcast use vstd::seq_lib::group_to_multiset_ensures;

    lemma_sort_multiset(p);
    lemma_sort_multiset(s);
    lemma_sort_sorted(p);
    lemma_sort_sorted(s);
    let x = sort_by_key(s);
    assert(keys_identify(x.to_multiset())) by {
        assert forall|a: KeyValueModel, b: KeyValueModel|
            x.to_multiset().count(a) > 0 && x.to_multiset().count(b) > 0 && a.key == b.key implies a
            == b by {
            assert(s.contains(a));
            assert(s.contains(b));
        }
    }
    lemma_sorted_unique(x, sort_by_key(p));
}

} // verus!
