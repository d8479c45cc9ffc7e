//! Attribute keys and values.

use vstd::prelude::*;
use vstd::string::StringExecFns;

verus! {

broadcast use vstd::string::to_string_from_display_ensures_for_str;

/// Model of an [`Array`]: floats are carried by their IEEE-754 bit patterns.
pub enum ArrayModel {
    Bool(Seq<bool>),
    I64(Seq<i64>),
    F64(Seq<u64>),
    String(Seq<Seq<char>>),
}

/// Model of a [`Value`].
pub enum ValueModel {
    Bool(bool),
    I64(i64),
    F64(u64),
    String(Seq<char>),
    Array(ArrayModel),
}

/// Model of a [`KeyValue`]: the key's characters and the value's model.
pub struct KeyValueModel {
    pub key: Seq<char>,
    pub value: ValueModel,
}

/// The key part of attribute [`KeyValue`] pairs.
pub struct Key(String);

impl View for Key {
    type V = Seq<char>;

    closed spec fn view(&self) -> Seq<char> {
        self.0@
    }
}

impl Key {
    /// Create a new `Key` holding the characters of `value`.
    pub fn new(value: &str) -> (r: Key)
        ensures
            r@ == value@,
    {
        Key(value.to_string())
    }

    /// Create a new `Key` from a string literal.
    pub fn from_static_str(value: &'static str) -> (r: Key)
        ensures
            r@ == value@,
    {
        Key(value.to_string())
    }

    /// Create a `KeyValue` pair for `bool` values.
    pub fn bool(self, value: bool) -> (r: KeyValue)
        ensures
            r@ == (KeyValueModel { key: self@, value: ValueModel::Bool(value) }),
    {
        KeyValue { key: self, value: Value::Bool(value) }
    }

    /// Create a `KeyValue` pair for `i64` values.
    pub fn i64(self, value: i64) -> (r: KeyValue)
        ensures
            r@ == (KeyValueModel { key: self@, value: ValueModel::I64(value) }),
    {
        KeyValue { key: self, value: Value::I64(value) }
    }

    /// Create a `KeyValue` pair for a 64-bit float, given by its IEEE-754 bit
    /// pattern (as `to_bits` gives it).
    pub fn f64_bits(self, bits: u64) -> (r: KeyValue)
        ensures
            r@ == (KeyValueModel { key: self@, value: ValueModel::F64(bits) }),
    {
        KeyValue { key: self, value: Value::F64(bits) }
    }

    /// Create a `KeyValue` pair for string values.
    pub fn string(self, value: StringValue) -> (r: KeyValue)
        ensures
            r@ == (KeyValueModel { key: self@, value: ValueModel::String(value@) }),
    {
        KeyValue { key: self, value: Value::String(value) }
    }

    /// Create a `KeyValue` pair for arrays.
    pub fn array(self, value: Array) -> (r: KeyValue)
        ensures
            r@ == (KeyValueModel { key: self@, value: ValueModel::Array(value@) }),
    {
        KeyValue { key: self, value: Value::Array(value) }
    }

    /// Returns a reference to the underlying key name.
    pub fn as_str(&self) -> (r: &str)
        ensures
            r@ == self@,
    {
        self.0.as_str()
    }

    /// A copy of this key.
    pub fn duplicate(&self) -> (r: Key)
        ensures
            r@ == self@,
    {
        Key(self.0.clone())
    }
}

impl From<String> for Key {
    /// Convert a `String` to a `Key` without copying it.
    fn from(string: String) -> (r: Key) {
        Key(string)
    }
}

impl vstd::std_specs::convert::FromSpecImpl<String> for Key {
    open spec fn obeys_from_spec() -> bool {
        true
    }

    closed spec fn from_spec(string: String) -> Key {
        Key(string)
    }
}

impl PartialEq for Key {
    fn eq(&self, other: &Key) -> (r: bool) {
        self.0 == other.0
    }
}

impl vstd::std_specs::cmp::PartialEqSpecImpl for Key {
    open spec fn obeys_eq_spec() -> bool {
        true
    }

    open spec fn eq_spec(&self, other: &Key) -> bool {
        self@ == other@
    }
}

/// Wrapper for string-like values.
pub struct StringValue(String);

impl View for StringValue {
    type V = Seq<char>;

    closed spec fn view(&self) -> Seq<char> {
        self.0@
    }
}

impl StringValue {
    /// A string value holding the characters of `value`.
    pub fn new(value: &str) -> (r: StringValue)
        ensures
            r@ == value@,
    {
        StringValue(value.to_string())
    }

    /// Returns a string slice to this value.
    pub fn as_str(&self) -> (r: &str)
        ensures
            r@ == self@,
    {
        self.0.as_str()
    }

    /// A copy of this value.
    pub fn duplicate(&self) -> (r: StringValue)
        ensures
            r@ == self@,
    {
        StringValue(self.0.clone())
    }
}

impl From<String> for StringValue {
    /// Convert a `String` to a `StringValue` without copying it.
    fn from(string: String) -> (r: StringValue) {
        StringValue(string)
    }
}

impl vstd::std_specs::convert::FromSpecImpl<String> for StringValue {
    open spec fn obeys_from_spec() -> bool {
        true
    }

    closed spec fn from_spec(string: String) -> StringValue {
        StringValue(string)
    }
}

/// A [`Value::Array`] containing homogeneous values.
pub enum Array {
    /// Array of bools
    Bool(Vec<bool>),
    /// Array of integers
    I64(Vec<i64>),
    /// Array of floats, each given by its IEEE-754 bit pattern
    F64(Vec<u64>),
    /// Array of strings
    String(Vec<StringValue>),
}

pub open spec fn string_values_view(v: Seq<StringValue>) -> Seq<Seq<char>> {
    v.map_values(|s: StringValue| s@)
}

impl View for Array {
    type V = ArrayModel;

    open spec fn view(&self) -> ArrayModel {
        match self {
            Array::Bool(v) => ArrayModel::Bool(v@),
            Array::I64(v) => ArrayModel::I64(v@),
            Array::F64(v) => ArrayModel::F64(v@),
            Array::String(v) => ArrayModel::String(string_values_view(v@)),
        }
    }
}

fn copy_items<T: Copy>(v: &Vec<T>) -> (r: Vec<T>)
    ensures
        r@ == v@,
{
    let mut r: Vec<T> = Vec::new();
    let mut i: usize = 0;
    while i < v.len()
        invariant
            i <= v.len(),
            r@ == v@.subrange(0, i as int),
        decreases v.len() - i,
    {
        r.push(v[i]);
        i += 1;
        assert(r@ =~= v@.subrange(0, i as int));
    }
    assert(r@ =~= v@);
    r
}

fn copy_string_values(v: &Vec<StringValue>) -> (r: Vec<StringValue>)
    ensures
        string_values_view(r@) == string_values_view(v@),
{
    let mut r: Vec<StringValue> = Vec::new();
    let mut i: usize = 0;
    while i < v.len()
        invariant
            i <= v.len(),
            r.len() == i,
            forall|j: int| 0 <= j < i ==> r@[j]@ == v@[j]@,
        decreases v.len() - i,
    {
        r.push(v[i].duplicate());
        i += 1;
    }
    assert(string_values_view(r@) =~= string_values_view(v@));
    r
}

fn same_string_values(a: &Vec<StringValue>, b: &Vec<StringValue>) -> (r: bool)
    ensures
        r == (string_values_view(a@) == string_values_view(b@)),
{
    if a.len() != b.len() {
        assert(string_values_view(a@).len() != string_values_view(b@).len());
        return false;
    }
    let mut i: usize = 0;
    while i < a.len()
        invariant
            i <= a.len(),
            a.len() == b.len(),
            forall|j: int| 0 <= j < i ==> a@[j]@ == b@[j]@,
        decreases a.len() - i,
    {
        if a[i].0 != b[i].0 {
            assert(string_values_view(a@)[i as int] != string_values_view(b@)[i as int]);
            return false;
        }
        i += 1;
    }
    assert(string_values_view(a@) =~= string_values_view(b@));
    true
}

impl Array {
    /// A copy of this array.
    pub fn duplicate(&self) -> (r: Array)
        ensures
            r@ == self@,
    {
        match self {
            Array::Bool(v) => Array::Bool(copy_items(v)),
            Array::I64(v) => Array::I64(copy_items(v)),
            Array::F64(v) => Array::F64(copy_items(v)),
            Array::String(v) => Array::String(copy_string_values(v)),
        }
    }

    /// Whether the two arrays hold the same kind of elements, equal one by one.
    pub fn same_as(&self, other: &Array) -> (r: bool)
        ensures
            r == (self@ == other@),
    {
        match (self, other) {
            (Array::Bool(a), Array::Bool(b)) => {
                let r = a == b;
                if r {
                    assert(a@ =~= b@);
                }
                r
            },
            (Array::I64(a), Array::I64(b)) => {
                let r = a == b;
                if r {
                    assert(a@ =~= b@);
                }
                r
            },
            (Array::F64(a), Array::F64(b)) => {
                let r = a == b;
                if r {
                    assert(a@ =~= b@);
                }
                r
            },
            (Array::String(a), Array::String(b)) => same_string_values(a, b),
            _ => false,
        }
    }
}

/// The value part of attribute [`KeyValue`] pairs.
pub enum Value {
    /// bool values
    Bool(bool),
    /// i64 values
    I64(i64),
    /// 64-bit float values, each given by its IEEE-754 bit pattern
    F64(u64),
    /// String values
    String(StringValue),
    /// Array of homogeneous values
    Array(Array),
}

impl View for Value {
    type V = ValueModel;

    open spec fn view(&self) -> ValueModel {
        match self {
            Value::Bool(b) => ValueModel::Bool(*b),
            Value::I64(i) => ValueModel::I64(*i),
            Value::F64(f) => ValueModel::F64(*f),
            Value::String(s) => ValueModel::String(s@),
            Value::Array(a) => ValueModel::Array(a@),
        }
    }
}

impl Value {
    /// A copy of this value.
    pub fn duplicate(&self) -> (r: Value)
        ensures
            r@ == self@,
    {
        match self {
            Value::Bool(b) => Value::Bool(*b),
            Value::I64(i) => Value::I64(*i),
            Value::F64(f) => Value::F64(*f),
            Value::String(s) => Value::String(s.duplicate()),
            Value::Array(a) => Value::Array(a.duplicate()),
        }
    }

    /// Whether the two values are of the same kind and equal; floats compare by
    /// bit pattern.
    pub fn same_as(&self, other: &Value) -> (r: bool)
        ensures
            r == (self@ == other@),
    {
        match (self, other) {
            (Value::Bool(a), Value::Bool(b)) => *a == *b,
            (Value::I64(a), Value::I64(b)) => *a == *b,
            (Value::F64(a), Value::F64(b)) => *a == *b,
            (Value::String(a), Value::String(b)) => a.0 == b.0,
            (Value::Array(a), Value::Array(b)) => a.same_as(b),
            _ => false,
        }
    }
}

/// A key-value pair describing an attribute.
pub struct KeyValue {
    /// The attribute name
    pub key: Key,
    /// The attribute value
    pub value: Value,
}

impl View for KeyValue {
    type V = KeyValueModel;

    open spec fn view(&self) -> KeyValueModel {
        KeyValueModel { key: self.key@, value: self.value@ }
    }
}

impl KeyValue {
    /// Create a new `KeyValue` pair.
    pub fn new(key: Key, value: Value) -> (r: KeyValue)
        ensures
            r@ == (KeyValueModel { key: key@, value: value@ }),
    {
        KeyValue { key, value }
    }

    /// A copy of this pair.
    pub fn duplicate(&self) -> (r: KeyValue)
        ensures
            r@ == self@,
    {
        KeyValue { key: self.key.duplicate(), value: self.value.duplicate() }
    }
}

impl PartialEq for KeyValue {
    fn eq(&self, other: &KeyValue) -> (r: bool) {
        self.key.0 == other.key.0 && self.value.same_as(&other.value)
    }
}

impl vstd::std_specs::cmp::PartialEqSpecImpl for KeyValue {
    open spec fn obeys_eq_spec() -> bool {
        true
    }

    open spec fn eq_spec(&self, other: &KeyValue) -> bool {
        self@ == other@
    }
}

impl From<Key> for String {
    /// The key's characters.
    fn from(key: Key) -> (r: String) {
        key.0
    }
}

impl vstd::std_specs::convert::FromSpecImpl<Key> for String {
    open spec fn obeys_from_spec() -> bool {
        true
    }

    closed spec fn from_spec(key: Key) -> String {
        key.0
    }
}

impl From<StringValue> for String {
    /// The value's characters.
    fn from(value: StringValue) -> (r: String) {
        value.0
    }
}

impl vstd::std_specs::convert::FromSpecImpl<StringValue> for String {
    open spec fn obeys_from_spec() -> bool {
        true
    }

    closed spec fn from_spec(value: StringValue) -> String {
        value.0
    }
}

/// An element as it stands in an array's text: in double quotes when `quoted`.
pub open spec fn array_item(item: Seq<char>, quoted: bool) -> Seq<char> {
    if quoted {
        seq!['"'] + item + seq!['"']
    } else {
        item
    }
}

/// The elements' texts, separated by commas.
pub open spec fn array_items(items: Seq<Seq<char>>, quoted: bool) -> Seq<char>
    decreases items.len(),
{
    if items.len() == 0 {
        Seq::empty()
    } else if items.len() == 1 {
        array_item(items[0], quoted)
    } else {
        array_items(items.drop_last(), quoted) + seq![','] + array_item(items.last(), quoted)
    }
}

/// The text of an array whose elements render as `items`: `[e1,e2,...]`, each
/// element in double quotes when `quoted` (an array of strings).
pub fn display_array_str(items: &[String], quoted: bool) -> (r: String)
    ensures
        r@ == seq!['['] + array_items(items@.map_values(|s: String| s@), quoted) + seq![']'],
{
    let ghost texts = items@.map_values(|s: String| s@);
    let mut r = String::new();
    proof {
        reveal_strlit("[");
        reveal_strlit("]");
        reveal_strlit(",");
        reveal_strlit("\"");
        assert("["@ =~= seq!['[']);
        assert("]"@ =~= seq![']']);
        assert(","@ =~= seq![',']);
        assert("\""@ =~= seq!['"']);
    }
    r.append("[");
    let mut i: usize = 0;
    while i < items.len()
        invariant
            i <= items@.len(),
            texts == items@.map_values(|s: String| s@),
            r@ == seq!['['] + array_items(texts.subrange(0, i as int), quoted),
            "]"@ == seq![']'],
            ","@ == seq![','],
            "\""@ == seq!['"'],
        decreases items@.len() - i,
    {
        let ghost before = r@;
        if i > 0 {
            r.append(",");
        }
        if quoted {
            r.append("\"");
        }
        r.append(items[i].as_str());
        if quoted {
            r.append("\"");
        }
        proof {
            let head = texts.subrange(0, i + 1);
            assert(head.drop_last() =~= texts.subrange(0, i as int));
            assert(head.last() == items@[i as int]@);
            if i == 0 {
                assert(array_items(head, quoted) == array_item(items@[0]@, quoted));
                assert(array_items(texts.subrange(0, 0), quoted) =~= Seq::<char>::empty());
                assert(r@ =~= before + array_item(items@[0]@, quoted));
            } else {
                assert(r@ =~= before + seq![','] + array_item(items@[i as int]@, quoted));
            }
            assert(r@ =~= seq!['['] + array_items(head, quoted));
        }
        i += 1;
    }
    assert(texts.subrange(0, i as int) =~= texts);
    r.append("]");
    r
}

} // verus!
