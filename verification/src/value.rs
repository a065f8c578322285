//! The tree value: a tagged union over null, booleans, integers, text,
//! ordered arrays and insertion-ordered objects, together with its
//! mathematical model.

use vstd::prelude::*;

verus! {

/// A node of the tree: the JSON data model with integer numbers.
/// Arrays own their elements by index; objects own theirs by key, in
/// insertion order.
#[derive(Debug, PartialEq)]
pub enum Value {
    Null,
    Bool(bool),
    Number(i64),
    Text(String),
    Array(Vec<Value>),
    Object(Vec<(String, Value)>),
}

/// The mathematical model of a `Value`: the same tree over `Seq` and `int`.
pub enum SpecValue {
    Null,
    Bool(bool),
    Number(int),
    Text(Seq<char>),
    Array(Seq<SpecValue>),
    Object(Seq<(Seq<char>, SpecValue)>),
}

/// Model of an array's elements, element by element.
pub open spec fn array_view(items: Seq<Value>) -> Seq<SpecValue>
    decreases items,
{
    if items.len() == 0 {
        Seq::empty()
    } else {
        array_view(items.drop_last()).push(items.last()@)
    }
}

/// Model of an object's entries, entry by entry.
pub open spec fn object_view(entries: Seq<(String, Value)>) -> Seq<(Seq<char>, SpecValue)>
    decreases entries,
{
    if entries.len() == 0 {
        Seq::empty()
    } else {
        object_view(entries.drop_last()).push((entries.last().0@, entries.last().1@))
    }
}

impl View for Value {
    type V = SpecValue;

    open spec fn view(&self) -> SpecValue
        decreases self,
    {
        match self {
            Value::Null => SpecValue::Null,
            Value::Bool(b) => SpecValue::Bool(*b),
            Value::Number(n) => SpecValue::Number(*n as int),
            Value::Text(s) => SpecValue::Text(s@),
            Value::Array(items) => SpecValue::Array(array_view(items@)),
            Value::Object(entries) => SpecValue::Object(object_view(entries@)),
        }
    }
}

/// An array's model has one element for each element of the array, in order.
pub proof fn lemma_array_view(items: Seq<Value>)
    ensures
        array_view(items).len() == items.len(),
        forall|i: int|
            #![trigger array_view(items)[i]]
            #![trigger items[i]@]
            0 <= i < items.len() ==> array_view(items)[i] == items[i]@,
    decreases items,
{
    if items.len() > 0 {
        lemma_array_view(items.drop_last());
        assert(array_view(items) == array_view(items.drop_last()).push(items.last()@));
        assert(array_view(items).len() == items.len());
        assert forall|i: int| 0 <= i < items.len() implies array_view(items)[i]
            == #[trigger] items[i]@ by {
            if i < items.len() - 1 {
                assert(items.drop_last()[i] == items[i]);
            } else {
                assert(items[i] == items.last());
            }
        }
    }
}

/// An object's model has one entry for each entry of the object, in order.
pub proof fn lemma_object_view(entries: Seq<(String, Value)>)
    ensures
        object_view(entries).len() == entries.len(),
        forall|i: int|
            #![trigger object_view(entries)[i]]
            #![trigger entries[i].0@]
            0 <= i < entries.len() ==> object_view(entries)[i] == (entries[i].0@, entries[i].1@),
    decreases entries,
{
    if entries.len() > 0 {
        lemma_object_view(entries.drop_last());
        assert(object_view(entries) == object_view(entries.drop_last()).push(
            (entries.last().0@, entries.last().1@),
        ));
        assert forall|i: int| 0 <= i < entries.len() implies object_view(entries)[i] == (
        #[trigger] entries[i].0@,
        entries[i].1@,
        ) by {
            if i < entries.len() - 1 {
                assert(entries.drop_last()[i] == entries[i]);
            } else {
                assert(entries[i] == entries.last());
            }
        }
    }
}

impl Value {
    /// True of the null node.
    pub fn is_null(&self) -> (r: bool)
        ensures
            r == (self@ is Null),
    {
        matches!(self, Value::Null)
    }

    /// True of an array node.
    pub fn is_array(&self) -> (r: bool)
        ensures
            r == (self@ is Array),
    {
        matches!(self, Value::Array(_))
    }

    /// True of an object node.
    pub fn is_object(&self) -> (r: bool)
        ensures
            r == (self@ is Object),
    {
        matches!(self, Value::Object(_))
    }

    /// The number a number node holds.
    pub fn as_i64(&self) -> (r: Option<i64>)
        ensures
            r is Some <==> self@ is Number,
            r is Some ==> r.unwrap() as int == self@->Number_0,
    {
        match self {
            Value::Number(n) => Some(*n),
            _ => None,
        }
    }

    /// The truth value a boolean node holds.
    pub fn as_bool(&self) -> (r: Option<bool>)
        ensures
            r is Some <==> self@ is Bool,
            r is Some ==> r.unwrap() == self@->Bool_0,
    {
        match self {
            Value::Bool(b) => Some(*b),
            _ => None,
        }
    }

    /// The text a text node holds.
    pub fn as_str(&self) -> (r: Option<&str>)
        ensures
            r is Some <==> self@ is Text,
            r is Some ==> r.unwrap()@ == self@->Text_0,
    {
        match self {
            Value::Text(s) => Some(s.as_str()),
            _ => None,
        }
    }
}

/// Replacing one array element replaces one element of the model.
pub proof fn lemma_array_view_update(items: Seq<Value>, i: int, e: Value)
    requires
        0 <= i < items.len(),
    ensures
        array_view(items.update(i, e)) =~= array_view(items).update(i, e@),
{
    lemma_array_view(items);
    lemma_array_view(items.update(i, e));
}

/// Appending an array element appends its model.
pub proof fn lemma_array_view_push(items: Seq<Value>, e: Value)
    ensures
        array_view(items.push(e)) =~= array_view(items).push(e@),
{
    lemma_array_view(items);
    lemma_array_view(items.push(e));
}

/// Replacing one object entry replaces one entry of the model.
pub proof fn lemma_object_view_update(entries: Seq<(String, Value)>, i: int, e: (String, Value))
    requires
        0 <= i < entries.len(),
    ensures
        object_view(entries.update(i, e)) =~= object_view(entries).update(i, (e.0@, e.1@)),
{
    lemma_object_view(entries);
    lemma_object_view(entries.update(i, e));
}

/// Appending an object entry appends its model.
pub proof fn lemma_object_view_push(entries: Seq<(String, Value)>, e: (String, Value))
    ensures
        object_view(entries.push(e)) =~= object_view(entries).push((e.0@, e.1@)),
{
    lemma_object_view(entries);
    lemma_object_view(entries.push(e));
}

/// Removing one array element removes one element of the model.
pub proof fn lemma_array_view_remove(items: Seq<Value>, i: int)
    requires
        0 <= i < items.len(),
    ensures
        array_view(items.remove(i)) =~= array_view(items).remove(i),
{
    lemma_array_view(items);
    lemma_array_view(items.remove(i));
}

/// Removing one object entry removes one entry of the model.
pub proof fn lemma_object_view_remove(entries: Seq<(String, Value)>, i: int)
    requires
        0 <= i < entries.len(),
    ensures
        object_view(entries.remove(i)) =~= object_view(entries).remove(i),
{
    lemma_object_view(entries);
    lemma_object_view(entries.remove(i));
}

} // verus!
