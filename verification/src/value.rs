//! The value tree and its read-only accessors.

use crate::model::{
    key_index, keys_distinct, lemma_differ_at, lemma_key_index, lookup, same, with_member, Json,
};
use vstd::prelude::*;

verus! {

/// The members of an object: a mapping from keys to values in which no key
/// occurs twice. Members are kept in the order in which their keys were
/// first inserted.
#[derive(Debug)]
pub struct JsonObject {
    entries: Vec<(String, JsonValue)>,
}

/// A JSON value.
///
/// A number holds the decimal literal that denotes it, so no precision is
/// lost between reading a number and writing it.
#[derive(Debug)]
pub enum JsonValue {
    Null,
    Bool(bool),
    Number(String),
    String(String),
    Array(Vec<JsonValue>),
    Object(JsonObject),
}

/// The models of the values in `items`, in order.
pub open spec fn values_view(items: Seq<JsonValue>) -> Seq<Json> {
    Seq::new(items.len(), |i: int| items[i].view())
}

/// The models of the members in `entries`, in order.
pub open spec fn members_view(entries: Seq<(String, JsonValue)>) -> Seq<(Seq<char>, Json)> {
    Seq::new(entries.len(), |i: int| (entries[i].0@, entries[i].1.view()))
}

impl JsonObject {
    /// The members, in order.
    pub closed spec fn view(&self) -> Seq<(Seq<char>, Json)>
        decreases self,
    {
        Seq::new(
            self.entries.len() as nat,
            |i: int|
                if 0 <= i < self.entries.len() {
                    (self.entries[i].0@, self.entries[i].1.view())
                } else {
                    (Seq::empty(), Json::Null)
                },
        )
    }

    #[verifier::type_invariant]
    spec fn keys_are_distinct(self) -> bool {
        keys_distinct(self.view())
    }

    /// The model of an object is made of the models of its members.
    proof fn lemma_view(self)
        ensures
            self.view() == members_view(self.entries@),
    {
        assert(self.view() =~= members_view(self.entries@));
    }

    /// An object without members.
    pub fn new() -> (r: Self)
        ensures
            r@ == Seq::<(Seq<char>, Json)>::empty(),
    {
        let r = JsonObject { entries: Vec::new() };
        assert(r.view() =~= Seq::empty());
        r
    }

    /// The number of members.
    pub fn len(&self) -> (r: usize)
        ensures
            r == self@.len(),
    {
        self.entries.len()
    }

    /// Whether the object has no member.
    pub fn is_empty(&self) -> (r: bool)
        ensures
            r == (self@.len() == 0),
    {
        self.entries.len() == 0
    }

    /// The members as stored, in order.
    pub fn entries(&self) -> (r: &Vec<(String, JsonValue)>)
        ensures
            members_view(r@) == self@,
            keys_distinct(self@),
    {
        proof {
            use_type_invariant(self);
            assert(members_view(self.entries@) =~= self.view());
        }
        &self.entries
    }

    /// The index of the member with `key`, or the number of members.
    fn position(&self, key: &String) -> (r: usize)
        ensures
            r == key_index(self@, key@),
            r <= self@.len(),
    {
        let mut i: usize = 0;
        while i < self.entries.len()
            invariant
                i <= self.entries.len(),
                forall|j: int| 0 <= j < i ==> (#[trigger] self@[j]).0 != key@,
            decreases self.entries.len() - i,
        {
            assert(self@[i as int].0 == self.entries[i as int].0@);
            if self.entries[i].0 == *key {
                proof {
                    lemma_key_index(self@, key@);
                }
                return i;
            }
            i += 1;
        }
        proof {
            lemma_key_index(self@, key@);
        }
        i
    }

    /// The value stored under `key`, if there is one.
    pub fn get(&self, key: &str) -> (r: Option<&JsonValue>)
        ensures
            match r {
                Some(value) => lookup(self@, key@) == Some(value@),
                None => lookup(self@, key@) is None,
            },
    {
        let owned = key.to_owned();
        let i = self.position(&owned);
        if i < self.entries.len() {
            Some(&self.entries[i].1)
        } else {
            None
        }
    }

    /// Stores `value` under `key`. A member that had the key keeps its place
    /// and gets the new value; a new key goes to the end.
    pub fn insert(&mut self, key: String, value: JsonValue)
        ensures
            final(self)@ == with_member(old(self)@, key@, value@),
    {
        proof {
            use_type_invariant(&*self);
            lemma_key_index(self@, key@);
        }
        let ghost before = self@;
        let i = self.position(&key);
        let mut entries: Vec<(String, JsonValue)> = Vec::new();
        proof {
            self.lemma_view();
            assert forall|o: JsonObject| #[trigger] o.view() == members_view(o.entries@) by {
                o.lemma_view();
            }
        }
        core::mem::swap(&mut self.entries, &mut entries);
        if i < entries.len() {
            entries.set(i, (key, value));
            assert(members_view(entries@) =~= before.update(i as int, (key@, value@)));
        } else {
            entries.push((key, value));
            assert(members_view(entries@) =~= before.push((key@, value@)));
        }
        let ghost after = members_view(entries@);
        assert(keys_distinct(after));
        core::mem::swap(&mut self.entries, &mut entries);
    }
}

impl Clone for JsonObject {
    fn clone(&self) -> (r: Self)
        ensures
            r@ == self@,
        decreases self,
    {
        proof {
            use_type_invariant(self);
        }
        let mut entries: Vec<(String, JsonValue)> = Vec::new();
        let mut i: usize = 0;
        while i < self.entries.len()
            invariant
                i <= self.entries.len(),
                entries.len() == i,
                forall|j: int|
                    0 <= j < i ==> (#[trigger] entries[j]).0@ == self.entries[j].0@
                        && entries[j].1@ == self.entries[j].1@,
            decreases self.entries.len() - i,
        {
            assert(decreases_to!(self.entries => self.entries[i as int]));
            let key = self.entries[i].0.clone();
            let value = self.entries[i].1.clone();
            entries.push((key, value));
            i += 1;
        }
        proof {
            assert(members_view(entries@) =~= self.view());
            (JsonObject { entries }).lemma_view();
        }
        JsonObject { entries }
    }
}

impl Clone for JsonValue {
    #[verifier::loop_isolation(false)]
    fn clone(&self) -> (r: Self)
        ensures
            r@ == self@,
        decreases self,
    {
        match self {
            JsonValue::Null => JsonValue::Null,
            JsonValue::Bool(b) => JsonValue::Bool(*b),
            JsonValue::Number(text) => JsonValue::Number(text.clone()),
            JsonValue::String(text) => JsonValue::String(text.clone()),
            JsonValue::Array(items) => {
                let mut copies: Vec<JsonValue> = Vec::new();
                let mut i: usize = 0;
                while i < items.len()
                    invariant
                        i <= items.len(),
                        copies.len() == i,
                        forall|j: int| 0 <= j < i ==> (#[trigger] copies[j])@ == items[j]@,
                    decreases items.len() - i,
                {
                    assert(decreases_to!(items => items[i as int]));
                    copies.push(items[i].clone());
                    i += 1;
                }
                proof {
                    Self::lemma_array_view(*items);
                    Self::lemma_array_view(copies);
                    assert(values_view(copies@) =~= values_view(items@));
                }
                JsonValue::Array(copies)
            },
            JsonValue::Object(object) => JsonValue::Object(object.clone()),
        }
    }
}

impl JsonValue {
    /// The value as a mathematical tree.
    pub open spec fn view(&self) -> Json
        decreases self,
    {
        match self {
            JsonValue::Null => Json::Null,
            JsonValue::Bool(b) => Json::Bool(*b),
            JsonValue::Number(text) => Json::Number(text@),
            JsonValue::String(text) => Json::String(text@),
            JsonValue::Array(items) => Json::Array(
                Seq::new(
                    items.len() as nat,
                    |i: int|
                        if 0 <= i < items.len() {
                            items[i].view()
                        } else {
                            Json::Null
                        },
                ),
            ),
            JsonValue::Object(object) => Json::Object(object.view()),
        }
    }

    /// The model of an array is made of the models of its items.
    pub proof fn lemma_array_view(items: Vec<JsonValue>)
        ensures
            JsonValue::Array(items)@ == Json::Array(values_view(items@)),
    {
        assert(JsonValue::Array(items)@->Array_0 =~= values_view(items@));
    }

    /// The text, if the value is a string.
    pub fn as_str(&self) -> (r: Option<&str>)
        ensures
            match r {
                Some(text) => self@ == Json::String(text@),
                None => !(self@ is String),
            },
    {
        match self {
            JsonValue::String(text) => Some(text.as_str()),
            _ => None,
        }
    }

    /// The decimal literal, if the value is a number.
    pub fn as_number(&self) -> (r: Option<&str>)
        ensures
            match r {
                Some(text) => self@ == Json::Number(text@),
                None => !(self@ is Number),
            },
    {
        match self {
            JsonValue::Number(text) => Some(text.as_str()),
            _ => None,
        }
    }

    /// The truth value, if the value is a boolean.
    pub fn as_bool(&self) -> (r: Option<bool>)
        ensures
            match r {
                Some(b) => self@ == Json::Bool(b),
                None => !(self@ is Bool),
            },
    {
        match self {
            JsonValue::Bool(b) => Some(*b),
            _ => None,
        }
    }

    /// The items, if the value is an array.
    pub fn as_array(&self) -> (r: Option<&Vec<JsonValue>>)
        ensures
            match r {
                Some(items) => self@ == Json::Array(values_view(items@)),
                None => !(self@ is Array),
            },
    {
        match self {
            JsonValue::Array(items) => {
                proof {
                    Self::lemma_array_view(*items);
                }
                Some(items)
            },
            _ => None,
        }
    }

    /// The members, if the value is an object.
    pub fn as_object(&self) -> (r: Option<&JsonObject>)
        ensures
            match r {
                Some(object) => self@ == Json::Object(object@),
                None => !(self@ is Object),
            },
    {
        match self {
            JsonValue::Object(object) => Some(object),
            _ => None,
        }
    }

    /// The value stored under `key`, if this is an object that has the key.
    pub fn get(&self, key: &str) -> (r: Option<&JsonValue>)
        ensures
            match r {
                Some(value) => self@ is Object && lookup(self@->Object_0, key@) == Some(value@),
                None => self@ is Object ==> lookup(self@->Object_0, key@) is None,
            },
    {
        match self {
            JsonValue::Object(object) => object.get(key),
            _ => None,
        }
    }

    /// The item at `index`, if this is an array that is long enough.
    pub fn get_index(&self, index: usize) -> (r: Option<&JsonValue>)
        ensures
            match r {
                Some(value) => self@ is Array && index < self@->Array_0.len()
                    && self@->Array_0[index as int] == value@,
                None => self@ is Array ==> index >= self@->Array_0.len(),
            },
    {
        match self {
            JsonValue::Array(items) => {
                if index < items.len() {
                    Some(&items[index])
                } else {
                    None
                }
            },
            _ => None,
        }
    }
}

impl JsonValue {
    /// Whether the two values are structurally equal: `==` on values.
    #[verifier::loop_isolation(false)]
    pub fn equals(&self, other: &JsonValue) -> (r: bool)
        ensures
            r == same(self@, other@),
        decreases self,
    {
        match (self, other) {
            (JsonValue::Null, JsonValue::Null) => true,
            (JsonValue::Bool(a), JsonValue::Bool(b)) => *a == *b,
            (JsonValue::Number(a), JsonValue::Number(b)) => *a == *b,
            (JsonValue::String(a), JsonValue::String(b)) => *a == *b,
            (JsonValue::Array(a), JsonValue::Array(b)) => {
                proof {
                    Self::lemma_array_view(*a);
                    Self::lemma_array_view(*b);
                }
                if a.len() != b.len() {
                    return false;
                }
                let mut i: usize = 0;
                while i < a.len()
                    invariant
                        i <= a.len(),
                        a.len() == b.len(),
                        forall|k: int| 0 <= k < i ==> same(#[trigger] a[k]@, b[k]@),
                    decreases a.len() - i,
                {
                    assert(decreases_to!(a => a[i as int]));
                    if !a[i].equals(&b[i]) {
                        assert(!same(values_view(a@)[i as int], values_view(b@)[i as int]));
                        return false;
                    }
                    i += 1;
                }
                assert forall|k: int| 0 <= k < a.len() implies same(
                    #[trigger] values_view(a@)[k],
                    values_view(b@)[k],
                ) by {
                    assert(same(a[k]@, b[k]@));
                }
                true
            },
            (JsonValue::Object(a), JsonValue::Object(b)) => a.equals(b),
            _ => false,
        }
    }
}

impl JsonObject {
    /// Whether the two objects hold equal values under the same keys, in
    /// whatever order: `==` on objects.
    pub fn equals(&self, other: &JsonObject) -> (r: bool)
        ensures
            r == same(Json::Object(self@), Json::Object(other@)),
        decreases self,
    {
        proof {
            use_type_invariant(self);
            self.lemma_view();
            other.lemma_view();
        }
        let mut i: usize = 0;
        while i < self.entries.len()
            invariant
                i <= self.entries.len(),
                self@ == members_view(self.entries@),
                other@ == members_view(other.entries@),
                keys_distinct(self@),
                forall|k: int|
                    0 <= k < i ==> {
                        let j = key_index(other@, (#[trigger] self@[k]).0);
                        j < other@.len() && same(self@[k].1, other@[j].1)
                    },
            decreases self.entries.len() - i,
        {
            assert(decreases_to!(self.entries => self.entries[i as int]));
            assert(self@[i as int] == (self.entries[i as int].0@, self.entries[i as int].1@));
            let ghost key = self@[i as int].0;
            proof {
                lemma_key_index(self@, key);
                lemma_key_index(other@, key);
                assert(key_index(self@, key) == i);
            }
            let j = other.position(&self.entries[i].0);
            if j >= other.entries.len() {
                proof {
                    lemma_differ_at(self@, other@, key);
                }
                return false;
            }
            assert(other@[j as int] == (other.entries[j as int].0@, other.entries[j as int].1@));
            if !self.entries[i].1.equals(&other.entries[j].1) {
                proof {
                    lemma_differ_at(self@, other@, key);
                }
                return false;
            }
            i += 1;
        }
        let mut j: usize = 0;
        while j < other.entries.len()
            invariant
                j <= other.entries.len(),
                self@ == members_view(self.entries@),
                other@ == members_view(other.entries@),
                forall|k: int|
                    0 <= k < j ==> key_index(self@, (#[trigger] other@[k]).0) < self@.len(),
            decreases other.entries.len() - j,
        {
            assert(other@[j as int] == (other.entries[j as int].0@, other.entries[j as int].1@));
            let ghost key = other@[j as int].0;
            proof {
                lemma_key_index(self@, key);
                lemma_key_index(other@, key);
            }
            let i = self.position(&other.entries[j].0);
            if i >= self.entries.len() {
                proof {
                    lemma_differ_at(self@, other@, key);
                }
                return false;
            }
            j += 1;
        }
        proof {
            assert forall|key: Seq<char>|
                {
                    let i = #[trigger] key_index(self@, key);
                    let j = key_index(other@, key);
                    if 0 <= i < self@.len() {
                        0 <= j < other@.len() && same(self@[i].1, other@[j].1)
                    } else {
                        j >= other@.len()
                    }
                } by {
                lemma_key_index(self@, key);
                lemma_key_index(other@, key);
            }
            assert(Json::Object(self@)->Object_0 == self@);
            assert(Json::Object(other@)->Object_0 == other@);
        }
        true
    }
}

impl PartialEq for JsonObject {
    fn eq(&self, other: &Self) -> (r: bool) {
        self.equals(other)
    }
}

impl vstd::std_specs::cmp::PartialEqSpecImpl for JsonObject {
    open spec fn obeys_eq_spec() -> bool {
        true
    }

    open spec fn eq_spec(&self, other: &Self) -> bool {
        same(Json::Object(self@), Json::Object(other@))
    }
}

impl PartialEq for JsonValue {
    fn eq(&self, other: &Self) -> (r: bool) {
        self.equals(other)
    }
}

impl vstd::std_specs::cmp::PartialEqSpecImpl for JsonValue {
    open spec fn obeys_eq_spec() -> bool {
        true
    }

    open spec fn eq_spec(&self, other: &Self) -> bool {
        same(self@, other@)
    }
}

} // verus!
