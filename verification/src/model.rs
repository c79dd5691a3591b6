//! The mathematical model of a document: what a value is, apart from how it
//! is stored. Every contract of the crate is stated over these types.

use vstd::prelude::*;

verus! {

/// A JSON value as a mathematical tree.
///
/// A number is the decimal literal that denotes it. An object is the sequence
/// of its members in the order in which their keys were first inserted.
pub ghost enum Json {
    Null,
    Bool(bool),
    Number(Seq<char>),
    String(Seq<char>),
    Array(Seq<Json>),
    Object(Seq<(Seq<char>, Json)>),
}

/// Why a text is no document.
pub ghost enum Failure {
    /// The character met at the given position cannot stand there.
    UnexpectedChar(char, int),
    /// The text ended inside a value.
    UnexpectedEndOfInput,
    /// The text scanned as a number denotes none.
    InvalidNumber(Seq<char>),
    /// A backslash followed by a character that names no escape.
    InvalidEscape(Seq<char>),
    /// What followed `\u` is not four hexadecimal digits of a scalar value.
    InvalidUnicodeEscape(Seq<char>),
}

/// No two members carry the same key.
pub open spec fn keys_distinct(members: Seq<(Seq<char>, Json)>) -> bool {
    forall|i: int, j: int|
        0 <= i < j < members.len() ==> (#[trigger] members[i]).0 != (#[trigger] members[j]).0
}

/// The index of the first member with `key`, or the number of members when
/// there is none.
pub open spec fn key_index(members: Seq<(Seq<char>, Json)>, key: Seq<char>) -> int
    decreases members.len(),
{
    if members.len() == 0 {
        0
    } else if members[0].0 == key {
        0
    } else {
        1 + key_index(members.drop_first(), key)
    }
}

/// The value stored under `key`, if any.
pub open spec fn lookup(members: Seq<(Seq<char>, Json)>, key: Seq<char>) -> Option<Json> {
    let i = key_index(members, key);
    if i < members.len() {
        Some(members[i].1)
    } else {
        None
    }
}

/// The members after `value` is stored under `key`: a member that had the key
/// keeps its place and gets the new value, a new key goes to the end.
pub open spec fn with_member(members: Seq<(Seq<char>, Json)>, key: Seq<char>, value: Json) -> Seq<
    (Seq<char>, Json),
> {
    let i = key_index(members, key);
    if i < members.len() {
        members.update(i, (key, value))
    } else {
        members.push((key, value))
    }
}

/// Structural equality: the same variant with equal payloads, where two
/// objects are equal when under every key both hold equal values or both
/// hold none, in whatever order their members stand.
pub open spec fn same(a: Json, b: Json) -> bool
    decreases a,
{
    match a {
        Json::Array(x) => {
            &&& b is Array
            &&& x.len() == b->Array_0.len()
            &&& forall|i: int| 0 <= i < x.len() ==> same(#[trigger] x[i], b->Array_0[i])
        },
        Json::Object(x) => {
            &&& b is Object
            &&& forall|key: Seq<char>|
                {
                    let i = #[trigger] key_index(x, key);
                    let j = key_index(b->Object_0, key);
                    if 0 <= i < x.len() {
                        0 <= j < b->Object_0.len() && same(x[i].1, b->Object_0[j].1)
                    } else {
                        j >= b->Object_0.len()
                    }
                }
        },
        _ => a == b,
    }
}

/// Facts about `key_index`: it is an index or the length, the member it
/// names carries the key, and no member before it does.
pub proof fn lemma_key_index(members: Seq<(Seq<char>, Json)>, key: Seq<char>)
    ensures
        0 <= key_index(members, key) <= members.len(),
        key_index(members, key) < members.len() ==> members[key_index(members, key)].0 == key,
        forall|i: int| 0 <= i < key_index(members, key) ==> (#[trigger] members[i]).0 != key,
    decreases members.len(),
{
    if members.len() > 0 && members[0].0 != key {
        let rest = members.drop_first();
        lemma_key_index(rest, key);
        assert forall|i: int| 0 <= i < key_index(members, key) implies (#[trigger] members[i]).0
            != key by {
            if i > 0 {
                assert(members[i] == rest[i - 1]);
            }
        }
    }
}

/// The first member that carries a key is the one that `key_index` names,
/// and where no member carries it `key_index` is the number of members.
proof fn lemma_key_index_is(members: Seq<(Seq<char>, Json)>, key: Seq<char>, i: int)
    requires
        0 <= i <= members.len(),
        i < members.len() ==> members[i].0 == key,
        forall|j: int| 0 <= j < i ==> (#[trigger] members[j]).0 != key,
    ensures
        key_index(members, key) == i,
{
    lemma_key_index(members, key);
}

/// Last write wins: after a value is stored under a key, the key holds that
/// value, and every other key holds what it held before.
pub proof fn lemma_lookup_with_member(
    members: Seq<(Seq<char>, Json)>,
    key: Seq<char>,
    value: Json,
    other: Seq<char>,
)
    ensures
        lookup(with_member(members, key, value), other) == if other == key {
            Some(value)
        } else {
            lookup(members, other)
        },
{
    let after = with_member(members, key, value);
    let at = key_index(members, key);
    let i = key_index(members, other);
    lemma_key_index(members, key);
    lemma_key_index(members, other);
    assert forall|j: int| 0 <= j < after.len() && j != at implies (#[trigger] after[j])
        == members[j] by {}
    if other == key {
        lemma_key_index_is(after, key, at);
    } else {
        assert forall|j: int| 0 <= j < after.len() && j < i implies (#[trigger] after[j]).0
            != other by {
            if j != at {
                assert(after[j] == members[j]);
            }
        }
        if i < members.len() {
            lemma_key_index_is(after, other, i);
        } else {
            lemma_key_index_is(after, other, after.len() as int);
        }
    }
}

/// Two objects that do not agree under one key are not equal.
pub proof fn lemma_differ_at(x: Seq<(Seq<char>, Json)>, y: Seq<(Seq<char>, Json)>, key: Seq<char>)
    requires
        !({
            let i = key_index(x, key);
            let j = key_index(y, key);
            if 0 <= i < x.len() {
                j < y.len() && same(x[i].1, y[j].1)
            } else {
                j >= y.len()
            }
        }),
    ensures
        !same(Json::Object(x), Json::Object(y)),
{
    if same(Json::Object(x), Json::Object(y)) {
        assert(Json::Object(x)->Object_0 == x);
        assert(Json::Object(y)->Object_0 == y);
        let i = key_index(x, key);
        let j = key_index(y, key);
        lemma_key_index(x, key);
        lemma_key_index(y, key);
        assert(if 0 <= i < x.len() {
            j < y.len() && same(x[i].1, y[j].1)
        } else {
            j >= y.len()
        });
    }
}

/// Every value is structurally equal to itself.
pub proof fn lemma_same_reflexive(value: Json)
    ensures
        same(value, value),
    decreases value,
{
    match value {
        Json::Array(items) => {
            assert forall|i: int| 0 <= i < items.len() implies same(
                #[trigger] items[i],
                items[i],
            ) by {
                lemma_same_reflexive(items[i]);
            }
        },
        Json::Object(members) => {
            assert forall|key: Seq<char>|
                {
                    let i = #[trigger] key_index(members, key);
                    if 0 <= i < members.len() {
                        i < members.len() && same(members[i].1, members[i].1)
                    } else {
                        i >= members.len()
                    }
                } by {
                lemma_key_index(members, key);
                let i = key_index(members, key);
                if i < members.len() {
                    lemma_same_reflexive(members[i].1);
                }
            }
        },
        _ => {},
    }
}

/// Structural equality does not depend on the side a value stands on.
pub proof fn lemma_same_symmetric(a: Json, b: Json)
    requires
        same(a, b),
    ensures
        same(b, a),
    decreases a,
{
    match (a, b) {
        (Json::Array(x), Json::Array(y)) => {
            assert forall|i: int| 0 <= i < y.len() implies same(#[trigger] y[i], x[i]) by {
                assert(same(x[i], y[i]));
                lemma_same_symmetric(x[i], y[i]);
            }
        },
        (Json::Object(x), Json::Object(y)) => {
            assert forall|key: Seq<char>|
                {
                    let j = #[trigger] key_index(y, key);
                    let i = key_index(x, key);
                    if 0 <= j < y.len() {
                        i < x.len() && same(y[j].1, x[i].1)
                    } else {
                        i >= x.len()
                    }
                } by {
                lemma_key_index(x, key);
                lemma_key_index(y, key);
                let i = key_index(x, key);
                let j = key_index(y, key);
                if i < x.len() {
                    lemma_same_symmetric(x[i].1, y[j].1);
                }
            }
        },
        _ => {},
    }
}

/// Values that are structurally equal to one value are so to each other.
pub proof fn lemma_same_transitive(a: Json, b: Json, c: Json)
    requires
        same(a, b),
        same(b, c),
    ensures
        same(a, c),
    decreases a,
{
    match (a, b, c) {
        (Json::Array(x), Json::Array(y), Json::Array(z)) => {
            assert forall|i: int| 0 <= i < x.len() implies same(#[trigger] x[i], z[i]) by {
                assert(same(x[i], y[i]));
                assert(same(y[i], z[i]));
                lemma_same_transitive(x[i], y[i], z[i]);
            }
        },
        (Json::Object(x), Json::Object(y), Json::Object(z)) => {
            assert forall|key: Seq<char>|
                {
                    let i = #[trigger] key_index(x, key);
                    let k = key_index(z, key);
                    if 0 <= i < x.len() {
                        k < z.len() && same(x[i].1, z[k].1)
                    } else {
                        k >= z.len()
                    }
                } by {
                lemma_key_index(x, key);
                lemma_key_index(y, key);
                lemma_key_index(z, key);
                let i = key_index(x, key);
                let j = key_index(y, key);
                let k = key_index(z, key);
                if i < x.len() {
                    lemma_same_transitive(x[i].1, y[j].1, z[k].1);
                }
            }
        },
        _ => {},
    }
}

} // verus!
