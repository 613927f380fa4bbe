//! JSON values as a tree of plain data, and what `serde_json` does with them:
//! reading them from bytes and writing them as text.

use serde_json::Value;
use vstd::prelude::*;

use crate::text::{str_equal, str_less, text_less, text_order_is_total, text_order_is_transitive};

verus! {

/// A JSON number. A number with a fraction or an exponent is kept as the bits
/// of the IEEE double that it is read as.
#[derive(Clone, Copy, Debug)]
pub enum Number {
    PosInt(u64),
    NegInt(i64),
    Float(u64),
}

/// A JSON value. The members of an object stand in the order of their keys.
#[derive(Debug)]
pub enum Json {
    Null,
    Bool(bool),
    Number(Number),
    Text(String),
    Array(Vec<Json>),
    Object(Vec<(String, Json)>),
}

/// What a `Json` holds.
pub enum JsonView {
    Null,
    Bool(bool),
    Number(Number),
    Text(Seq<char>),
    Array(Seq<JsonView>),
    Object(Seq<(Seq<char>, JsonView)>),
}

impl Json {
    /// The value as plain data.
    pub open spec fn view(&self) -> JsonView
        decreases self,
    {
        match self {
            Json::Null => JsonView::Null,
            Json::Bool(b) => JsonView::Bool(*b),
            Json::Number(n) => JsonView::Number(*n),
            Json::Text(t) => JsonView::Text(t@),
            Json::Array(items) => JsonView::Array(
                Seq::new(
                    items@.len(),
                    |i: int|
                        if 0 <= i < items@.len() {
                            items@[i].view()
                        } else {
                            JsonView::Null
                        },
                ),
            ),
            Json::Object(members) => JsonView::Object(
                Seq::new(
                    members@.len(),
                    |i: int|
                        if 0 <= i < members@.len() {
                            (members@[i].0@, members@[i].1.view())
                        } else {
                            (Seq::empty(), JsonView::Null)
                        },
                ),
            ),
        }
    }
}

/// What a list of values holds.
pub open spec fn items_view(items: Seq<Json>) -> Seq<JsonView> {
    Seq::new(items.len(), |i: int| items[i]@)
}

/// What a list of members holds.
pub open spec fn members_view(members: Seq<(String, Json)>) -> Seq<(Seq<char>, JsonView)> {
    Seq::new(members.len(), |i: int| (members[i].0@, members[i].1@))
}

/// The view of a compound value is made of the views of its parts.
pub proof fn compound_view(json: &Json)
    ensures
        json matches Json::Array(items) ==> json@ == JsonView::Array(items_view(items@)),
        json matches Json::Object(members) ==> json@ == JsonView::Object(members_view(members@)),
{
    match json {
        Json::Array(items) => {
            assert(json@->Array_0 =~= items_view(items@));
        },
        Json::Object(members) => {
            assert(json@->Object_0 =~= members_view(members@));
        },
        _ => {},
    }
}

impl Number {
    /// Whether `serde_json` has this number: a negative integer is negative,
    /// a double is finite.
    pub open spec fn wf(self) -> bool {
        match self {
            Number::PosInt(_) => true,
            Number::NegInt(n) => n < 0,
            Number::Float(bits) => is_finite(bits),
        }
    }
}

/// Whether the bits are those of a finite double.
pub open spec fn is_finite(bits: u64) -> bool {
    (bits / 0x10_0000_0000_0000) % 0x800 != 0x7ff
}

/// Whether the bits are those of a zero, of either sign.
pub open spec fn is_zero(bits: u64) -> bool {
    bits % 0x8000_0000_0000_0000 == 0
}

/// Whether the keys stand in strictly increasing order.
pub open spec fn keys_ascend(members: Seq<(Seq<char>, JsonView)>) -> bool {
    forall|i: int, j: int|
        0 <= i < j < members.len() ==> text_less(#[trigger] members[i].0, #[trigger] members[j].0)
}

impl JsonView {
    /// Whether this is a value of `serde_json`: its numbers are, and the keys
    /// of each object ascend.
    pub open spec fn wf(self) -> bool
        decreases self,
    {
        match self {
            JsonView::Number(n) => n.wf(),
            JsonView::Array(items) => forall|i: int|
                0 <= i < items.len() ==> (#[trigger] items[i]).wf(),
            JsonView::Object(members) => {
                &&& keys_ascend(members)
                &&& members.len() <= isize::MAX
                &&& forall|i: int| 0 <= i < members.len() ==> (#[trigger] members[i]).1.wf()
            },
            _ => true,
        }
    }
}

// ----------------------------------------------------------------------
// Calls into serde_json
// ----------------------------------------------------------------------

#[verifier::external_type_specification]
#[verifier::external_body]
pub struct ExValue(Value);

/// What a `serde_json::Value` holds.
pub uninterp spec fn value_view(value: Value) -> JsonView;

/// What `serde_json::from_slice` reads as a `Value`, nothing where it fails.
pub uninterp spec fn json_parse(bytes: Seq<u8>) -> Option<JsonView>;

/// What `serde_json::Value::to_string` writes.
pub uninterp spec fn json_text(json: JsonView) -> Seq<char>;

/// `serde_json::from_slice` into a `Value`.
#[verifier::external_body]
fn value_from_slice(bytes: &[u8]) -> (value: Option<Value>)
    ensures
        match value {
            Some(v) => json_parse(bytes@) == Some(value_view(v)),
            None => json_parse(bytes@) is None,
        },
{
    serde_json::from_slice(bytes).ok()
}

/// Takes a `serde_json::Value` apart, variant by variant. Its map hands the
/// members out in the order of their keys.
#[verifier::external_body]
fn json_of_value(value: Value) -> (json: Json)
    ensures
        json@ == value_view(value),
        json@.wf(),
{
    match value {
        Value::Null => Json::Null,
        Value::Bool(b) => Json::Bool(b),
        Value::Number(n) => Json::Number(match (n.as_u64(), n.as_i64()) {
            (Some(u), _) => Number::PosInt(u),
            (_, Some(i)) => Number::NegInt(i),
            _ => Number::Float(n.as_f64().unwrap_or_default().to_bits()),
        }),
        Value::String(s) => Json::Text(s),
        Value::Array(a) => Json::Array(a.into_iter().map(json_of_value).collect()),
        Value::Object(o) => Json::Object(
            o.into_iter().map(|m| (m.0, json_of_value(m.1))).collect(),
        ),
    }
}

/// Puts a `serde_json::Value` together, variant by variant.
#[verifier::external_body]
fn value_of_json(json: &Json) -> (value: Value)
    requires
        json@.wf(),
    ensures
        value_view(value) == json@,
{
    match json {
        Json::Null => Value::Null,
        Json::Bool(b) => Value::from(*b),
        Json::Number(Number::PosInt(n)) => Value::from(*n),
        Json::Number(Number::NegInt(n)) => Value::from(*n),
        Json::Number(Number::Float(b)) => Value::from(
            bytes::Buf::get_f64(&mut &b.to_be_bytes()[..]),
        ),
        Json::Text(t) => Value::from(t.as_str()),
        Json::Array(a) => a.iter().map(value_of_json).collect(),
        Json::Object(o) => o.iter().map(|m| (m.0.clone(), value_of_json(&m.1))).collect(),
    }
}

/// `serde_json::Value::to_string`.
#[verifier::external_body]
fn value_to_string(value: &Value) -> (text: String)
    ensures
        text@ == json_text(value_view(*value)),
{
    value.to_string()
}

/// Reads a JSON value.
pub fn parse(bytes: &[u8]) -> (json: Option<Json>)
    ensures
        match json {
            Some(j) => json_parse(bytes@) == Some(j@) && j@.wf(),
            None => json_parse(bytes@) is None,
        },
{
    match value_from_slice(bytes) {
        Some(value) => Some(json_of_value(value)),
        None => None,
    }
}

// ----------------------------------------------------------------------
// Members, elements, equality
// ----------------------------------------------------------------------

/// The value of the first member with this key.
pub open spec fn member(members: Seq<(Seq<char>, JsonView)>, key: Seq<char>) -> Option<JsonView>
    decreases members.len(),
{
    if members.len() == 0 {
        None
    } else if members[0].0 == key {
        Some(members[0].1)
    } else {
        member(members.drop_first(), key)
    }
}

impl JsonView {
    /// The member of an object with this key.
    pub open spec fn get_key(self, key: Seq<char>) -> Option<JsonView> {
        match self {
            JsonView::Object(members) => member(members, key),
            _ => None,
        }
    }

    /// The element of an array at this place.
    pub open spec fn get_index(self, at: int) -> Option<JsonView> {
        match self {
            JsonView::Array(items) => if 0 <= at < items.len() {
                Some(items[at])
            } else {
                None
            },
            _ => None,
        }
    }

    /// Equality of values: as data, except that the two zeros among the
    /// doubles are one number.
    pub open spec fn same(self, other: JsonView) -> bool
        decreases self,
    {
        match (self, other) {
            (JsonView::Number(Number::Float(a)), JsonView::Number(Number::Float(b))) => a == b || (
            is_zero(a) && is_zero(b)),
            (JsonView::Array(a), JsonView::Array(b)) => {
                &&& a.len() == b.len()
                &&& forall|i: int| 0 <= i < a.len() ==> (#[trigger] a[i]).same(b[i])
            },
            (JsonView::Object(a), JsonView::Object(b)) => {
                &&& a.len() == b.len()
                &&& forall|i: int|
                    0 <= i < a.len() ==> (#[trigger] a[i]).0 == b[i].0 && a[i].1.same(b[i].1)
            },
            _ => self == other,
        }
    }
}

/// A member of a well-formed object is well-formed.
proof fn member_wf(members: Seq<(Seq<char>, JsonView)>, key: Seq<char>)
    requires
        forall|i: int| 0 <= i < members.len() ==> (#[trigger] members[i]).1.wf(),
    ensures
        member(members, key) matches Some(v) ==> v.wf(),
    decreases members.len(),
{
    if members.len() > 0 && members[0].0 != key {
        member_wf(members.drop_first(), key);
    }
}

impl Json {
    /// The member of an object with this key.
    pub fn get_key(&self, key: &str) -> (value: Option<&Json>)
        ensures
            match value {
                Some(v) => self@.get_key(key@) == Some(v@),
                None => self@.get_key(key@) is None,
            },
            self@.wf() ==> (value matches Some(v) ==> v@.wf()),
    {
        proof {
            compound_view(self);
        }
        match self {
            Json::Object(members) => {
                let ghost all = members_view(members@);
                proof {
                    if self@.wf() {
                        member_wf(all, key@);
                    }
                }
                assert(all.skip(0) =~= all);
                for i in 0..members.len()
                    invariant
                        all == members_view(members@),
                        self@ == JsonView::Object(all),
                        self@.wf() ==> (member(all, key@) matches Some(v) ==> v.wf()),
                        member(all, key@) == member(all.skip(i as int), key@),
                {
                    assert(all.skip(i as int).drop_first() =~= all.skip(i as int + 1));
                    if str_equal(&members[i].0, key) {
                        return Some(&members[i].1);
                    }
                }
                None
            },
            _ => None,
        }
    }

    /// The element of an array at this place.
    pub fn get_index(&self, at: usize) -> (value: Option<&Json>)
        ensures
            match value {
                Some(v) => self@.get_index(at as int) == Some(v@),
                None => self@.get_index(at as int) is None,
            },
            self@.wf() ==> (value matches Some(v) ==> v@.wf()),
    {
        proof {
            compound_view(self);
        }
        match self {
            Json::Array(items) => {
                if at < items.len() {
                    assert(items_view(items@)[at as int] == items@[at as int]@);
                    Some(&items[at])
                } else {
                    None
                }
            },
            _ => None,
        }
    }

    /// Whether two values are equal.
    pub fn same(&self, other: &Json) -> (equal: bool)
        ensures
            equal == self@.same(other@),
        decreases self,
    {
        proof {
            compound_view(self);
            compound_view(other);
        }
        match (self, other) {
            (Json::Null, Json::Null) => true,
            (Json::Bool(a), Json::Bool(b)) => *a == *b,
            (Json::Number(Number::PosInt(a)), Json::Number(Number::PosInt(b))) => *a == *b,
            (Json::Number(Number::NegInt(a)), Json::Number(Number::NegInt(b))) => *a == *b,
            (Json::Number(Number::Float(a)), Json::Number(Number::Float(b))) => *a == *b || (*a
                % 0x8000_0000_0000_0000 == 0 && *b % 0x8000_0000_0000_0000 == 0),
            (Json::Text(a), Json::Text(b)) => str_equal(a, b),
            (Json::Array(a), Json::Array(b)) => {
                if a.len() != b.len() {
                    return false;
                }
                for i in 0..a.len()
                    invariant
                        *self == Json::Array(*a),
                        a@.len() == b@.len(),
                        self@ == JsonView::Array(items_view(a@)),
                        other@ == JsonView::Array(items_view(b@)),
                        forall|j: int|
                            0 <= j < i ==> (#[trigger] items_view(a@)[j]).same(items_view(b@)[j]),
                {
                    assert(decreases_to!(*self => self->Array_0));
                    assert(decreases_to!(*a => a@));
                    assert(decreases_to!(a@ => a@[i as int]));
                    assert(items_view(a@)[i as int] == a@[i as int]@);
                    assert(items_view(b@)[i as int] == b@[i as int]@);
                    if !a[i].same(&b[i]) {
                        return false;
                    }
                }
                true
            },
            (Json::Object(a), Json::Object(b)) => {
                if a.len() != b.len() {
                    return false;
                }
                for i in 0..a.len()
                    invariant
                        *self == Json::Object(*a),
                        a@.len() == b@.len(),
                        self@ == JsonView::Object(members_view(a@)),
                        other@ == JsonView::Object(members_view(b@)),
                        forall|j: int|
                            0 <= j < i ==> (#[trigger] members_view(a@)[j]).0 == members_view(
                                b@,
                            )[j].0 && members_view(a@)[j].1.same(members_view(b@)[j].1),
                {
                    assert(decreases_to!(*self => self->Object_0));
                    assert(decreases_to!(*a => a@));
                    assert(decreases_to!(a@ => a@[i as int]));
                    assert(decreases_to!(a@[i as int] => a@[i as int].1));
                    assert(members_view(a@)[i as int] == (a@[i as int].0@, a@[i as int].1@));
                    assert(members_view(b@)[i as int] == (b@[i as int].0@, b@[i as int].1@));
                    if !str_equal(&a[i].0, &b[i].0) || !a[i].1.same(&b[i].1) {
                        return false;
                    }
                }
                true
            },
            _ => false,
        }
    }

    /// The compact text of the value.
    pub fn to_text(&self) -> (text: String)
        requires
            self@.wf(),
        ensures
            text@ == json_text(self@),
    {
        value_to_string(&value_of_json(self))
    }

    /// An equal value.
    pub fn copy(&self) -> (r: Json)
        ensures
            r@ == self@,
        decreases self,
    {
        proof {
            compound_view(self);
        }
        match self {
            Json::Null => Json::Null,
            Json::Bool(b) => Json::Bool(*b),
            Json::Number(n) => Json::Number(*n),
            Json::Text(t) => Json::Text(t.clone()),
            Json::Array(items) => {
                let mut out: Vec<Json> = Vec::new();
                for i in 0..items.len()
                    invariant
                        *self == Json::Array(*items),
                        out@.len() == i,
                        forall|j: int| 0 <= j < i ==> (#[trigger] out@[j])@ == items@[j]@,
                {
                    assert(decreases_to!(*self => self->Array_0));
                    assert(decreases_to!(*items => items@));
                    assert(decreases_to!(items@ => items@[i as int]));
                    out.push(items[i].copy());
                }
                let r: Json = Json::Array(out);
                proof {
                    compound_view(&r);
                    assert(items_view(out@) =~= items_view(items@));
                }
                r
            },
            Json::Object(members) => {
                let mut out: Vec<(String, Json)> = Vec::new();
                for i in 0..members.len()
                    invariant
                        *self == Json::Object(*members),
                        out@.len() == i,
                        forall|j: int|
                            0 <= j < i ==> (#[trigger] out@[j]).0@ == members@[j].0@ && out@[j].1@
                                == members@[j].1@,
                {
                    assert(decreases_to!(*self => self->Object_0));
                    assert(decreases_to!(*members => members@));
                    assert(decreases_to!(members@ => members@[i as int]));
                    assert(decreases_to!(members@[i as int] => members@[i as int].1));
                    out.push((members[i].0.clone(), members[i].1.copy()));
                }
                let r: Json = Json::Object(out);
                proof {
                    compound_view(&r);
                    assert(members_view(out@) =~= members_view(members@));
                }
                r
            },
        }
    }
}

// ----------------------------------------------------------------------
// Building objects
// ----------------------------------------------------------------------

/// The members with one put in: in the place of the one with its key, or else
/// where the order of the keys wants it.
pub open spec fn put(
    members: Seq<(Seq<char>, JsonView)>,
    key: Seq<char>,
    value: JsonView,
) -> Seq<(Seq<char>, JsonView)>
    decreases members.len(),
{
    if members.len() == 0 {
        seq![(key, value)]
    } else if members[0].0 == key {
        seq![(key, value)] + members.drop_first()
    } else if text_less(key, members[0].0) {
        seq![(key, value)] + members
    } else {
        seq![members[0]] + put(members.drop_first(), key, value)
    }
}

/// Putting a member in keeps the keys in order, makes the key mean the value,
/// and leaves every other key as it was.
pub proof fn put_is_update(
    members: Seq<(Seq<char>, JsonView)>,
    key: Seq<char>,
    value: JsonView,
    other: Seq<char>,
)
    requires
        keys_ascend(members),
    ensures
        keys_ascend(put(members, key, value)),
        member(put(members, key, value), key) == Some(value),
        other != key ==> member(put(members, key, value), other) == member(members, other),
        put(members, key, value).len() <= members.len() + 1,
        forall|i: int|
            0 <= i < put(members, key, value).len() ==> (#[trigger] put(
                members,
                key,
                value,
            )[i]).0 == key || members.contains(put(members, key, value)[i]),
    decreases members.len(),
{
    let after = put(members, key, value);
    if members.len() == 0 {
        assert(after.drop_first() =~= seq![]);
        assert(member(after.drop_first(), other) is None);
        assert(member(members, other) is None);
    } else {
        let rest = members.drop_first();
        let head = members[0];
        assert(members =~= seq![head] + rest);
        assert(keys_ascend(rest)) by {
            assert forall|i: int, j: int| 0 <= i < j < rest.len() implies text_less(
                #[trigger] rest[i].0,
                #[trigger] rest[j].0,
            ) by {
                assert(rest[i] == members[i + 1]);
                assert(rest[j] == members[j + 1]);
            }
        }
        if head.0 == key {
            assert(after.drop_first() =~= rest);
            assert forall|i: int, j: int| 0 <= i < j < after.len() implies text_less(
                #[trigger] after[i].0,
                #[trigger] after[j].0,
            ) by {
                assert(after[j] == members[j]);
                assert(members[i].0 == after[i].0);
            }
            assert forall|i: int| 0 <= i < after.len() implies (#[trigger] after[i]).0 == key
                || members.contains(after[i]) by {
                if i > 0 {
                    assert(after[i] == members[i]);
                }
            }
        } else if text_less(key, head.0) {
            assert(after.drop_first() =~= members);
            assert forall|i: int, j: int| 0 <= i < j < after.len() implies text_less(
                #[trigger] after[i].0,
                #[trigger] after[j].0,
            ) by {
                assert(after[j] == members[j - 1]);
                if i > 0 {
                    assert(after[i] == members[i - 1]);
                } else if j > 1 {
                    assert(text_less(members[0].0, members[j - 1].0));
                    text_order_is_transitive(key, head.0, members[j - 1].0);
                }
            }
            assert forall|i: int| 0 <= i < after.len() implies (#[trigger] after[i]).0 == key
                || members.contains(after[i]) by {
                if i > 0 {
                    assert(after[i] == members[i - 1]);
                }
            }
        } else {
            text_order_is_total(key, head.0);
            put_is_update(rest, key, value, other);
            let tail = put(rest, key, value);
            assert(after.drop_first() =~= tail);
            assert forall|i: int, j: int| 0 <= i < j < after.len() implies text_less(
                #[trigger] after[i].0,
                #[trigger] after[j].0,
            ) by {
                assert(after[j] == tail[j - 1]);
                if i > 0 {
                    assert(after[i] == tail[i - 1]);
                } else if tail[j - 1].0 != key {
                    let k = choose|k: int| 0 <= k < rest.len() && rest[k] == tail[j - 1];
                    assert(rest.contains(tail[j - 1]));
                    assert(rest[k] == members[k + 1]);
                }
            }
            assert forall|i: int| 0 <= i < after.len() implies (#[trigger] after[i]).0 == key
                || members.contains(after[i]) by {
                if i > 0 {
                    assert(after[i] == tail[i - 1]);
                    if tail[i - 1].0 != key {
                        let k = choose|k: int| 0 <= k < rest.len() && rest[k] == tail[i - 1];
                        assert(rest.contains(tail[i - 1]));
                        assert(members[k + 1] == after[i]);
                    }
                } else {
                    assert(after[0] == members[0]);
                }
            }
        }
    }
}

/// Puts a member into a list that is in order.
pub fn put_member(members: &mut Vec<(String, Json)>, key: String, value: Json)
    requires
        keys_ascend(members_view(old(members)@)),
    ensures
        members_view(final(members)@) == put(members_view(old(members)@), key@, value@),
{
    let ghost before = members_view(members@);
    let ghost wanted = put(before, key@, value@);
    let mut at: usize = 0;
    assert(before.skip(0) =~= before);
    assert(before.take(0) + put(before, key@, value@) =~= wanted);
    while at < members.len() && str_less(&members[at].0, &key)
        invariant
            members@ == old(members)@,
            before == members_view(members@),
            at <= before.len(),
            keys_ascend(before),
            wanted == before.take(at as int) + put(before.skip(at as int), key@, value@),
        decreases members@.len() - at,
    {
        proof {
            let rest = before.skip(at as int);
            assert(rest[0] == (members@[at as int].0@, members@[at as int].1@));
            text_order_is_total(rest[0].0, key@);
            assert(rest.drop_first() =~= before.skip(at as int + 1));
            assert(before.take(at as int) + (seq![rest[0]] + put(
                rest.drop_first(),
                key@,
                value@,
            )) =~= before.take(at as int + 1) + put(rest.drop_first(), key@, value@));
        }
        at += 1;
    }
    let ghost rest = before.skip(at as int);
    if at < members.len() && str_equal(&members[at].0, &key) {
        assert(rest[0].0 == key@);
        assert(rest.drop_first() =~= before.skip(at as int + 1));
        members[at] = (key, value);
        assert(members_view(members@) =~= before.take(at as int) + (seq![(key@, value@)]
            + before.skip(at as int + 1)));
    } else {
        proof {
            if at < before.len() {
                text_order_is_total(rest[0].0, key@);
                assert(put(rest, key@, value@) == seq![(key@, value@)] + rest);
            } else {
                assert(put(rest, key@, value@) =~= seq![(key@, value@)] + rest);
            }
        }
        members.insert(at, (key, value));
        assert(members_view(members@) =~= before.take(at as int) + (seq![(key@, value@)] + rest));
    }
}

// ----------------------------------------------------------------------
// Laws of values
// ----------------------------------------------------------------------

/// The value under a key is that of the first member with it, and there is none
/// where no member has it.
pub proof fn members_are_found_by_their_key(
    before: Seq<(Seq<char>, JsonView)>,
    key: Seq<char>,
    value: JsonView,
    after: Seq<(Seq<char>, JsonView)>,
)
    requires
        forall|i: int| 0 <= i < before.len() ==> (#[trigger] before[i]).0 != key,
    ensures
        member(before + seq![(key, value)] + after, key) == Some(value),
        member(before, key) is None,
    decreases before.len(),
{
    let all = before + seq![(key, value)] + after;
    if before.len() > 0 {
        assert(all[0] == before[0]);
        assert(all.drop_first() =~= before.drop_first() + seq![(key, value)] + after);
        assert forall|i: int| 0 <= i < before.drop_first().len() implies (
        #[trigger] before.drop_first()[i]).0 != key by {
            assert(before[i + 1].0 != key);
        }
        members_are_found_by_their_key(before.drop_first(), key, value, after);
    } else {
        assert(all[0] == (key, value));
    }
}

/// Every value is the same as itself.
pub proof fn values_are_the_same_as_themselves(v: JsonView)
    ensures
        v.same(v),
    decreases v,
{
    match v {
        JsonView::Array(items) => {
            assert forall|i: int| 0 <= i < items.len() implies (#[trigger] items[i]).same(
                items[i],
            ) by {
                values_are_the_same_as_themselves(items[i]);
            }
        },
        JsonView::Object(members) => {
            assert forall|i: int| 0 <= i < members.len() implies (#[trigger] members[i]).1.same(
                members[i].1,
            ) by {
                values_are_the_same_as_themselves(members[i].1);
            }
        },
        _ => {},
    }
}

/// Numbers and texts are the same exactly if they are equal, where a whole
/// number is no floating-point number, whatever that is; but the two zeros
/// among the latter are the same.
pub proof fn plain_values_are_the_same_if_equal(
    a: u64,
    b: u64,
    c: i64,
    x: Seq<char>,
    y: Seq<char>,
    p: bool,
    q: bool,
)
    ensures
        JsonView::Number(Number::PosInt(a)).same(JsonView::Number(Number::PosInt(b))) <==> a == b,
        !JsonView::Number(Number::PosInt(a)).same(JsonView::Number(Number::NegInt(c))),
        !JsonView::Number(Number::PosInt(a)).same(JsonView::Number(Number::Float(b))),
        !JsonView::Number(Number::Float(a)).same(JsonView::Number(Number::PosInt(b))),
        JsonView::Number(Number::Float(a)).same(JsonView::Number(Number::Float(b))) <==> a == b || (
        (a == 0 || a == 0x8000_0000_0000_0000) && (b == 0 || b == 0x8000_0000_0000_0000)),
        JsonView::Text(x).same(JsonView::Text(y)) <==> x == y,
        JsonView::Bool(p).same(JsonView::Bool(q)) <==> p == q,
        !JsonView::Null.same(JsonView::Bool(p)),
        !JsonView::Null.same(JsonView::Text(x)),
        !JsonView::Text(x).same(JsonView::Number(Number::PosInt(a))),
{
}

/// Arrays are the same exactly if they have the same length and their values
/// are the same, in order; objects exactly if that holds of their members'
/// values and their keys are equal.
pub proof fn compounds_are_the_same_by_parts(
    a: Seq<JsonView>,
    b: Seq<JsonView>,
    m: Seq<(Seq<char>, JsonView)>,
    n: Seq<(Seq<char>, JsonView)>,
    v: JsonView,
    w: JsonView,
    k: Seq<char>,
    l: Seq<char>,
)
    ensures
        JsonView::Array(a).same(JsonView::Array(b)) ==> a.len() == b.len(),
        a.len() == b.len() ==> (JsonView::Array(a.push(v)).same(JsonView::Array(b.push(w))) <==> (
        JsonView::Array(a).same(JsonView::Array(b)) && v.same(w))),
        JsonView::Object(m).same(JsonView::Object(n)) ==> m.len() == n.len(),
        m.len() == n.len() ==> (JsonView::Object(m.push((k, v))).same(
            JsonView::Object(n.push((l, w))),
        ) <==> (JsonView::Object(m).same(JsonView::Object(n)) && k == l && v.same(w))),
        !JsonView::Array(a).same(JsonView::Object(m)),
        !JsonView::Array(a).same(JsonView::Null),
{
    if a.len() == b.len() {
        let (c, d) = (a.push(v), b.push(w));
        assert(c[a.len() as int] == v && d[a.len() as int] == w);
        assert(forall|i: int| 0 <= i < a.len() ==> #[trigger] c[i] == a[i]);
        assert(forall|i: int| 0 <= i < b.len() ==> #[trigger] d[i] == b[i]);
        if JsonView::Array(c).same(JsonView::Array(d)) {
            assert forall|i: int| 0 <= i < a.len() implies (#[trigger] a[i]).same(b[i]) by {
                assert(c[i].same(d[i]));
            }
            assert(c[a.len() as int].same(d[a.len() as int]));
        }
    }
    if m.len() == n.len() {
        let (c, d) = (m.push((k, v)), n.push((l, w)));
        assert(c[m.len() as int] == (k, v) && d[m.len() as int] == (l, w));
        assert(forall|i: int| 0 <= i < m.len() ==> #[trigger] c[i] == m[i]);
        assert(forall|i: int| 0 <= i < n.len() ==> #[trigger] d[i] == n[i]);
        if JsonView::Object(c).same(JsonView::Object(d)) {
            assert forall|i: int| 0 <= i < m.len() implies (#[trigger] m[i]).0 == n[i].0
                && m[i].1.same(n[i].1) by {
                assert(c[i].0 == d[i].0 && c[i].1.same(d[i].1));
            }
            assert(c[m.len() as int].0 == d[m.len() as int].0);
        }
    }
}

}
