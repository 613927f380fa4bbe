//! Values of a plan as the caller hands them over, and what can be read out
//! of them.

use vstd::prelude::*;

use crate::client::text_view;
use crate::json::{
    is_finite, items_view, keys_ascend, members_view, put, put_is_update, put_member, Json,
    JsonView, Number,
};
use crate::scheduler::Real;
use crate::text::{chars_of, push_chars, str_equal, text_less};

verus! {

broadcast use vstd::string::group_string_axioms;

/// A dynamically typed value. A key of a dictionary that is no text stands
/// as nothing.
#[derive(Debug)]
pub enum PlanValue {
    Nothing,
    Bool(bool),
    /// An integer, and the double nearest to it if there is one. An integer
    /// that is out of range stands as one that is out of range of 64 bits.
    Int { value: i128, double: Option<Real> },
    Float(Real),
    Text(String),
    List(Vec<PlanValue>),
    /// A sequence that is no list.
    Sequence(Vec<PlanValue>),
    Dict(Vec<(Option<String>, PlanValue)>),
    Other,
}

/// What a `PlanValue` holds.
pub enum PlanView {
    Nothing,
    Bool(bool),
    Int { value: i128, double: Option<Real> },
    Float(Real),
    Text(Seq<char>),
    List(Seq<PlanView>),
    Sequence(Seq<PlanView>),
    Dict(Seq<(Option<Seq<char>>, PlanView)>),
    Other,
}

impl PlanValue {
    /// What a value holds.
    pub open spec fn view(&self) -> PlanView
        decreases self,
    {
        match self {
            PlanValue::Nothing => PlanView::Nothing,
            PlanValue::Bool(b) => PlanView::Bool(*b),
            PlanValue::Int { value, double } => PlanView::Int { value: *value, double: *double },
            PlanValue::Float(r) => PlanView::Float(*r),
            PlanValue::Text(t) => PlanView::Text(t@),
            PlanValue::List(items) => PlanView::List(
                Seq::new(
                    items@.len(),
                    |i: int|
                        if 0 <= i < items@.len() {
                            items@[i].view()
                        } else {
                            PlanView::Nothing
                        },
                ),
            ),
            PlanValue::Sequence(items) => PlanView::Sequence(
                Seq::new(
                    items@.len(),
                    |i: int|
                        if 0 <= i < items@.len() {
                            items@[i].view()
                        } else {
                            PlanView::Nothing
                        },
                ),
            ),
            PlanValue::Dict(entries) => PlanView::Dict(
                Seq::new(
                    entries@.len(),
                    |i: int|
                        if 0 <= i < entries@.len() {
                            (key_view(entries@[i].0), entries@[i].1.view())
                        } else {
                            (None, PlanView::Nothing)
                        },
                ),
            ),
            PlanValue::Other => PlanView::Other,
        }
    }
}

/// What a key holds.
pub open spec fn key_view(key: Option<String>) -> Option<Seq<char>> {
    match key {
        Some(k) => Some(k@),
        None => None,
    }
}

/// What a list of values holds.
pub open spec fn values_view(items: Seq<PlanValue>) -> Seq<PlanView> {
    Seq::new(items.len(), |i: int| items[i]@)
}

/// What a dictionary holds.
pub open spec fn dict_view(entries: Seq<(Option<String>, PlanValue)>) -> Seq<
    (Option<Seq<char>>, PlanView),
> {
    Seq::new(entries.len(), |i: int| (key_view(entries[i].0), entries[i].1@))
}

/// The view of a compound value is made of the views of its parts.
pub(crate) proof fn compound_view(v: &PlanValue)
    ensures
        v matches PlanValue::List(items) ==> v@ == PlanView::List(values_view(items@)),
        v matches PlanValue::Sequence(items) ==> v@ == PlanView::Sequence(values_view(items@)),
        v matches PlanValue::Dict(entries) ==> v@ == PlanView::Dict(dict_view(entries@)),
{
    match v {
        PlanValue::List(items) => {
            assert(v@->List_0 =~= values_view(items@));
        },
        PlanValue::Sequence(items) => {
            assert(v@->Sequence_0 =~= values_view(items@));
        },
        PlanValue::Dict(entries) => {
            assert(v@->Dict_0 =~= dict_view(entries@));
        },
        _ => {},
    }
}

/// Why a plan is not accepted.
#[derive(Debug)]
pub enum PlanError {
    /// A value is missing or not of the kind that it has to be.
    Value(String),
    /// A value is of the wrong type.
    Type,
    /// An integer is out of range.
    Overflow,
}

/// What a `PlanError` holds.
pub enum PlanErrorView {
    Value(Seq<char>),
    Type,
    Overflow,
}

impl View for PlanError {
    type V = PlanErrorView;

    open spec fn view(&self) -> PlanErrorView {
        match self {
            PlanError::Value(t) => PlanErrorView::Value(t@),
            PlanError::Type => PlanErrorView::Type,
            PlanError::Overflow => PlanErrorView::Overflow,
        }
    }
}

/// The entries of a dictionary.
pub type Entries = Vec<(Option<String>, PlanValue)>;

/// What the entries of a dictionary hold.
pub type EntriesView = Seq<(Option<Seq<char>>, PlanView)>;

/// The value of a key.
pub open spec fn item(dict: EntriesView, key: Seq<char>) -> Option<PlanView>
    decreases dict.len(),
{
    if dict.len() == 0 {
        None
    } else if dict[0].0 == Some(key) {
        Some(dict[0].1)
    } else {
        item(dict.drop_first(), key)
    }
}

/// The value of a key, unless it is none.
pub open spec fn present(dict: EntriesView, key: Seq<char>) -> Option<PlanView> {
    match item(dict, key) {
        Some(PlanView::Nothing) => None,
        other => other,
    }
}

/// The value of a key.
pub fn get_item<'a>(dict: &'a Entries, key: &str) -> (value: Option<&'a PlanValue>)
    ensures
        match value {
            Some(v) => item(dict_view(dict@), key@) == Some(v@),
            None => item(dict_view(dict@), key@) is None,
        },
{
    let ghost all = dict_view(dict@);
    assert(all.skip(0) =~= all);
    for i in 0..dict.len()
        invariant
            all == dict_view(dict@),
            item(all.skip(i as int), key@) == item(all, key@),
    {
        assert(all.skip(i as int)[0] == all[i as int]);
        assert(all.skip(i as int).drop_first() =~= all.skip(i as int + 1));
        if let Some(k) = &dict[i].0 {
            if str_equal(k.as_str(), key) {
                return Some(&dict[i].1);
            }
        }
    }
    assert(all.skip(dict@.len() as int).len() == 0);
    None
}

/// The value of a key, unless it is none.
pub fn get_present<'a>(dict: &'a Entries, key: &str) -> (value: Option<&'a PlanValue>)
    ensures
        match value {
            Some(v) => present(dict_view(dict@), key@) == Some(v@),
            None => present(dict_view(dict@), key@) is None,
        },
{
    match get_item(dict, key) {
        Some(PlanValue::Nothing) => None,
        Some(v) => Some(v),
        None => None,
    }
}

impl PlanView {
    /// Whether every dictionary in it fits into memory.
    pub open spec fn fits(self) -> bool
        decreases self,
    {
        match self {
            PlanView::List(items) => (forall|i: int|
                0 <= i < items.len() ==> (#[trigger] items[i]).fits()),
            PlanView::Sequence(items) => (forall|i: int|
                0 <= i < items.len() ==> (#[trigger] items[i]).fits()),
            PlanView::Dict(entries) => {
                &&& entries.len() <= isize::MAX
                &&& forall|i: int| 0 <= i < entries.len() ==> (#[trigger] entries[i]).1.fits()
            },
            _ => true,
        }
    }
}

/// Whether every value in a dictionary fits into memory.
pub open spec fn entries_fit(dict: EntriesView) -> bool {
    PlanView::Dict(dict).fits()
}

/// What a dictionary that fits into memory holds, fits too.
pub proof fn item_fits(dict: EntriesView, key: Seq<char>)
    requires
        entries_fit(dict),
    ensures
        item(dict, key) matches Some(v) ==> v.fits(),
    decreases dict.len(),
{
    if dict.len() > 0 {
        assert(dict[0].1.fits());
        let rest = dict.drop_first();
        assert forall|i: int| 0 <= i < rest.len() implies (#[trigger] rest[i]).1.fits() by {
            assert(rest[i] == dict[i + 1]);
        }
        item_fits(rest, key);
    }
}

/// What a sequence that fits into memory holds, fits too.
pub proof fn sequence_item_fits(v: PlanView, i: int)
    requires
        v.fits(),
    ensures
        v matches PlanView::List(items) ==> (0 <= i < items.len() ==> items[i].fits()),
        v matches PlanView::Sequence(items) ==> (0 <= i < items.len() ==> items[i].fits()),
{
    match v {
        PlanView::List(items) => {
            if 0 <= i < items.len() {
                assert(items[i].fits());
            }
        },
        PlanView::Sequence(items) => {
            if 0 <= i < items.len() {
                assert(items[i].fits());
            }
        },
        _ => {},
    }
}

// ----------------------------------------------------------------------
// Reading values
// ----------------------------------------------------------------------

/// The integer in a value. A truth value is one.
pub open spec fn integer(v: PlanView) -> Option<i128> {
    match v {
        PlanView::Int { value, .. } => Some(value),
        PlanView::Bool(b) => Some(
            if b {
                1
            } else {
                0
            },
        ),
        _ => None,
    }
}

/// The integer in a value, from 0 up to a largest one.
pub open spec fn unsigned(v: PlanView, max: u64) -> Result<u64, PlanErrorView> {
    match integer(v) {
        Some(n) => if 0 <= n <= max {
            Ok(n as u64)
        } else {
            Err(PlanErrorView::Overflow)
        },
        None => Err(PlanErrorView::Type),
    }
}

/// The number in a value. An integer and a truth value are numbers.
pub open spec fn number(v: PlanView) -> Option<Real> {
    match v {
        PlanView::Int { double, .. } => double,
        PlanView::Float(r) => Some(r),
        PlanView::Bool(b) => Some(
            Real {
                bits: if b {
                    0x3ff0_0000_0000_0000
                } else {
                    0
                },
            },
        ),
        _ => None,
    }
}

/// The truth value in a value; false where there is none.
pub open spec fn truth(v: Option<PlanView>) -> bool {
    v == Some(PlanView::Bool(true))
}

/// The text in a value.
pub open spec fn text(v: PlanView) -> Result<Seq<char>, PlanErrorView> {
    match v {
        PlanView::Text(t) => Ok(t),
        _ => Err(PlanErrorView::Type),
    }
}

/// The text of a key that has to be there.
pub open spec fn needed_text(dict: EntriesView, key: Seq<char>) -> Result<
    Seq<char>,
    PlanErrorView,
> {
    match item(dict, key) {
        Some(v) => text(v),
        None => Err(PlanErrorView::Value("missing "@ + key)),
    }
}

/// The text of a key that may be there.
pub open spec fn optional_text(dict: EntriesView, key: Seq<char>) -> Result<
    Option<Seq<char>>,
    PlanErrorView,
> {
    match present(dict, key) {
        Some(PlanView::Text(t)) => Ok(Some(t)),
        Some(_) => Err(PlanErrorView::Type),
        None => Ok(None),
    }
}

/// The number of a key; none where there is none.
pub open spec fn number_of(dict: EntriesView, key: Seq<char>) -> Option<Real> {
    match item(dict, key) {
        Some(v) => number(v),
        None => None,
    }
}

/// Whether two results say the same of a text.
pub open spec fn same_text(
    exec: Result<String, PlanError>,
    wanted: Result<Seq<char>, PlanErrorView>,
) -> bool {
    match exec {
        Ok(t) => wanted == Ok::<Seq<char>, PlanErrorView>(t@),
        Err(e) => wanted == Err::<Seq<char>, PlanErrorView>(e@),
    }
}

/// The integer in a value, from 0 up to a largest one.
pub fn read_unsigned_value(v: &PlanValue, max: u64) -> (n: Result<u64, PlanError>)
    ensures
        match n {
            Ok(n) => unsigned(v@, max) == Ok::<u64, PlanErrorView>(n),
            Err(e) => unsigned(v@, max) == Err::<u64, PlanErrorView>(e@),
        },
{
    let value: i128 = match v {
        PlanValue::Int { value, .. } => *value,
        PlanValue::Bool(b) => if *b {
            1
        } else {
            0
        },
        _ => {
            return Err(PlanError::Type);
        },
    };
    if 0 <= value && value <= max as i128 {
        Ok(value as u64)
    } else {
        Err(PlanError::Overflow)
    }
}

/// The number in a value.
pub fn extract_number(v: &PlanValue) -> (n: Option<Real>)
    ensures
        n == number(v@),
{
    match v {
        PlanValue::Int { double, .. } => *double,
        PlanValue::Float(r) => Some(*r),
        PlanValue::Bool(b) => Some(
            Real {
                bits: if *b {
                    0x3ff0_0000_0000_0000
                } else {
                    0
                },
            },
        ),
        _ => None,
    }
}

/// The number of a key.
pub fn get_number(dict: &Entries, key: &str) -> (n: Option<Real>)
    ensures
        n == number_of(dict_view(dict@), key@),
{
    match get_item(dict, key) {
        Some(v) => extract_number(v),
        None => None,
    }
}

/// The truth value of a key; false where there is none.
pub fn get_truth(dict: &Entries, key: &str) -> (b: bool)
    ensures
        b == truth(item(dict_view(dict@), key@)),
{
    match get_item(dict, key) {
        Some(PlanValue::Bool(b)) => *b,
        _ => false,
    }
}

/// The text in a value.
pub fn read_text(v: &PlanValue) -> (t: Result<String, PlanError>)
    ensures
        same_text(t, text(v@)),
{
    match v {
        PlanValue::Text(t) => Ok(t.clone()),
        _ => Err(PlanError::Type),
    }
}

/// The text of a key that has to be there.
pub fn required_string(dict: &Entries, key: &str) -> (t: Result<String, PlanError>)
    ensures
        same_text(t, needed_text(dict_view(dict@), key@)),
{
    match get_item(dict, key) {
        Some(v) => read_text(v),
        None => {
            let mut message: String = "missing ".to_owned();
            push_chars(&mut message, &chars_of(key));
            Err(PlanError::Value(message))
        },
    }
}

/// The text of a key that may be there.
pub fn get_string(dict: &Entries, key: &str) -> (t: Result<Option<String>, PlanError>)
    ensures
        match t {
            Ok(t) => optional_text(dict_view(dict@), key@) == Ok::<
                Option<Seq<char>>,
                PlanErrorView,
            >(text_view(t)),
            Err(e) => optional_text(dict_view(dict@), key@) == Err::<
                Option<Seq<char>>,
                PlanErrorView,
            >(e@),
        },
{
    match get_present(dict, key) {
        Some(PlanValue::Text(t)) => Ok(Some(t.clone())),
        Some(_) => Err(PlanError::Type),
        None => Ok(None),
    }
}

// ----------------------------------------------------------------------
// As JSON
// ----------------------------------------------------------------------

/// A number as JSON: an integer where it fits, else a finite double, else
/// null.
pub open spec fn json_number(value: i128, double: Option<Real>) -> JsonView {
    if 0 <= value <= u64::MAX {
        JsonView::Number(Number::PosInt(value as u64))
    } else if i64::MIN <= value < 0 {
        JsonView::Number(Number::NegInt(value as i64))
    } else {
        json_real(double)
    }
}

/// A double as JSON: null where it is not finite.
pub open spec fn json_real(double: Option<Real>) -> JsonView {
    match double {
        Some(r) => if is_finite(r.bits) {
            JsonView::Number(Number::Float(r.bits))
        } else {
            JsonView::Null
        },
        None => JsonView::Null,
    }
}

/// The number of entries in a dictionary.
pub open spec fn breadth(v: PlanView) -> nat {
    match v {
        PlanView::Dict(entries) => entries.len(),
        _ => 0,
    }
}

/// A value as JSON. A key that is no text is an empty one, and of two equal
/// keys the later one counts.
pub open spec fn as_json(v: PlanView) -> JsonView
    decreases v, breadth(v) + 2,
{
    match v {
        PlanView::Bool(b) => JsonView::Bool(b),
        PlanView::Int { value, double } => json_number(value, double),
        PlanView::Float(r) => json_real(Some(r)),
        PlanView::Text(t) => JsonView::Text(t),
        PlanView::List(items) => JsonView::Array(
            Seq::new(
                items.len(),
                |i: int|
                    if 0 <= i < items.len() {
                        as_json(items[i])
                    } else {
                        JsonView::Null
                    },
            ),
        ),
        PlanView::Dict(entries) => JsonView::Object(members_of(v, entries.len() as int)),
        _ => JsonView::Null,
    }
}

/// The members that the first entries of a dictionary make.
pub open spec fn members_of(v: PlanView, n: int) -> Seq<(Seq<char>, JsonView)>
    decreases v, (n + 1) as nat,
{
    match v {
        PlanView::Dict(entries) => if n <= 0 || n > entries.len() {
            seq![]
        } else {
            put(
                members_of(v, n - 1),
                match entries[n - 1].0 {
                    Some(k) => k,
                    None => seq![],
                },
                as_json(entries[n - 1].1),
            )
        },
        _ => seq![],
    }
}

proof fn members_are_json(v: PlanView, n: int)
    requires
        v.fits(),
        v matches PlanView::Dict(entries) && 0 <= n <= entries.len(),
    ensures
        keys_ascend(members_of(v, n)),
        members_of(v, n).len() <= n,
        forall|i: int|
            0 <= i < members_of(v, n).len() ==> (#[trigger] members_of(v, n)[i]).1.wf(),
    decreases v, (n + 1) as nat,
{
    if n > 0 {
        let entries = v->Dict_0;
        let before = members_of(v, n - 1);
        let key = match entries[n - 1].0 {
            Some(k) => k,
            None => seq![],
        };
        let value = as_json(entries[n - 1].1);
        members_are_json(v, n - 1);
        assert(entries[n - 1].1.fits());
        plan_is_json(entries[n - 1].1);
        put_is_update(before, key, value, key);
        put_keeps_values(before, key, value);
    }
}

/// Every member after one was put in is that one or was there before.
proof fn put_keeps_values(
    members: Seq<(Seq<char>, JsonView)>,
    key: Seq<char>,
    value: JsonView,
)
    ensures
        forall|i: int|
            0 <= i < put(members, key, value).len() ==> (#[trigger] put(members, key, value)[i])
                == (key, value) || members.contains(put(members, key, value)[i]),
    decreases members.len(),
{
    let after = put(members, key, value);
    if members.len() > 0 {
        let rest = members.drop_first();
        put_keeps_values(rest, key, value);
        assert forall|i: int| 0 <= i < after.len() implies (#[trigger] after[i]) == (key, value)
            || members.contains(after[i]) by {
            if members[0].0 == key {
                if i > 0 {
                    assert(after[i] == members[i]);
                }
            } else if text_less(key, members[0].0) {
                if i > 0 {
                    assert(after[i] == members[i - 1]);
                }
            } else if i == 0 {
                assert(after[0] == members[0]);
            } else {
                let tail = put(rest, key, value);
                assert(after[i] == tail[i - 1]);
                if tail[i - 1] != (key, value) {
                    assert(rest.contains(tail[i - 1]));
                    let k = choose|k: int| 0 <= k < rest.len() && rest[k] == tail[i - 1];
                    assert(members[k + 1] == after[i]);
                }
            }
        }
    }
}

/// A value that fits into memory is one of JSON.
pub proof fn plan_is_json(v: PlanView)
    requires
        v.fits(),
    ensures
        as_json(v).wf(),
    decreases v, breadth(v) + 2,
{
    match v {
        PlanView::List(items) => {
            assert forall|i: int| 0 <= i < items.len() implies as_json(
                #[trigger] items[i],
            ).wf() by {
                plan_is_json(items[i]);
            }
        },
        PlanView::Dict(entries) => {
            members_are_json(v, entries.len() as int);
        },
        _ => {},
    }
}

/// The double as JSON.
fn real_to_json(double: Option<Real>) -> (json: Json)
    ensures
        json@ == json_real(double),
{
    match double {
        Some(r) => if (r.bits / 0x10_0000_0000_0000) % 0x800 != 0x7ff {
            Json::Number(Number::Float(r.bits))
        } else {
            Json::Null
        },
        None => Json::Null,
    }
}

/// A value as JSON.
pub fn py_to_json(v: &PlanValue) -> (json: Json)
    requires
        v@.fits(),
    ensures
        json@ == as_json(v@),
        json@.wf(),
    decreases v,
{
    proof {
        compound_view(v);
        plan_is_json(v@);
    }
    match v {
        PlanValue::Bool(b) => Json::Bool(*b),
        PlanValue::Int { value, double } => {
            let n: i128 = *value;
            if 0 <= n && n <= u64::MAX as i128 {
                Json::Number(Number::PosInt(n as u64))
            } else if i64::MIN as i128 <= n && n < 0 {
                Json::Number(Number::NegInt(n as i64))
            } else {
                real_to_json(*double)
            }
        },
        PlanValue::Float(r) => real_to_json(Some(*r)),
        PlanValue::Text(t) => Json::Text(t.clone()),
        PlanValue::List(items) => {
            let mut out: Vec<Json> = Vec::new();
            for i in 0..items.len()
                invariant
                    *v == PlanValue::List(*items),
                    v@ == PlanView::List(values_view(items@)),
                    v@.fits(),
                    out@.len() == i,
                    forall|j: int| 0 <= j < i ==> (#[trigger] out@[j])@ == as_json(items@[j]@),
            {
                assert(decreases_to!(*v => v->List_0));
                assert(decreases_to!(*items => items@));
                assert(decreases_to!(items@ => items@[i as int]));
                proof {
                    sequence_item_fits(v@, i as int);
                    assert(values_view(items@)[i as int] == items@[i as int]@);
                }
                out.push(py_to_json(&items[i]));
            }
            let r: Json = Json::Array(out);
            proof {
                crate::json::compound_view(&r);
                assert(items_view(out@) =~= as_json(v@)->Array_0);
            }
            r
        },
        PlanValue::Dict(entries) => {
            let mut out: Vec<(String, Json)> = Vec::new();
            assert(members_view(out@) =~= members_of(v@, 0));
            for i in 0..entries.len()
                invariant
                    *v == PlanValue::Dict(*entries),
                    v@ == PlanView::Dict(dict_view(entries@)),
                    v@.fits(),
                    members_view(out@) == members_of(v@, i as int),
            {
                assert(decreases_to!(*v => v->Dict_0));
                assert(decreases_to!(*entries => entries@));
                assert(decreases_to!(entries@ => entries@[i as int]));
                assert(decreases_to!(entries@[i as int] => entries@[i as int].1));
                assert(dict_view(entries@)[i as int].1.fits());
                let key: String = match &entries[i].0 {
                    Some(k) => k.clone(),
                    None => {
                        let empty: String = String::new();
                        assert(empty@ =~= seq![]);
                        empty
                    },
                };
                proof {
                    members_are_json(v@, i as int);
                }
                put_member(&mut out, key, py_to_json(&entries[i].1));
            }
            let r: Json = Json::Object(out);
            proof {
                crate::json::compound_view(&r);
            }
            r
        },
        _ => Json::Null,
    }
}

}
