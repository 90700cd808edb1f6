//! JSON values.

use crate::decimal::{read_double, write_double};
use crate::double::{Double, INFINITY_BITS};
use crate::text::{read_i64, same, write_i64, write_u64};
use crate::{decimal, double, text};
use vstd::arithmetic::power2::*;
use vstd::prelude::*;
use vstd::string::*;

verus! {

/// A JSON value. A number that is not whole, or that no 64-bit integer holds,
/// is kept as its decimal text.
#[derive(Debug)]
pub enum Json {
    Null,
    Bool(bool),
    Unsigned(u64),
    Signed(i64),
    Decimal(String),
    Text(String),
    List(Vec<Json>),
    Object(Vec<(String, Json)>),
}

/// What a JSON value holds.
pub enum JsonView {
    Null,
    Bool(bool),
    Unsigned(u64),
    Signed(i64),
    Decimal(Seq<char>),
    Text(Seq<char>),
    List(Seq<JsonView>),
    Object(Seq<(Seq<char>, JsonView)>),
}

/// What a JSON value holds.
pub open spec fn json_view(json: Json) -> JsonView
    decreases json,
{
    match json {
        Json::Null => JsonView::Null,
        Json::Bool(flag) => JsonView::Bool(flag),
        Json::Unsigned(n) => JsonView::Unsigned(n),
        Json::Signed(n) => JsonView::Signed(n),
        Json::Decimal(number) => JsonView::Decimal(number@),
        Json::Text(inner) => JsonView::Text(inner@),
        Json::List(items) => JsonView::List(
            Seq::new(
                items@.len(),
                |i: int|
                    if 0 <= i < items@.len() {
                        json_view(items@[i])
                    } else {
                        JsonView::Null
                    },
            ),
        ),
        Json::Object(members) => JsonView::Object(
            Seq::new(
                members@.len(),
                |i: int|
                    if 0 <= i < members@.len() {
                        (members@[i].0@, json_view(members@[i].1))
                    } else {
                        (Seq::empty(), JsonView::Null)
                    },
            ),
        ),
    }
}

impl View for Json {
    type V = JsonView;

    open spec fn view(&self) -> JsonView {
        json_view(*self)
    }
}

/// A value of the serde_json crate.
#[verifier::external_type_specification]
#[verifier::external_body]
pub struct ExValue(serde_json::Value);

/// What a value of serde_json holds.
pub uninterp spec fn value_held(value: serde_json::Value) -> JsonView;

/// The value that a JSON text writes, or the words of the error where it
/// writes none.
pub uninterp spec fn json_value(json: Seq<char>) -> Result<JsonView, Seq<char>>;

/// `serde_json::from_str` into a `Value`: what comes of a text depends on the
/// text alone. Which value a text writes is not said here.
#[verifier::external_body]
fn parse_value(json: &str) -> (r: Result<serde_json::Value, String>)
    ensures
        match r {
            Ok(value) => json_value(json@) == Ok::<_, Seq<char>>(value_held(value)),
            Err(words) => json_value(json@) == Err::<JsonView, _>(words@),
        },
{
    match serde_json::from_str(json) {
        Ok(value) => Ok(value),
        Err(error) => Err(error.to_string()),
    }
}

/// A value of serde_json, taken apart once.
enum Opened {
    Null,
    Bool(bool),
    Unsigned(u64),
    Signed(i64),
    Decimal(String),
    Text(String),
    List(Vec<serde_json::Value>),
    Object(Vec<(String, serde_json::Value)>),
}

/// What values of serde_json hold.
pub open spec fn items_held(items: Seq<serde_json::Value>) -> Seq<JsonView> {
    items.map_values(|item: serde_json::Value| value_held(item))
}

/// What named values of serde_json hold.
pub open spec fn members_held(members: Seq<(String, serde_json::Value)>) -> Seq<
    (Seq<char>, JsonView),
> {
    members.map_values(|member: (String, serde_json::Value)| (member.0@, value_held(member.1)))
}

/// The variants of `serde_json::Value`, with what they hold. A `Number` is one
/// of three kinds, which its methods tell apart: `as_u64` gives one that is not
/// negative, `as_i64` a negative one, and any other is a float, given as the
/// decimal text that it is displayed as. Which digits these are is not said
/// here.
#[verifier::external_body]
fn open_value(value: serde_json::Value) -> (r: Opened)
    ensures
        match r {
            Opened::Null => value_held(value) == JsonView::Null,
            Opened::Bool(flag) => value_held(value) == JsonView::Bool(flag),
            Opened::Unsigned(n) => value_held(value) == JsonView::Unsigned(n),
            Opened::Signed(n) => value_held(value) == JsonView::Signed(n),
            Opened::Decimal(number) => value_held(value) == JsonView::Decimal(number@),
            Opened::Text(inner) => value_held(value) == JsonView::Text(inner@),
            Opened::List(items) => value_held(value) == JsonView::List(items_held(items@)),
            Opened::Object(members) => value_held(value) == JsonView::Object(
                members_held(members@),
            ),
        },
{
    match value {
        serde_json::Value::Null => Opened::Null,
        serde_json::Value::Bool(flag) => Opened::Bool(flag),
        serde_json::Value::Number(number) => match (number.as_u64(), number.as_i64()) {
            (Some(n), _) => Opened::Unsigned(n),
            (None, Some(n)) => Opened::Signed(n),
            (None, None) => Opened::Decimal(number.to_string()),
        },
        serde_json::Value::String(inner) => Opened::Text(inner),
        serde_json::Value::Array(items) => Opened::List(items),
        serde_json::Value::Object(members) => Opened::Object(members.into_iter().collect()),
    }
}

/// A value of serde_json as a value of the library.
fn from_value(value: serde_json::Value) -> (r: Json)
    ensures
        r@ == value_held(value),
    decreases value_held(value),
{
    let ghost held = value_held(value);
    match open_value(value) {
        Opened::Null => Json::Null,
        Opened::Bool(flag) => Json::Bool(flag),
        Opened::Unsigned(n) => Json::Unsigned(n),
        Opened::Signed(n) => Json::Signed(n),
        Opened::Decimal(number) => Json::Decimal(number),
        Opened::Text(inner) => Json::Text(inner),
        Opened::List(items) => {
            let ghost all = items@;
            let mut out: Vec<Json> = Vec::new();
            assert(seen_items(out@) =~= items_held(all.take(0)));
            for item in it: items
                invariant
                    it.seq() == all,
                    held == JsonView::List(items_held(all)),
                    value_held(value) == held,
                    seen_items(out@) == items_held(all.take(it.index() as int)),
            {
                let ghost before = out@;
                let ghost one = value_held(item);
                proof {
                    assert(items_held(all)[it.index() as int] == one);
                    assert(decreases_to!(held => held->List_0[it.index() as int]));
                }
                out.push(from_value(item));
                assert(seen_items(out@) =~= seen_items(before).push(one));
                assert(items_held(all.take(it.index() + 1)) =~= items_held(
                    all.take(it.index() as int),
                ).push(one));
            }
            assert(all.take(all.len() as int) =~= all);
            let r = Json::List(out);
            assert(r@->List_0 =~= seen_items(out@));
            r
        },
        Opened::Object(members) => {
            let ghost all = members@;
            let mut out: Vec<(String, Json)> = Vec::new();
            assert(seen_members(out@) =~= members_held(all.take(0)));
            for member in it: members
                invariant
                    it.seq() == all,
                    held == JsonView::Object(members_held(all)),
                    value_held(value) == held,
                    seen_members(out@) == members_held(all.take(it.index() as int)),
            {
                let ghost before = out@;
                let ghost one = (member.0@, value_held(member.1));
                proof {
                    assert(members_held(all)[it.index() as int] == one);
                    assert(decreases_to!(held => held->Object_0[it.index() as int].1));
                }
                let (name, inner) = member;
                let converted = from_value(inner);
                out.push((name, converted));
                assert(seen_members(out@) =~= seen_members(before).push(one));
                assert(members_held(all.take(it.index() + 1)) =~= members_held(
                    all.take(it.index() as int),
                ).push(one));
            }
            assert(all.take(all.len() as int) =~= all);
            let r = Json::Object(out);
            assert(r@->Object_0 =~= seen_members(out@));
            r
        },
    }
}

/// Reads a JSON text.
pub fn read_json(json: &str) -> (r: Result<Json, String>)
    ensures
        match r {
            Ok(value) => json_value(json@) == Ok::<_, Seq<char>>(value@),
            Err(words) => json_value(json@) == Err::<JsonView, _>(words@),
        },
{
    match parse_value(json) {
        Ok(value) => Ok(from_value(value)),
        Err(words) => Err(words),
    }
}

/// The text that serde_json displays a float as, by the bits of the float.
pub uninterp spec fn float_text(bits: u64) -> Seq<char>;

/// The members of an object that serde_json makes of members, in its order.
pub uninterp spec fn object_members(members: Seq<(Seq<char>, JsonView)>) -> Seq<
    (Seq<char>, JsonView),
>;

/// The text that serde_json displays a value as.
pub uninterp spec fn json_text(value: JsonView) -> Seq<char>;

/// Whether no two members have one name.
pub open spec fn names_differ(members: Seq<(Seq<char>, JsonView)>) -> bool {
    forall|i: int, j: int|
        0 <= i < j < members.len() ==> (#[trigger] members[i]).0 != (#[trigger] members[j]).0
}

/// A whole number as serde_json keeps it: one that is not negative has no sign.
pub open spec fn whole_kept(n: i64) -> JsonView {
    if n < 0 {
        JsonView::Signed(n)
    } else {
        JsonView::Unsigned(n as u64)
    }
}

/// A decimal text as serde_json keeps it: as the float that it writes. What
/// writes no finite number becomes null.
pub open spec fn decimal_kept(number: Seq<char>) -> JsonView {
    match decimal::double_value(number) {
        Some(double) => if double.finite() {
            JsonView::Decimal(float_text(double.bits))
        } else {
            JsonView::Null
        },
        None => JsonView::Null,
    }
}

/// The variants of `serde_json::Value`, made of what they hold. `Number` is made
/// of an integer by `From`, and of a float by `Number::from_f64`, which gives
/// none where the float is not finite: that becomes null. The text is read as a
/// float by `str::parse`, to the nearest one. An object is made by collecting
/// members into a `Map`: members of different names are kept, each once. Which
/// digits a float is displayed with, and the order of an object's members, are
/// not said here.
#[verifier::external_body]
fn make_value(part: Opened) -> (r: serde_json::Value)
    ensures
        match part {
            Opened::Null => value_held(r) == JsonView::Null,
            Opened::Bool(flag) => value_held(r) == JsonView::Bool(flag),
            Opened::Unsigned(n) => value_held(r) == JsonView::Unsigned(n),
            Opened::Signed(n) => value_held(r) == whole_kept(n),
            Opened::Decimal(number) => match decimal::double_value(number@) {
                Some(double) if double.finite() => value_held(r) == JsonView::Decimal(
                    float_text(double.bits),
                ),
                _ => value_held(r) == JsonView::Null,
            },
            Opened::Text(inner) => value_held(r) == JsonView::Text(inner@),
            Opened::List(items) => value_held(r) == JsonView::List(items_held(items@)),
            Opened::Object(members) => {
                let given = members_held(members@);
                &&& value_held(r) == JsonView::Object(object_members(given))
                &&& names_differ(given) ==> object_members(given).to_multiset()
                    == given.to_multiset()
            },
        },
{
    match part {
        Opened::Null => serde_json::Value::Null,
        Opened::Bool(flag) => serde_json::Value::Bool(flag),
        Opened::Unsigned(n) => serde_json::Value::from(n),
        Opened::Signed(n) => serde_json::Value::from(n),
        Opened::Decimal(number) => serde_json::Value::from(
            number.parse().ok().and_then(serde_json::Number::from_f64),
        ),
        Opened::Text(inner) => serde_json::Value::String(inner),
        Opened::List(items) => serde_json::Value::Array(items),
        Opened::Object(members) => serde_json::Value::Object(members.into_iter().collect()),
    }
}

/// Whether serde_json reads a value back as it is from the text that it
/// displays: no float is in it, no name begins with a dollar sign, and values
/// are nested in at most so many others.
pub open spec fn plain(value: JsonView, levels: nat) -> bool
    decreases value,
{
    match value {
        JsonView::Decimal(_) => false,
        JsonView::List(items) => levels > 0 && forall|i: int|
            0 <= i < items.len() ==> plain(#[trigger] items[i], (levels - 1) as nat),
        JsonView::Object(members) => levels > 0 && forall|i: int|
            0 <= i < members.len() ==> {
                &&& (#[trigger] members[i]).0.len() > 0 ==> members[i].0[0] != '$'
                &&& plain(members[i].1, (levels - 1) as nat)
            },
        _ => true,
    }
}

/// Whether a text writes a value.
pub open spec fn reads_as(json: Seq<char>, value: JsonView) -> bool {
    json_value(json) == Ok::<JsonView, Seq<char>>(value)
}

/// `Display` of a `serde_json::Value`: the text depends on what the value holds
/// alone, and `serde_json::from_str` reads a plain value back from it. It reads
/// no text that nests 128 values. It may miss the nearest float in its last
/// digit, and takes names that begin with a dollar sign for its own, so nothing
/// is said of these. Which characters the text has is not said here.
#[verifier::external_body]
fn value_text(value: &serde_json::Value) -> (r: String)
    ensures
        r@ == json_text(value_held(*value)),
        plain(value_held(*value), 127) ==> reads_as(r@, value_held(*value)),
{
    value.to_string()
}

/// A value of the library as serde_json keeps it.
pub open spec fn kept(value: JsonView) -> JsonView
    decreases value,
{
    match value {
        JsonView::Signed(n) => whole_kept(n),
        JsonView::Decimal(number) => decimal_kept(number),
        JsonView::List(items) => JsonView::List(
            Seq::new(
                items.len(),
                |i: int|
                    if 0 <= i < items.len() {
                        kept(items[i])
                    } else {
                        JsonView::Null
                    },
            ),
        ),
        JsonView::Object(members) => JsonView::Object(object_members(kept_members(members))),
        _ => value,
    }
}

/// Members of the library as serde_json keeps them.
pub open spec fn kept_members(members: Seq<(Seq<char>, JsonView)>) -> Seq<(Seq<char>, JsonView)>
    decreases members,
{
    Seq::new(
        members.len(),
        |i: int|
            if 0 <= i < members.len() {
                (members[i].0, kept(members[i].1))
            } else {
                (Seq::empty(), JsonView::Null)
            },
    )
}

/// Whether every object in a value whose members have different names keeps
/// each of them, once.
pub open spec fn keeps_members(value: JsonView) -> bool
    decreases value,
{
    match value {
        JsonView::List(items) => forall|i: int|
            0 <= i < items.len() ==> keeps_members(#[trigger] items[i]),
        JsonView::Object(members) => {
            &&& names_differ(members) ==> object_members(kept_members(members)).to_multiset()
                == kept_members(members).to_multiset()
            &&& forall|i: int|
                0 <= i < members.len() ==> keeps_members((#[trigger] members[i]).1)
        },
        _ => true,
    }
}

/// A value of the library as a value of serde_json.
fn to_value(json: Json) -> (r: serde_json::Value)
    ensures
        value_held(r) == kept(json@),
        keeps_members(json@),
    decreases json,
{
    match json {
        Json::Null => make_value(Opened::Null),
        Json::Bool(flag) => make_value(Opened::Bool(flag)),
        Json::Unsigned(n) => make_value(Opened::Unsigned(n)),
        Json::Signed(n) => make_value(Opened::Signed(n)),
        Json::Decimal(number) => make_value(Opened::Decimal(number)),
        Json::Text(inner) => make_value(Opened::Text(inner)),
        Json::List(items) => {
            let ghost all = items@;
            let ghost views = json@->List_0;
            let mut out: Vec<serde_json::Value> = Vec::new();
            for item in it: items
                invariant
                    it.seq() == all,
                    json == Json::List(items),
                    all == items@,
                    views == json@->List_0,
                    out@.len() == it.index(),
                    forall|i: int|
                        0 <= i < out@.len() ==> value_held(#[trigger] out@[i]) == kept(views[i])
                            && keeps_members(views[i]),
            {
                proof {
                    assert(item == all[it.index() as int]);
                    assert(views[it.index() as int] == item@);
                    assert(decreases_to!(json => json->List_0@[it.index() as int]));
                }
                out.push(to_value(item));
            }
            proof {
                assert(items_held(out@) =~= kept(json@)->List_0);
                assert forall|i: int| 0 <= i < views.len() implies keeps_members(
                    #[trigger] views[i],
                ) by {
                    assert(value_held(out@[i]) == kept(views[i]));
                }
            }
            make_value(Opened::List(out))
        },
        Json::Object(members) => {
            let ghost all = members@;
            let ghost views = json@->Object_0;
            let mut out: Vec<(String, serde_json::Value)> = Vec::new();
            for member in it: members
                invariant
                    it.seq() == all,
                    json == Json::Object(members),
                    all == members@,
                    views == json@->Object_0,
                    out@.len() == it.index(),
                    forall|i: int|
                        #![trigger out@[i]]
                        0 <= i < out@.len() ==> out@[i].0@ == views[i].0 && value_held(out@[i].1)
                            == kept(views[i].1) && keeps_members(views[i].1),
            {
                proof {
                    assert(member == all[it.index() as int]);
                    assert(views[it.index() as int] == (member.0@, member.1@));
                    assert(decreases_to!(json => json->Object_0@[it.index() as int].1));
                }
                let (name, inner) = member;
                let converted = to_value(inner);
                out.push((name, converted));
            }
            proof {
                assert(members_held(out@) =~= kept_members(views));
                assert forall|i: int| 0 <= i < views.len() implies keeps_members(
                    (#[trigger] views[i]).1,
                ) by {
                    assert(out@[i].0@ == views[i].0);
                }
                assert forall|i: int, j: int|
                    names_differ(views) && 0 <= i < j < views.len() implies (
                #[trigger] kept_members(views)[i]).0 != (#[trigger] kept_members(views)[j]).0 by {
                    assert(views[i].0 != views[j].0);
                }
            }
            make_value(Opened::Object(out))
        },
    }
}

/// Writes a JSON text. A plain value is read back from it, and no member of an
/// object is lost.
pub fn write_json(json: Json) -> (r: String)
    ensures
        r@ == json_text(kept(json@)),
        plain(kept(json@), 127) ==> reads_as(r@, kept(json@)),
        keeps_members(json@),
{
    value_text(&to_value(json))
}

/// The member of a name.
pub open spec fn member_of(members: Seq<(Seq<char>, JsonView)>, name: Seq<char>) -> Option<JsonView>
    decreases members.len(),
{
    if members.len() == 0 {
        None
    } else {
        match member_of(members.drop_last(), name) {
            Some(member) => Some(member),
            None => if members.last().0 == name {
                Some(members.last().1)
            } else {
                None
            },
        }
    }
}

/// The whole number that a text writes, where it lies in the range of `i64`.
pub open spec fn whole_in(inner: Seq<char>) -> Option<i64> {
    match text::integer_value(inner, true) {
        Some(n) => if i64::MIN <= n <= i64::MAX {
            Some(n as i64)
        } else {
            None
        },
        None => None,
    }
}

impl JsonView {
    /// The member of a name, if this is an object that has one.
    pub open spec fn member(self, name: Seq<char>) -> Option<JsonView> {
        match self {
            JsonView::Object(members) => member_of(members, name),
            _ => None,
        }
    }

    /// The whole number that this is, where it lies in the range of `i64`.
    pub open spec fn whole(self) -> Option<i64> {
        match self {
            JsonView::Unsigned(n) => if n <= i64::MAX {
                Some(n as i64)
            } else {
                None
            },
            JsonView::Signed(n) => Some(n),
            _ => None,
        }
    }

    /// The text that this is.
    pub open spec fn text(self) -> Option<Seq<char>> {
        match self {
            JsonView::Text(inner) => Some(inner),
            _ => None,
        }
    }

    /// The values that this lists.
    pub open spec fn items(self) -> Option<Seq<JsonView>> {
        match self {
            JsonView::List(items) => Some(items),
            _ => None,
        }
    }

    /// The whole number that this is, or that its text writes.
    pub open spec fn read_whole(self) -> Option<i64> {
        match self {
            JsonView::Text(inner) => whole_in(inner),
            _ => self.whole(),
        }
    }

    /// The number that this is, or that its text writes.
    pub open spec fn read_number(self) -> Option<Double> {
        match self {
            JsonView::Unsigned(n) => Some(double::nearest_integer(n as int)),
            JsonView::Signed(n) => Some(double::nearest_integer(n as int)),
            JsonView::Decimal(number) => decimal::double_value(number),
            JsonView::Text(inner) => decimal::double_value(inner),
            _ => None,
        }
    }

    /// The text that this is, or the whole number that it is in decimal.
    pub open spec fn read_text(self) -> Option<Seq<char>> {
        match self {
            JsonView::Text(inner) => Some(inner),
            JsonView::Unsigned(n) => Some(text::integer_text(n as int)),
            JsonView::Signed(n) => Some(text::integer_text(n as int)),
            _ => None,
        }
    }
}

/// A member of a member.
pub open spec fn nested(outer: Option<JsonView>, name: Seq<char>) -> Option<JsonView> {
    match outer {
        Some(inner) => inner.member(name),
        None => None,
    }
}

/// The text of a member, if there is one.
pub open spec fn text_in(member: Option<JsonView>) -> Option<Seq<char>> {
    match member {
        Some(inner) => inner.text(),
        None => None,
    }
}

/// The text or whole number of a member, if there is one.
pub open spec fn read_text_in(member: Option<JsonView>) -> Option<Seq<char>> {
    match member {
        Some(inner) => inner.read_text(),
        None => None,
    }
}

/// The whole number of a member, if there is one.
pub open spec fn read_whole_in(member: Option<JsonView>) -> Option<i64> {
    match member {
        Some(inner) => inner.read_whole(),
        None => None,
    }
}

/// The number of a member, if there is one.
pub open spec fn read_number_in(member: Option<JsonView>) -> Option<Double> {
    match member {
        Some(inner) => inner.read_number(),
        None => None,
    }
}

/// The values that a member lists, if there is one that lists any.
pub open spec fn items_in(member: Option<JsonView>) -> Option<Seq<JsonView>> {
    match member {
        Some(inner) => inner.items(),
        None => None,
    }
}

/// A value that may be absent, by its view.
pub open spec fn seen(member: Option<&Json>) -> Option<JsonView> {
    match member {
        Some(inner) => Some(inner@),
        None => None,
    }
}

proof fn lemma_first_member(members: Seq<(Seq<char>, JsonView)>, name: Seq<char>, n: int)
    requires
        0 <= n <= members.len(),
        member_of(members.take(n), name) is Some,
    ensures
        member_of(members, name) == member_of(members.take(n), name),
    decreases members.len(),
{
    if n == members.len() {
        assert(members.take(n) =~= members);
    } else {
        assert(members.drop_last().take(n) =~= members.take(n));
        lemma_first_member(members.drop_last(), name, n);
    }
}

impl Json {
    /// The member of a name.
    pub fn get(&self, name: &str) -> (r: Option<&Json>)
        ensures
            seen(r) == self@.member(name@),
    {
        match self {
            Json::Object(members) => {
                let ghost all = self@->Object_0;
                let mut i: usize = 0;
                assert(all.take(0) =~= Seq::empty());
                while i < members.len()
                    invariant
                        i <= members.len(),
                        self@ == JsonView::Object(all),
                        *self == Json::Object(*members),
                        all.len() == members@.len(),
                        member_of(all.take(i as int), name@) is None,
                    decreases members.len() - i,
                {
                    let ghost more = all.take(i + 1);
                    proof {
                        assert(more.drop_last() =~= all.take(i as int));
                        assert(all[i as int] == (members@[i as int].0@, members@[i as int].1@));
                    }
                    if same(members[i].0.as_str(), name) {
                        proof {
                            lemma_first_member(all, name@, i + 1);
                        }
                        return Some(&members[i].1);
                    }
                    i = i + 1;
                }
                assert(all.take(i as int) =~= all);
                None
            },
            _ => None,
        }
    }

    /// The whole number that this is.
    pub fn as_whole(&self) -> (r: Option<i64>)
        ensures
            r == self@.whole(),
    {
        match self {
            Json::Unsigned(n) => {
                if *n <= 0x7fff_ffff_ffff_ffff {
                    Some(*n as i64)
                } else {
                    None
                }
            },
            Json::Signed(n) => Some(*n),
            _ => None,
        }
    }

    /// The text that this is.
    pub fn as_text(&self) -> (r: Option<&String>)
        ensures
            match r {
                Some(inner) => self@.text() == Some(inner@),
                None => self@.text() is None,
            },
    {
        match self {
            Json::Text(inner) => Some(inner),
            _ => None,
        }
    }

    /// The values that this lists.
    pub fn as_list(&self) -> (r: Option<&Vec<Json>>)
        ensures
            match r {
                Some(items) => self@.items() == Some(seen_items(items@)),
                None => self@.items() is None,
            },
    {
        match self {
            Json::List(items) => {
                assert(self@->List_0 =~= seen_items(items@));
                Some(items)
            },
            _ => None,
        }
    }
}

/// Values, seen through their views.
pub open spec fn seen_items(items: Seq<Json>) -> Seq<JsonView> {
    items.map_values(|item: Json| item@)
}

/// The whole number that a value is, or that its text writes.
pub fn as_i64(value: &Json) -> (r: Option<i64>)
    ensures
        r == value@.read_whole(),
{
    match value {
        Json::Text(inner) => read_i64(inner.as_str()),
        _ => value.as_whole(),
    }
}

/// The number that a value is, or that its text writes.
pub fn as_f64(value: &Json) -> (r: Option<Double>)
    ensures
        r == value@.read_number(),
{
    match value {
        Json::Unsigned(n) => Some(Double::from_u64(*n)),
        Json::Signed(n) => Some(Double::from_i64(*n)),
        Json::Decimal(number) => read_double(number.as_str()),
        Json::Text(inner) => read_double(inner.as_str()),
        _ => None,
    }
}

/// The text that a value is, or the whole number that it is in decimal.
pub fn value_to_string(value: &Json) -> (r: Option<String>)
    ensures
        r.deep_view() == value@.read_text(),
{
    match value {
        Json::Text(inner) => Some(inner.clone()),
        Json::Unsigned(n) => Some(write_u64(*n)),
        Json::Signed(n) => Some(write_i64(*n)),
        _ => None,
    }
}

/// The number that stands for a value: the whole number that it is or writes,
/// else the one under its name.
pub open spec fn number_of(value: Option<JsonView>, names: Seq<(&str, i64)>) -> Option<i64> {
    match value {
        None => None,
        Some(inner) => match inner.read_whole() {
            Some(n) => Some(n),
            None => match inner.text() {
                Some(name) => number_named(names, name),
                None => None,
            },
        },
    }
}

/// The number under a name.
pub open spec fn number_named(names: Seq<(&str, i64)>, name: Seq<char>) -> Option<i64>
    decreases names.len(),
{
    if names.len() == 0 {
        None
    } else {
        match number_named(names.drop_last(), name) {
            Some(n) => Some(n),
            None => if names.last().0@ == name {
                Some(names.last().1)
            } else {
                None
            },
        }
    }
}

proof fn lemma_first_name(names: Seq<(&str, i64)>, name: Seq<char>, n: int)
    requires
        0 <= n <= names.len(),
        number_named(names.take(n), name) is Some,
    ensures
        number_named(names, name) == number_named(names.take(n), name),
    decreases names.len(),
{
    if n == names.len() {
        assert(names.take(n) =~= names);
    } else {
        assert(names.drop_last().take(n) =~= names.take(n));
        lemma_first_name(names.drop_last(), name, n);
    }
}

/// The number that stands for a value.
pub fn enum_number(value: Option<&Json>, names: &[(&str, i64)]) -> (r: Option<i64>)
    ensures
        r == number_of(seen(value), names@),
{
    let inner = match value {
        Some(inner) => inner,
        None => {
            return None;
        },
    };
    if let Some(number) = as_i64(inner) {
        return Some(number);
    }
    let name = match inner.as_text() {
        Some(name) => name,
        None => {
            return None;
        },
    };
    let mut i: usize = 0;
    assert(names@.take(0) =~= Seq::empty());
    while i < names.len()
        invariant
            i <= names.len(),
            seen(value) == Some(inner@),
            inner@.read_whole() is None,
            inner@.text() == Some(name@),
            number_named(names@.take(i as int), name@) is None,
        decreases names.len() - i,
    {
        proof {
            assert(names@.take(i + 1).drop_last() =~= names@.take(i as int));
        }
        if same(names[i].0, name.as_str()) {
            proof {
                lemma_first_name(names@, name@, i + 1);
            }
            return Some(names[i].1);
        }
        i = i + 1;
    }
    assert(names@.take(i as int) =~= names@);
    None
}

/// A member of a value that may be absent.
pub fn member_in<'a>(value: Option<&'a Json>, name: &str) -> (r: Option<&'a Json>)
    ensures
        seen(r) == nested(seen(value), name@),
{
    match value {
        Some(inner) => inner.get(name),
        None => None,
    }
}

/// Members, seen through their views.
pub open spec fn seen_members(members: Seq<(String, Json)>) -> Seq<(Seq<char>, JsonView)> {
    members.map_values(|member: (String, Json)| (member.0@, member.1@))
}

/// Adds a member behind others.
pub fn put(members: &mut Vec<(String, Json)>, name: &str, value: Json)
    ensures
        seen_members(final(members)@) == seen_members(old(members)@).push((name@, value@)),
{
    let ghost before = members@;
    members.push((name.to_owned(), value));
    assert(seen_members(members@) =~= seen_members(before).push((name@, value@)));
}

/// The members of an object before any is added.
pub fn no_members() -> (r: Vec<(String, Json)>)
    ensures
        seen_members(r@) == Seq::<(Seq<char>, JsonView)>::empty(),
{
    let members: Vec<(String, Json)> = Vec::new();
    assert(seen_members(members@) =~= Seq::empty());
    members
}

/// The object of members.
pub fn object(members: Vec<(String, Json)>) -> (r: Json)
    ensures
        r@ == JsonView::Object(seen_members(members@)),
{
    let r = Json::Object(members);
    assert(r@->Object_0 =~= seen_members(members@));
    r
}

/// A list of whole numbers.
pub open spec fn whole_list(numbers: Seq<i64>) -> JsonView {
    JsonView::List(numbers.map_values(|n: i64| JsonView::Signed(n)))
}

/// A list of whole numbers.
pub fn list_of(numbers: &Vec<i64>) -> (r: Json)
    ensures
        r@ == whole_list(numbers@),
{
    let mut items: Vec<Json> = Vec::new();
    let mut i: usize = 0;
    while i < numbers.len()
        invariant
            i <= numbers.len(),
            seen_items(items@) == numbers@.take(i as int).map_values(|n: i64| JsonView::Signed(n)),
        decreases numbers.len() - i,
    {
        let ghost before = items@;
        items.push(Json::Signed(numbers[i]));
        proof {
            let one = JsonView::Signed(numbers@[i as int]);
            assert(seen_items(items@) =~= seen_items(before).push(one));
            assert(numbers@.take(i + 1).map_values(|n: i64| JsonView::Signed(n))
                =~= numbers@.take(i as int).map_values(|n: i64| JsonView::Signed(n)).push(one));
        }
        i = i + 1;
    }
    assert(numbers@.take(i as int) =~= numbers@);
    let r = Json::List(items);
    assert(r@->List_0 =~= seen_items(items@));
    r
}

/// A number in JSON. What is not finite has no text there, and becomes null.
pub open spec fn number_view(number: Double) -> JsonView {
    if number.finite() {
        JsonView::Decimal(decimal::double_text(number))
    } else {
        JsonView::Null
    }
}

/// A number in JSON.
pub fn number_json(number: Double) -> (r: Json)
    ensures
        r@ == number_view(number),
{
    if number.absolute().bits < INFINITY_BITS {
        Json::Decimal(write_double(number))
    } else {
        Json::Null
    }
}

/// A number is written as itself: serde_json displays the very float that the
/// number is, or null where it is not finite.
pub proof fn law_number_is_kept(number: Double)
    ensures
        kept(number_view(number)) == if number.finite() {
            JsonView::Decimal(float_text(number.bits))
        } else {
            JsonView::Null
        },
{
    if number.finite() {
        decimal::law_double_text_reads_back(number);
    }
}

/// The member of a name is the first that has it.
pub proof fn lemma_member(members: Seq<(Seq<char>, JsonView)>, name: Seq<char>, i: int)
    requires
        0 <= i < members.len(),
        members[i].0 == name,
        forall|j: int| 0 <= j < i ==> (#[trigger] members[j]).0 != name,
    ensures
        member_of(members, name) == Some(members[i].1),
    decreases members.len(),
{
    let fewer = members.drop_last();
    if i < members.len() - 1 {
        lemma_member(fewer, name, i);
    } else {
        lemma_no_member(fewer, name);
    }
}

/// Without a name there is no member of it.
pub proof fn lemma_no_member(members: Seq<(Seq<char>, JsonView)>, name: Seq<char>)
    requires
        forall|j: int| 0 <= j < members.len() ==> (#[trigger] members[j]).0 != name,
    ensures
        member_of(members, name) is None,
    decreases members.len(),
{
    if members.len() > 0 {
        assert(members[members.len() - 1].0 != name);
        lemma_no_member(members.drop_last(), name);
    }
}

/// An object has a member of a name just where one of its members has the name,
/// and it is the first of them.
pub proof fn law_member_of_name(value: JsonView, name: Seq<char>)
    ensures
        value.member(name) is Some <==> {
            &&& value matches JsonView::Object(members)
            &&& exists|i: int| 0 <= i < members.len() && (#[trigger] members[i]).0 == name
        },
        value.member(name) matches Some(member) ==> {
            &&& value matches JsonView::Object(members)
            &&& exists|i: int|
                {
                    &&& 0 <= i < members.len()
                    &&& #[trigger] members[i] == (name, member)
                    &&& forall|j: int| 0 <= j < i ==> (#[trigger] members[j]).0 != name
                }
        },
{
    if let JsonView::Object(members) = value {
        if exists|i: int| 0 <= i < members.len() && (#[trigger] members[i]).0 == name {
            let i = choose|i: int| 0 <= i < members.len() && (#[trigger] members[i]).0 == name;
            let first = lemma_first_of(members, name, i);
            lemma_member(members, name, first);
        } else {
            lemma_no_member(members, name);
        }
    }
}

proof fn lemma_first_of(members: Seq<(Seq<char>, JsonView)>, name: Seq<char>, i: int) -> (first: int)
    requires
        0 <= i < members.len(),
        members[i].0 == name,
    ensures
        0 <= first <= i,
        members[first].0 == name,
        forall|j: int| 0 <= j < first ==> (#[trigger] members[j]).0 != name,
    decreases i,
{
    if exists|j: int| 0 <= j < i && (#[trigger] members[j]).0 == name {
        let j = choose|j: int| 0 <= j < i && (#[trigger] members[j]).0 == name;
        lemma_first_of(members, name, j)
    } else {
        i
    }
}

/// A whole number in JSON is read as that number, and so is the text that writes
/// it. A number is read from what it is written as, and a text as itself.
pub proof fn law_values_read_back(n: i64, number: Double, inner: Seq<char>)
    ensures
        JsonView::Signed(n).whole() == Some(n),
        JsonView::Signed(n).read_whole() == Some(n),
        JsonView::Text(text::integer_text(n as int)).read_whole() == Some(n),
        JsonView::Signed(n).read_text() == Some(text::integer_text(n as int)),
        JsonView::Text(inner).text() == Some(inner),
        JsonView::Text(inner).read_text() == Some(inner),
        number.finite() ==> number_view(number).read_number() == Some(number),
        !number.finite() ==> number_view(number).read_number() is None,
        JsonView::Text(inner).whole() is None,
        JsonView::Signed(n).text() is None,
{
    text::law_integer_text_reads_back(n as int);
    decimal::law_double_text_reads_back(number);
}

/// A name that is listed with a number stands for it, the first listing counting,
/// and one that is not listed stands for none. A number stands for itself.
pub proof fn law_number_of_name(names: Seq<(&str, i64)>, i: int, n: i64, other: Seq<char>)
    requires
        0 <= i < names.len(),
        forall|j: int| 0 <= j < i ==> (#[trigger] names[j]).0@ != names[i].0@,
        whole_in(names[i].0@) is None,
        whole_in(other) is None,
        forall|j: int| 0 <= j < names.len() ==> (#[trigger] names[j]).0@ != other,
    ensures
        number_of(Some(JsonView::Text(names[i].0@)), names) == Some(names[i].1),
        number_of(Some(JsonView::Text(other)), names) is None,
        number_of(Some(JsonView::Signed(n)), names) == Some(n),
        number_of(None, names) is None,
{
    lemma_number_named(names, i);
    lemma_number_unnamed(names, other);
}

pub proof fn lemma_number_named(names: Seq<(&str, i64)>, i: int)
    requires
        0 <= i < names.len(),
        forall|j: int| 0 <= j < i ==> (#[trigger] names[j]).0@ != names[i].0@,
    ensures
        number_named(names, names[i].0@) == Some(names[i].1),
    decreases names.len(),
{
    let fewer = names.drop_last();
    if i < names.len() - 1 {
        lemma_number_named(fewer, i);
    } else {
        lemma_number_unnamed(fewer, names[i].0@);
    }
}

proof fn lemma_number_unnamed(names: Seq<(&str, i64)>, name: Seq<char>)
    requires
        forall|j: int| 0 <= j < names.len() ==> (#[trigger] names[j]).0@ != name,
    ensures
        number_named(names, name) is None,
    decreases names.len(),
{
    if names.len() > 0 {
        assert(names[names.len() - 1].0@ != name);
        lemma_number_unnamed(names.drop_last(), name);
    }
}

/// A number in JSON is read as the number nearest to it, and a text as the number
/// that it writes; nothing else is a number.
pub proof fn law_numbers_are_read(n: i64, u: u64, inner: Seq<char>)
    ensures
        JsonView::Signed(n).read_number() matches Some(x) && x.negative() == (n < 0)
            && double::rounds_to(
            (if n < 0 {
                -n
            } else {
                n as int
            }) as nat * pow2(1074),
            1,
            x.magnitude() as nat,
        ),
        JsonView::Unsigned(u).read_number() matches Some(x) && !x.negative() && double::rounds_to(
            u as nat * pow2(1074),
            1,
            x.magnitude() as nat,
        ),
        JsonView::Decimal(inner).read_number() == decimal::double_value(inner),
        JsonView::Text(inner).read_number() == decimal::double_value(inner),
        JsonView::Null.read_number() is None,
        JsonView::Unsigned(u).whole() is Some <==> u <= 0x7fff_ffff_ffff_ffff,
        JsonView::Unsigned(u).whole() matches Some(w) ==> w == u,
        JsonView::Unsigned(u).read_whole() == JsonView::Unsigned(u).whole(),
        JsonView::Unsigned(u).read_text() == Some(text::integer_text(u as int)),
        JsonView::Null.read_whole() is None,
        JsonView::Null.read_text() is None,
        JsonView::Decimal(inner).read_text() is None,
        JsonView::Decimal(inner).read_whole() is None,
{
    let size = (if n < 0 {
        -n
    } else {
        n as int
    }) as nat * pow2(1074);
    double::lemma_nearest_is(size, 1);
    double::lemma_nearest_is(u as nat * pow2(1074), 1);
}

/// What is read of a member is read of its value, and nothing is read of a member
/// that is not there.
pub proof fn law_members_are_read(value: JsonView, name: Seq<char>)
    ensures
        text_in(Some(value)) == value.text(),
        read_text_in(Some(value)) == value.read_text(),
        read_whole_in(Some(value)) == value.read_whole(),
        read_number_in(Some(value)) == value.read_number(),
        items_in(Some(value)) == value.items(),
        nested(Some(value), name) == value.member(name),
        value matches JsonView::List(items) ==> value.items() == Some(items),
        !(value is List) ==> value.items() is None,
        text_in(None) is None,
        read_text_in(None) is None,
        read_whole_in(None) is None,
        read_number_in(None) is None,
        items_in(None) is None,
        nested(None, name) is None,
{
}

} // verus!
