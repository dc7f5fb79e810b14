//! JSON values as plain data.
use vstd::prelude::*;

use crate::text;

verus! {

/// A JSON value.
#[derive(Debug)]
pub enum Json {
    Null,
    Bool(bool),
    /// An unsigned integer.
    Uint(u64),
    /// Any other number, as written.
    Number(String),
    Str(String),
    Arr(Vec<Json>),
    /// The members in order.
    Obj(Vec<Member>),
}

/// A member of an object.
#[derive(Debug)]
pub struct Member {
    pub key: String,
    pub value: Json,
}

/// Whether `j` is the text `s`.
pub open spec fn is_str(j: Json, s: Seq<char>) -> bool {
    j matches Json::Str(t) && t@ == s
}

/// Whether `j` is the text `s`, or null where there is none.
pub open spec fn is_opt_str(j: Json, s: Option<Seq<char>>) -> bool {
    match s {
        Some(t) => is_str(j, t),
        None => j == Json::Null,
    }
}

/// Whether `j` is the number `n`.
pub open spec fn is_uint(j: Json, n: int) -> bool {
    j matches Json::Uint(m) && m == n
}

/// Whether `j` is the truth value `b`.
pub open spec fn is_bool(j: Json, b: bool) -> bool {
    j == Json::Bool(b)
}

/// The members of an object; none of another value.
pub open spec fn members(j: Json) -> Seq<Member> {
    match j {
        Json::Obj(m) => m@,
        _ => Seq::empty(),
    }
}

/// The items of an array; none of another value.
pub open spec fn items(j: Json) -> Seq<Json> {
    match j {
        Json::Arr(v) => v@,
        _ => Seq::empty(),
    }
}

/// Whether `j` is an object with exactly the keys `keys`, in order.
pub open spec fn has_keys(j: Json, keys: Seq<Seq<char>>) -> bool {
    j is Obj && members(j).map_values(|m: Member| m.key@) == keys
}

/// The place of the first member with key `key`, or the number of members.
pub open spec fn key_place(m: Seq<Member>, key: Seq<char>) -> int
    decreases m.len(),
{
    if m.len() == 0 {
        0
    } else if m[0].key@ == key {
        0
    } else {
        1 + key_place(m.drop_first(), key)
    }
}

/// The value of key `key` in an object.
pub open spec fn value_of(j: Json, key: Seq<char>) -> Option<Json> {
    let at = key_place(members(j), key);
    if at < members(j).len() {
        Some(members(j)[at].value)
    } else {
        None
    }
}

/// The text of a value, if it is one.
pub open spec fn str_of(j: Option<Json>) -> Option<Seq<char>> {
    match j {
        Some(Json::Str(s)) => Some(s@),
        _ => None,
    }
}

/// The number of a value, if it is an unsigned integer.
pub open spec fn uint_of(j: Option<Json>) -> Option<u64> {
    match j {
        Some(Json::Uint(n)) => Some(n),
        _ => None,
    }
}

/// The truth value of a value, if it is one.
pub open spec fn bool_of(j: Option<Json>) -> Option<bool> {
    match j {
        Some(Json::Bool(b)) => Some(b),
        _ => None,
    }
}

pub(crate) proof fn lemma_key_place(m: Seq<Member>, key: Seq<char>, n: int)
    requires
        0 <= n <= m.len(),
        forall|i: int| 0 <= i < n ==> (#[trigger] m[i]).key@ != key,
        n < m.len() ==> m[n].key@ == key,
    ensures
        key_place(m, key) == n,
    decreases m.len(),
{
    if n > 0 {
        let t = m.drop_first();
        assert forall|i: int| 0 <= i < n - 1 implies (#[trigger] t[i]).key@ != key by {
            assert(t[i] == m[i + 1]);
        }
        assert(m[0].key@ != key);
        lemma_key_place(t, key, n - 1);
    }
}

/// The place of the first member with key `key`, or the number of members.
fn find_key(m: &Vec<Member>, key: &str) -> (at: usize)
    ensures
        at <= m@.len(),
        at == key_place(m@, key@),
{
    let mut at: usize = 0;
    while at < m.len()
        invariant
            at <= m@.len(),
            forall|i: int| 0 <= i < at ==> (#[trigger] m@[i]).key@ != key@,
        decreases m@.len() - at,
    {
        if text::same_text(m[at].key.as_str(), key) {
            proof {
                lemma_key_place(m@, key@, at as int);
            }
            return at;
        }
        at = at + 1;
    }
    proof {
        lemma_key_place(m@, key@, at as int);
    }
    at
}

impl Json {
    /// The value of a member.
    pub fn get(&self, key: &str) -> (r: Option<&Json>)
        ensures
            match r {
                Some(v) => value_of(*self, key@) == Some(*v),
                None => value_of(*self, key@) is None,
            },
    {
        match self {
            Json::Obj(m) => {
                let at: usize = find_key(m, key);
                if at < m.len() {
                    Some(&m[at].value)
                } else {
                    None
                }
            },
            _ => None,
        }
    }

    /// The text of a member.
    pub fn get_str(&self, key: &str) -> (r: Option<&str>)
        ensures
            match r {
                Some(s) => str_of(value_of(*self, key@)) == Some(s@),
                None => str_of(value_of(*self, key@)) is None,
            },
    {
        match self.get(key) {
            Some(Json::Str(s)) => Some(s.as_str()),
            _ => None,
        }
    }

    /// The number of a member.
    pub fn get_uint(&self, key: &str) -> (r: Option<u64>)
        ensures
            r == uint_of(value_of(*self, key@)),
    {
        match self.get(key) {
            Some(Json::Uint(n)) => Some(*n),
            _ => None,
        }
    }

    /// The truth value of a member.
    pub fn get_bool(&self, key: &str) -> (r: Option<bool>)
        ensures
            r == bool_of(value_of(*self, key@)),
    {
        match self.get(key) {
            Some(Json::Bool(b)) => Some(*b),
            _ => None,
        }
    }

    /// The items of a member that is an array.
    pub fn get_items(&self, key: &str) -> (r: Option<&Vec<Json>>)
        ensures
            match r {
                Some(v) => value_of(*self, key@) == Some(Json::Arr(*v)),
                None => !(value_of(*self, key@) matches Some(Json::Arr(_))),
            },
    {
        match self.get(key) {
            Some(Json::Arr(v)) => Some(v),
            _ => None,
        }
    }

    pub fn is_null(&self) -> (r: bool)
        ensures
            r == (*self == Json::Null),
    {
        match self {
            Json::Null => true,
            _ => false,
        }
    }
}

/// The members after `key` is assigned `value`: in its place if it is there,
/// else at the end.
pub open spec fn assigned(before: Seq<Member>, after: Seq<Member>, key: Seq<char>, value: Json)
    -> bool {
    let at = key_place(before, key);
    &&& at < before.len() ==> after == before.update(at, after[at])
    &&& at >= before.len() ==> after == before.push(after[at])
    &&& after[at].key@ == key
    &&& after[at].value == value
}

/// Assign a member.
pub fn set_member(m: &mut Vec<Member>, key: &str, value: Json)
    ensures
        assigned(old(m)@, final(m)@, key@, value),
{
    let at: usize = find_key(m, key);
    let member = Member { key: key.to_string(), value };
    if at < m.len() {
        m.set(at, member);
    } else {
        m.push(member);
    }
}

/// A text value.
pub fn str_json(s: &str) -> (j: Json)
    ensures
        is_str(j, s@),
{
    Json::Str(s.to_string())
}

/// A text value, or null.
pub fn opt_str_json(s: &Option<String>) -> (j: Json)
    ensures
        is_opt_str(j, text::text_option(*s)),
{
    match s {
        Some(t) => Json::Str(t.clone()),
        None => Json::Null,
    }
}

/// A member with the given key.
pub fn member(key: &str, value: Json) -> (m: Member)
    ensures
        m.key@ == key@,
        m.value == value,
{
    Member { key: key.to_string(), value }
}

pub(crate) proof fn lemma_place_is_first(m: Seq<Member>, key: Seq<char>)
    ensures
        ({
            let at = key_place(m, key);
            &&& 0 <= at <= m.len()
            &&& at < m.len() ==> m[at].key@ == key
            &&& forall|i: int| 0 <= i < at ==> (#[trigger] m[i]).key@ != key
        }),
    decreases m.len(),
{
    if m.len() > 0 && m[0].key@ != key {
        let t = m.drop_first();
        lemma_place_is_first(t, key);
        assert forall|i: int| 0 <= i < key_place(m, key) implies (#[trigger] m[i]).key@ != key by {
            if i > 0 {
                assert(t[i - 1] == m[i]);
            }
        }
        if key_place(m, key) < m.len() {
            assert(t[key_place(t, key)] == m[key_place(m, key)]);
        }
    }
}

/// Assigning a member sets that member and leaves every other as it was.
pub proof fn assigning_changes_one_member(
    before: Json,
    after: Json,
    key: Seq<char>,
    value: Json,
    other: Seq<char>,
)
    requires
        assigned(members(before), members(after), key, value),
        other != key,
    ensures
        value_of(after, key) == Some(value),
        value_of(after, other) == value_of(before, other),
{
    let a = members(before);
    let b = members(after);
    let at = key_place(a, key);
    lemma_place_is_first(a, key);
    assert forall|i: int| 0 <= i < at implies (#[trigger] b[i]).key@ != key by {
        assert(b[i] == a[i]);
    }
    lemma_key_place(b, key, at);
    let place = key_place(a, other);
    lemma_place_is_first(a, other);
    if place < a.len() {
        assert(b[place] == a[place]);
        assert forall|i: int| 0 <= i < place implies (#[trigger] b[i]).key@ != other by {
            if i != at {
                assert(b[i] == a[i]);
            }
        }
        lemma_key_place(b, other, place);
    } else {
        assert forall|i: int| 0 <= i < b.len() implies (#[trigger] b[i]).key@ != other by {
            if i != at {
                assert(b[i] == a[i]);
            }
        }
        lemma_key_place(b, other, b.len() as int);
    }
}

} // verus!
