//! JSON documents as plain values.

use vstd::prelude::*;
use crate::text::{decimal, push_decimal, same_text};

verus! {

/// A JSON document. An object keeps its members in order; the first member
/// with a given key is the one that counts.
#[derive(Debug)]
pub enum Json {
    /// `null`.
    Null,
    /// `true` or `false`.
    Bool(bool),
    /// A number that is an integer of 64 bits.
    Int(i64),
    /// Any other number, as it is written.
    Number(String),
    /// A string.
    Text(String),
    /// An array.
    Array(Vec<Json>),
    /// An object.
    Object(Vec<(String, Json)>),
}

/// The value of a JSON document.
pub enum JsonTree {
    /// `null`.
    Null,
    /// `true` or `false`.
    Bool(bool),
    /// A number that is an integer of 64 bits.
    Int(i64),
    /// Any other number, as it is written.
    Number(Seq<char>),
    /// A string.
    Text(Seq<char>),
    /// An array.
    Array(Seq<JsonTree>),
    /// An object.
    Object(Seq<(Seq<char>, JsonTree)>),
}

/// The first member with the given key.
pub open spec fn member(members: Seq<(Seq<char>, JsonTree)>, key: Seq<char>) -> Option<JsonTree>
    decreases members.len(),
{
    if members.len() == 0 {
        None
    } else if members[0].0 == key {
        Some(members[0].1)
    } else {
        member(members.skip(1), key)
    }
}

/// The members with a value under the given key: that of the first member with the key
/// is replaced, and where there is none, the value comes last.
pub open spec fn with_member(
    members: Seq<(Seq<char>, JsonTree)>,
    key: Seq<char>,
    value: JsonTree,
) -> Seq<(Seq<char>, JsonTree)>
    decreases members.len(),
{
    if members.len() == 0 {
        seq![(key, value)]
    } else if members[0].0 == key {
        seq![(key, value)] + members.skip(1)
    } else {
        seq![members[0]] + with_member(members.skip(1), key, value)
    }
}

impl JsonTree {
    /// An object with a value under the given key; anything else stays as it is.
    pub open spec fn with(self, key: Seq<char>, value: JsonTree) -> JsonTree {
        match self {
            JsonTree::Object(members) => JsonTree::Object(with_member(members, key, value)),
            _ => self,
        }
    }

    /// The member of an object; nothing else has members.
    pub open spec fn get(self, key: Seq<char>) -> Option<JsonTree> {
        match self {
            JsonTree::Object(members) => member(members, key),
            _ => None,
        }
    }

    /// The text of a string.
    pub open spec fn as_text(self) -> Option<Seq<char>> {
        match self {
            JsonTree::Text(s) => Some(s),
            _ => None,
        }
    }
}

/// The first of two optional values that is there.
pub open spec fn or_else<T>(a: Option<T>, b: Option<T>) -> Option<T> {
    match a {
        Some(v) => Some(v),
        None => b,
    }
}

impl Json {
    /// The value of the document.
    pub open spec fn tree(self) -> JsonTree
        decreases self,
    {
        match self {
            Json::Null => JsonTree::Null,
            Json::Bool(b) => JsonTree::Bool(b),
            Json::Int(n) => JsonTree::Int(n),
            Json::Number(s) => JsonTree::Number(s@),
            Json::Text(s) => JsonTree::Text(s@),
            Json::Array(v) => JsonTree::Array(
                Seq::new(
                    v@.len(),
                    |i: int|
                        if 0 <= i < v@.len() {
                            v@[i].tree()
                        } else {
                            JsonTree::Null
                        },
                ),
            ),
            Json::Object(v) => JsonTree::Object(
                Seq::new(
                    v@.len(),
                    |i: int|
                        if 0 <= i < v@.len() {
                            (v@[i].0@, v@[i].1.tree())
                        } else {
                            (Seq::empty(), JsonTree::Null)
                        },
                ),
            ),
        }
    }

    /// The member of an object with the given key.
    pub fn get(&self, key: &str) -> (r: Option<&Json>)
        ensures
            match r {
                Some(j) => self.tree().get(key@) == Some(j.tree()),
                None => self.tree().get(key@) is None,
            },
    {
        match self {
            Json::Object(v) => {
                let ghost all = self.tree()->Object_0;
                let mut i: usize = 0;
                assert(all.skip(0) =~= all);
                while i < v.len()
                    invariant
                        i <= v@.len(),
                        all == self.tree()->Object_0,
                        self.tree() == JsonTree::Object(all),
                        all.len() == v@.len(),
                        forall|k: int|
                            0 <= k < v@.len() ==> #[trigger] all[k] == (
                            v@[k].0@,
                            v@[k].1.tree(),
                        ),
                        member(all.skip(i as int), key@) == member(all, key@),
                    decreases v@.len() - i,
                {
                    let ghost rest = all.skip(i as int);
                    assert(rest[0] == all[i as int]);
                    if same_text(v[i].0.as_str(), key) {
                        return Some(&v[i].1);
                    }
                    assert(rest.skip(1) =~= all.skip(i as int + 1));
                    i += 1;
                }
                assert(all.skip(i as int).len() == 0);
                None
            },
            _ => None,
        }
    }

    /// The same document once more.
    pub fn duplicate(&self) -> (r: Json)
        ensures
            r.tree() == self.tree(),
        decreases self,
    {
        match self {
            Json::Null => Json::Null,
            Json::Bool(b) => Json::Bool(*b),
            Json::Int(n) => Json::Int(*n),
            Json::Number(s) => Json::Number(s.clone()),
            Json::Text(s) => Json::Text(s.clone()),
            Json::Array(v) => {
                let mut out: Vec<Json> = Vec::new();
                let mut i: usize = 0;
                while i < v.len()
                    invariant
                        i <= v@.len(),
                        *self == Json::Array(*v),
                        out@.len() == i,
                        forall|k: int|
                            0 <= k < i ==> (#[trigger] out@[k]).tree() == v@[k].tree(),
                    decreases v@.len() - i,
                {
                    assert(decreases_to!(self => self->Array_0@[i as int]));
                    out.push(v[i].duplicate());
                    i += 1;
                }
                let r = Json::Array(out);
                assert(r.tree()->Array_0 =~= self.tree()->Array_0);
                r
            },
            Json::Object(v) => {
                let mut out: Vec<(String, Json)> = Vec::new();
                let mut i: usize = 0;
                while i < v.len()
                    invariant
                        i <= v@.len(),
                        *self == Json::Object(*v),
                        out@.len() == i,
                        forall|k: int|
                            0 <= k < i ==> (#[trigger] out@[k]).0@ == v@[k].0@ && out@[k].1.tree()
                                == v@[k].1.tree(),
                    decreases v@.len() - i,
                {
                    assert(decreases_to!(self => self->Object_0@[i as int].1));
                    let member = &v[i];
                    out.push((member.0.clone(), member.1.duplicate()));
                    i += 1;
                }
                let r = Json::Object(out);
                assert(r.tree()->Object_0 =~= self.tree()->Object_0);
                r
            },
        }
    }

    /// The object with a value under the given key; anything else stays as it is.
    pub fn with(&self, key: &str, value: Json) -> (r: Json)
        ensures
            r.tree() == self.tree().with(key@, value.tree()),
    {
        match self {
            Json::Object(v) => {
                let ghost all = self.tree()->Object_0;
                let mut out: Vec<(String, Json)> = Vec::new();
                let mut i: usize = 0;
                assert(all.skip(0) =~= all);
                while i < v.len() && !same_text(v[i].0.as_str(), key)
                    invariant
                        i <= v@.len(),
                        self.tree() == JsonTree::Object(all),
                        all.len() == v@.len(),
                        forall|k: int|
                            0 <= k < v@.len() ==> #[trigger] all[k] == (
                            v@[k].0@,
                            v@[k].1.tree(),
                        ),
                        entry_views(out@) == all.take(i as int),
                        all.take(i as int) + with_member(all.skip(i as int), key@, value.tree())
                            == with_member(all, key@, value.tree()),
                    decreases v@.len() - i,
                {
                    let ghost rest = all.skip(i as int);
                    let member = &v[i];
                    out.push((member.0.clone(), member.1.duplicate()));
                    assert(rest[0] == all[i as int]);
                    assert(rest.skip(1) =~= all.skip(i as int + 1));
                    assert(all.take(i as int + 1) =~= all.take(i as int) + seq![rest[0]]);
                    assert(entry_views(out@) =~= all.take(i as int + 1));
                    assert(all.take(i as int) + (seq![rest[0]] + with_member(
                        rest.skip(1),
                        key@,
                        value.tree(),
                    )) =~= all.take(i as int + 1) + with_member(
                        rest.skip(1),
                        key@,
                        value.tree(),
                    ));
                    i += 1;
                }
                let ghost at = i as int;
                let ghost rest = all.skip(at);
                let ghost put = value.tree();
                out.push((key.to_owned(), value));
                let ghost front = all.take(at).push((key@, put));
                assert(entry_views(out@) =~= front);
                if i < v.len() {
                    assert(rest[0] == all[at]);
                    i += 1;
                }
                let ghost from = i as int;
                assert(all.take(at) + with_member(rest, key@, put) =~= front + all.skip(from));
                while i < v.len()
                    invariant
                        0 <= from <= i <= v@.len(),
                        self.tree() == JsonTree::Object(all),
                        all.len() == v@.len(),
                        forall|k: int|
                            0 <= k < v@.len() ==> #[trigger] all[k] == (
                            v@[k].0@,
                            v@[k].1.tree(),
                        ),
                        entry_views(out@) == front + all.subrange(from, i as int),
                    decreases v@.len() - i,
                {
                    let ghost before = entry_views(out@);
                    let member = &v[i];
                    out.push((member.0.clone(), member.1.duplicate()));
                    assert(entry_views(out@) =~= before.push(all[i as int]));
                    assert(before.push(all[i as int]) =~= front + all.subrange(
                        from,
                        i as int + 1,
                    ));
                    i += 1;
                }
                assert(all.subrange(from, i as int) =~= all.skip(from));
                object(out)
            },
            _ => self.duplicate(),
        }
    }

    /// The text of a string.
    pub fn as_text(&self) -> (r: Option<&str>)
        ensures
            match r {
                Some(s) => self.tree().as_text() == Some(s@),
                None => self.tree().as_text() is None,
            },
    {
        match self {
            Json::Text(s) => Some(s.as_str()),
            _ => None,
        }
    }
}

/// A value that is put under a key is found there, and every other member stays.
pub proof fn other_members_stay(
    members: Seq<(Seq<char>, JsonTree)>,
    key: Seq<char>,
    value: JsonTree,
    other: Seq<char>,
)
    ensures
        member(with_member(members, key, value), other) == (if other == key {
            Some(value)
        } else {
            member(members, other)
        }),
    decreases members.len(),
{
    let now = with_member(members, key, value);
    if members.len() == 0 {
        assert(now.skip(1) =~= members);
    } else if members[0].0 == key {
        assert(now.skip(1) =~= members.skip(1));
    } else {
        assert(now.skip(1) =~= with_member(members.skip(1), key, value));
        other_members_stay(members.skip(1), key, value, other);
    }
}

/// The values of members.
pub open spec fn entry_views(members: Seq<(String, Json)>) -> Seq<(Seq<char>, JsonTree)> {
    members.map_values(|m: (String, Json)| (m.0@, m.1.tree()))
}

/// A member of an object.
pub fn entry(key: &str, value: Json) -> (r: (String, Json))
    ensures
        r.0@ == key@,
        r.1.tree() == value.tree(),
{
    (key.to_owned(), value)
}

/// The values of documents.
pub open spec fn doc_trees(docs: Seq<Json>) -> Seq<JsonTree> {
    docs.map_values(|doc: Json| doc.tree())
}

/// The same documents once more.
pub fn duplicates(docs: &[Json]) -> (r: Vec<Json>)
    ensures
        doc_trees(r@) == doc_trees(docs@),
{
    let mut out: Vec<Json> = Vec::new();
    let mut i: usize = 0;
    while i < docs.len()
        invariant
            i <= docs@.len(),
            out@.len() == i,
            forall|k: int| 0 <= k < i ==> (#[trigger] out@[k]).tree() == docs@[k].tree(),
        decreases docs@.len() - i,
    {
        out.push(docs[i].duplicate());
        i += 1;
    }
    assert(doc_trees(out@) =~= doc_trees(docs@));
    out
}

/// An array of documents.
pub fn array(docs: Vec<Json>) -> (r: Json)
    ensures
        r.tree() == JsonTree::Array(doc_trees(docs@)),
{
    let r = Json::Array(docs);
    assert(r.tree()->Array_0 =~= doc_trees(docs@));
    r
}

/// An object with members.
pub fn object(members: Vec<(String, Json)>) -> (r: Json)
    ensures
        r.tree() == JsonTree::Object(entry_views(members@)),
{
    let r = Json::Object(members);
    assert(r.tree()->Object_0 =~= entry_views(members@));
    r
}

/// A member that is a string.
pub fn text_member(key: &str, value: &str) -> (r: (String, Json))
    ensures
        r.0@ == key@,
        r.1.tree() == JsonTree::Text(value@),
{
    (key.to_owned(), Json::Text(value.to_owned()))
}

/// A number that is not negative.
pub fn number(n: u64) -> (r: Json)
    ensures
        r.tree() == JsonTree::Number(decimal(n as nat)),
{
    let mut digits = String::new();
    push_decimal(n, &mut digits);
    assert(digits@ =~= decimal(n as nat));
    Json::Number(digits)
}

}
