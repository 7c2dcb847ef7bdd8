//! Names that nobody else has, and the order in which names are shown.

use vstd::prelude::*;
use crate::order::{not_after, text_le};
use crate::paths::{sibling, sibling_path};
use crate::text::texts;

verus! {

/// Whether a character is a lower-case hexadecimal digit.
pub open spec fn hex_digit(c: char) -> bool {
    '0' <= c <= '9' || 'a' <= c <= 'f'
}

/// Whether a text is a random identifier without hyphens: 32 lower-case
/// hexadecimal digits, with the version 4 in its place.
pub open spec fn simple_id(s: Seq<char>) -> bool {
    s.len() == 32 && s[12] == '4' && forall|i: int| 0 <= i < s.len() ==> hex_digit(#[trigger] s[i])
}

/// `uuid::Uuid::new_v4` written by `simple`: 32 lower-case hexadecimal digits,
/// the thirteenth of which is the version. Nothing is claimed of the other
/// digits, which are random.
#[verifier::external_body]
fn fresh_simple_id() -> (r: String)
    ensures
        simple_id(r@),
{
    uuid::Uuid::new_v4().simple().to_string()
}

/// A prefix and an identifier.
pub fn name_with_id(prefix: &str, id: &str) -> (r: String)
    ensures
        r@ == prefix@ + id@,
{
    let mut out = prefix.to_owned();
    out.append(id);
    out
}

/// A name that starts with a prefix and ends in a random identifier.
pub fn fresh_name(prefix: &str) -> (r: String)
    ensures
        exists|id: Seq<char>| #[trigger] simple_id(id) && r@ == prefix@ + id,
{
    let id = fresh_simple_id();
    name_with_id(prefix, &id)
}

/// A path in the folder of another path, whose name starts with a prefix and
/// ends in a random identifier.
pub fn fresh_sibling(path: &str, prefix: &str) -> (r: String)
    ensures
        exists|id: Seq<char>| #[trigger] simple_id(id) && r@ == sibling(path@, prefix@ + id),
{
    let id = fresh_simple_id();
    let name = name_with_id(prefix, &id);
    sibling_path(path, &name)
}

/// The lower case of a text.
pub uninterp spec fn lowercased(s: Seq<char>) -> Seq<char>;

/// `str::to_lowercase`: the lower case by the Unicode derived core property. The
/// outcome has a name.
#[verifier::external_body]
fn to_lowercase(s: &str) -> (r: String)
    ensures
        r@ == lowercased(s@),
{
    s.to_lowercase()
}

/// A text in quotes, with what cannot be read in it escaped.
pub uninterp spec fn quoted(s: Seq<char>) -> Seq<char>;

/// `Debug` for `str`: the text in quotes, with the escapes of `char::escape_debug`. The
/// outcome has a name.
#[verifier::external_body]
pub(crate) fn quote(s: &str) -> (r: String)
    ensures
        r@ == quoted(s@),
{
    format!("{:?}", s)
}

/// The keys of names: their lower case.
pub open spec fn lowercased_all(names: Seq<String>) -> Seq<Seq<char>> {
    names.map_values(|n: String| lowercased(n@))
}

/// A name put behind all names whose key does not come after its own. `keys`
/// holds the keys of `names`.
pub open spec fn placed(
    names: Seq<String>,
    keys: Seq<Seq<char>>,
    name: String,
    key: Seq<char>,
) -> (Seq<String>, Seq<Seq<char>>)
    decreases names.len(),
{
    if names.len() == 0 || names.len() != keys.len() {
        (seq![name], seq![key])
    } else if text_le(keys.last(), key) {
        (names.push(name), keys.push(key))
    } else {
        let (n, k) = placed(names.drop_last(), keys.drop_last(), name, key);
        (n.push(names.last()), k.push(keys.last()))
    }
}

/// Names in the order of given keys; names with equal keys keep their order.
pub open spec fn ordered_by(names: Seq<String>, keys: Seq<Seq<char>>) -> (
    Seq<String>,
    Seq<Seq<char>>,
)
    decreases names.len(),
{
    if names.len() == 0 || names.len() != keys.len() {
        (Seq::empty(), Seq::empty())
    } else {
        let (n, k) = ordered_by(names.drop_last(), keys.drop_last());
        placed(n, k, names.last(), keys.last())
    }
}

/// Puts a name behind all names whose key does not come after its own.
fn place(names: &mut Vec<String>, keys: &mut Vec<String>, name: String, key: String)
    requires
        old(names)@.len() == old(keys)@.len(),
    ensures
        (final(names)@, texts(final(keys)@)) == placed(
            old(names)@,
            texts(old(keys)@),
            name,
            key@,
        ),
        final(names)@.len() == final(keys)@.len(),
    decreases old(names)@.len(),
{
    let ghost n0 = names@;
    let ghost k0 = texts(keys@);
    if names.len() == 0 {
        let ghost k = key@;
        names.push(name);
        keys.push(key);
        assert(names@ =~= seq![name]);
        assert(texts(keys@) =~= seq![k]);
        return;
    }
    let last = keys.len() - 1;
    assert(k0.last() == keys@[last as int]@);
    if not_after(&keys[last], &key) {
        let ghost k = key@;
        names.push(name);
        keys.push(key);
        assert(texts(keys@) =~= k0.push(k));
        return;
    }
    let ghost kb = keys@;
    let a = names.pop();
    let b = keys.pop();
    assert(texts(keys@) =~= k0.drop_last());
    place(names, keys, name, key);
    match (a, b) {
        (Some(a), Some(b)) => {
            let ghost kk = texts(keys@);
            names.push(a);
            keys.push(b);
            assert(texts(keys@) =~= kk.push(b@));
        },
        _ => {},
    }
}

/// Names in the order of given keys; names with equal keys keep their order.
pub fn order_by(names: &[String], keys: &[String]) -> (r: Vec<String>)
    requires
        names@.len() == keys@.len(),
    ensures
        r@ == ordered_by(names@, texts(keys@)).0,
{
    let ghost all_keys = texts(keys@);
    let mut out: Vec<String> = Vec::new();
    let mut out_keys: Vec<String> = Vec::new();
    let mut i: usize = 0;
    assert(texts(out_keys@) =~= Seq::<Seq<char>>::empty());
    while i < names.len()
        invariant
            i <= names@.len(),
            names@.len() == keys@.len(),
            all_keys == texts(keys@),
            out@.len() == out_keys@.len(),
            (out@, texts(out_keys@)) == ordered_by(
                names@.take(i as int),
                all_keys.take(i as int),
            ),
        decreases names@.len() - i,
    {
        proof {
            let n = names@.take(i as int + 1);
            let k = all_keys.take(i as int + 1);
            assert(n.drop_last() =~= names@.take(i as int));
            assert(k.drop_last() =~= all_keys.take(i as int));
            assert(n.last() == names@[i as int]);
            assert(k.last() == keys@[i as int]@);
        }
        place(&mut out, &mut out_keys, names[i].clone(), keys[i].clone());
        i += 1;
    }
    assert(names@.take(names@.len() as int) =~= names@);
    assert(all_keys.take(all_keys.len() as int) =~= all_keys);
    out
}

/// Names in the order of their lower case; names with the same lower case keep
/// their order.
pub fn order_names(names: &[String]) -> (r: Vec<String>)
    ensures
        r@ == ordered_by(names@, lowercased_all(names@)).0,
{
    let mut keys: Vec<String> = Vec::new();
    let mut i: usize = 0;
    while i < names.len()
        invariant
            i <= names@.len(),
            keys@.len() == i,
            forall|j: int| 0 <= j < i ==> (#[trigger] keys@[j])@ == lowercased(names@[j]@),
        decreases names@.len() - i,
    {
        keys.push(to_lowercase(&names[i]));
        i += 1;
    }
    assert(texts(keys@) =~= lowercased_all(names@));
    order_by(names, &keys)
}

/// Ordering keeps every name and puts the keys in order.
pub proof fn ordering_sorts(names: Seq<String>, keys: Seq<Seq<char>>)
    requires
        names.len() == keys.len(),
    ensures
        ordered_by(names, keys).0.to_multiset() == names.to_multiset(),
        crate::order::in_order(ordered_by(names, keys).1),
        ordered_by(names, keys).0.len() == names.len(),
        ordered_by(names, keys).1.len() == names.len(),
    decreases names.len(),
{
    if names.len() == 0 {
        assert(ordered_by(names, keys).0 =~= names);
    } else {
        let dn = names.drop_last();
        let dk = keys.drop_last();
        ordering_sorts(dn, dk);
        let (n, k) = ordered_by(dn, dk);
        lemma_placed(n, k, names.last(), keys.last());
        assert(names =~= dn.push(names.last()));
        dn.to_multiset_ensures();
    }
}

/// Putting a name in its place keeps the order.
proof fn lemma_placed(names: Seq<String>, keys: Seq<Seq<char>>, name: String, key: Seq<char>)
    requires
        names.len() == keys.len(),
        crate::order::in_order(keys),
    ensures
        ({
            let (n, k) = placed(names, keys, name, key);
            &&& n.to_multiset() == names.to_multiset().insert(name)
            &&& crate::order::in_order(k)
            &&& n.len() == names.len() + 1
            &&& k.len() == names.len() + 1
            &&& forall|i: int| 0 <= i < k.len() ==> (#[trigger] k[i] == key || keys.contains(k[i]))
        }),
    decreases names.len(),
{
    let (n, k) = placed(names, keys, name, key);
    names.to_multiset_ensures();
    if names.len() == 0 {
        assert(n =~= names.push(name));
    } else if text_le(keys.last(), key) {
        assert forall|i: int, j: int| 0 <= i < j < k.len() implies text_le(
            #[trigger] k[i],
            #[trigger] k[j],
        ) by {
            if j == keys.len() {
                if i < keys.len() - 1 {
                    assert(text_le(keys[i], keys[keys.len() - 1]));
                    crate::order::lemma_text_le_transitive(keys[i], keys.last(), key);
                }
            } else {
                assert(text_le(keys[i], keys[j]));
            }
        }
        assert forall|i: int| 0 <= i < k.len() implies (#[trigger] k[i] == key || keys.contains(
            k[i],
        )) by {
            if i < keys.len() {
                assert(keys[i] == k[i]);
            }
        }
    } else {
        let dn = names.drop_last();
        let dk = keys.drop_last();
        assert(crate::order::in_order(dk)) by {
            assert forall|i: int, j: int| 0 <= i < j < dk.len() implies text_le(
                #[trigger] dk[i],
                #[trigger] dk[j],
            ) by {
                assert(text_le(keys[i], keys[j]));
            }
        }
        lemma_placed(dn, dk, name, key);
        let (pn, pk) = placed(dn, dk, name, key);
        pn.to_multiset_ensures();
        dn.to_multiset_ensures();
        assert(names =~= dn.push(names.last()));
        assert(n.to_multiset() =~= names.to_multiset().insert(name));
        crate::order::lemma_text_le_total(keys.last(), key);
        assert forall|i: int| 0 <= i < pk.len() implies text_le(#[trigger] pk[i], keys.last()) by {
            if pk[i] != key {
                let m = dk.index_of(pk[i]);
                assert(dk[m] == pk[i]);
                assert(text_le(keys[m], keys[keys.len() - 1]));
            }
        }
        assert forall|i: int, j: int| 0 <= i < j < k.len() implies text_le(
            #[trigger] k[i],
            #[trigger] k[j],
        ) by {
            if j < pk.len() {
                assert(text_le(pk[i], pk[j]));
            } else {
                assert(k[i] == pk[i]);
            }
        }
        assert forall|i: int| 0 <= i < k.len() implies (#[trigger] k[i] == key || keys.contains(
            k[i],
        )) by {
            if i < pk.len() {
                assert(k[i] == pk[i]);
                if pk[i] != key {
                    let m = dk.index_of(pk[i]);
                    assert(keys[m] == pk[i]);
                }
            } else {
                assert(keys[keys.len() - 1] == k[i]);
            }
        }
    }
}

}
