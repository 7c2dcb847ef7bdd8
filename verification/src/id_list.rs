//! Lists of ids as they are stored: JSON arrays of integers.

use vstd::prelude::*;
use crate::text::{decimal_int, joined, same_text};

verus! {

/// The ids that `serde_json` reads from a text.
pub uninterp spec fn serde_id_list(text: Seq<char>) -> Option<Seq<i64>>;

/// What `serde_json` reads from a text: nothing where it is no JSON document; no list where
/// the document is no array; else, for each value of the array, the integer of 64 bits that
/// it is, where it is one.
pub uninterp spec fn serde_values(text: Seq<char>) -> Option<Option<Seq<Option<i64>>>>;

/// The value of what was read from a text.
pub open spec fn values_view(values: Option<Option<Vec<Option<i64>>>>) -> Option<
    Option<Seq<Option<i64>>>,
> {
    match values {
        None => None,
        Some(None) => Some(None),
        Some(Some(list)) => Some(Some(list@)),
    }
}

/// `serde_json::from_str::<Value>`, with `Value::as_array` on the document and
/// `Value::as_i64` on each value of the array. Which texts are accepted is not spelled out:
/// the outcome has a name.
#[verifier::external_body]
pub(crate) fn read_values(text: &str) -> (r: Option<Option<Vec<Option<i64>>>>)
    ensures
        values_view(r) == serde_values(text@),
{
    let document = serde_json::from_str::<serde_json::Value>(text).ok()?;
    Some(document.as_array().map(|values| values.iter().map(|value| value.as_i64()).collect()))
}

/// The text of a list of ids: in square brackets, with commas between them and
/// no white space.
pub open spec fn id_list_text(ids: Seq<i64>) -> Seq<char> {
    seq!['['] + joined(ids.map_values(|n: i64| decimal_int(n as int)), seq![',']) + seq![']']
}

/// `serde_json::from_str::<Vec<i64>>`: the integers of a JSON array, or `None`
/// where the text is no such array. Which texts are accepted is not spelled out:
/// the outcome has a name.
#[verifier::external_body]
pub(crate) fn read_id_list(text: &str) -> (r: Option<Vec<i64>>)
    ensures
        match r {
            Some(ids) => serde_id_list(text@) == Some(ids@),
            None => serde_id_list(text@) is None,
        },
{
    serde_json::from_str::<Vec<i64>>(text).ok()
}

/// `serde_json::to_string` on integers, which cannot fail: the compact text of
/// the array. Reading that text gives the integers back.
#[verifier::external_body]
pub(crate) fn write_id_list(ids: &Vec<i64>) -> (r: String)
    ensures
        r@ == id_list_text(ids@),
        serde_id_list(r@) == Some(ids@),
{
    serde_json::to_string(ids).unwrap()
}

/// The ids of a stored list; a text that is no list of ids counts as empty.
pub fn stored_ids(text: &str) -> (r: Vec<i64>)
    ensures
        r@ == (match serde_id_list(text@) {
            Some(ids) => ids,
            None => Seq::empty(),
        }),
{
    match read_id_list(text) {
        Some(ids) => ids,
        None => Vec::new(),
    }
}

/// The text under which a list of ids is stored.
pub fn ids_text(ids: &Vec<i64>) -> (r: String)
    ensures
        r@ == id_list_text(ids@),
        serde_id_list(r@) == Some(ids@),
{
    write_id_list(ids)
}

/// The id that an id is mapped to: by the first pair that has it, else itself.
pub open spec fn mapped_id(pairs: Seq<(i64, i64)>, id: i64) -> i64
    decreases pairs.len(),
{
    if pairs.len() == 0 {
        id
    } else if pairs[0].0 == id {
        pairs[0].1
    } else {
        mapped_id(pairs.skip(1), id)
    }
}

/// The id that an id is mapped to.
fn map_id(pairs: &[(i64, i64)], id: i64) -> (r: i64)
    ensures
        r == mapped_id(pairs@, id),
{
    let mut i: usize = 0;
    assert(pairs@.skip(0) =~= pairs@);
    while i < pairs.len()
        invariant
            i <= pairs@.len(),
            mapped_id(pairs@.skip(i as int), id) == mapped_id(pairs@, id),
        decreases pairs@.len() - i,
    {
        let ghost rest = pairs@.skip(i as int);
        assert(rest[0] == pairs@[i as int]);
        if pairs[i].0 == id {
            return pairs[i].1;
        }
        assert(rest.skip(1) =~= pairs@.skip(i as int + 1));
        i += 1;
    }
    id
}

/// Whether a list of ids holds an id.
pub fn has_id(ids: &[i64], id: i64) -> (r: bool)
    ensures
        r == ids@.contains(id),
{
    let mut i: usize = 0;
    while i < ids.len()
        invariant
            i <= ids@.len(),
            forall|j: int| 0 <= j < i ==> ids@[j] != id,
        decreases ids@.len() - i,
    {
        if ids[i] == id {
            return true;
        }
        i += 1;
    }
    false
}

/// The mapped ids of a list, each once, in the order of its first appearance.
pub open spec fn remapped(ids: Seq<i64>, pairs: Seq<(i64, i64)>) -> Seq<i64>
    decreases ids.len(),
{
    if ids.len() == 0 {
        Seq::empty()
    } else {
        let before = remapped(ids.drop_last(), pairs);
        let id = mapped_id(pairs, ids.last());
        if before.contains(id) {
            before
        } else {
            before.push(id)
        }
    }
}

/// The mapped ids of a list, each once.
pub fn remap_ids(ids: &[i64], pairs: &[(i64, i64)]) -> (r: Vec<i64>)
    ensures
        r@ == remapped(ids@, pairs@),
{
    let mut out: Vec<i64> = Vec::new();
    let mut i: usize = 0;
    while i < ids.len()
        invariant
            i <= ids@.len(),
            out@ == remapped(ids@.take(i as int), pairs@),
        decreases ids@.len() - i,
    {
        assert(ids@.take(i as int + 1).drop_last() =~= ids@.take(i as int));
        let id = map_id(pairs, ids[i]);
        if !has_id(&out, id) {
            out.push(id);
        }
        i += 1;
    }
    assert(ids@.take(ids@.len() as int) =~= ids@);
    out
}

/// What becomes of a stored list of ids when ids are mapped.
#[derive(Debug)]
pub enum Remap {
    /// The text is no list of ids.
    Malformed,
    /// The text stays.
    Unchanged,
    /// The text to be stored instead.
    Changed(String),
}

/// Maps the ids of a parsed list and compares the outcome with the text it was
/// parsed from.
pub fn remap_parsed(raw: &str, ids: Option<Vec<i64>>, pairs: &[(i64, i64)]) -> (r: Remap)
    ensures
        match ids {
            None => r is Malformed,
            Some(v) => {
                let text = id_list_text(remapped(v@, pairs@));
                if text == raw@ {
                    r is Unchanged
                } else {
                    r is Changed && r->Changed_0@ == text
                }
            },
        },
{
    match ids {
        None => Remap::Malformed,
        Some(v) => {
            let encoded = write_id_list(&remap_ids(&v, pairs));
            if same_text(&encoded, raw) {
                Remap::Unchanged
            } else {
                Remap::Changed(encoded)
            }
        },
    }
}

/// Maps the ids of a stored list.
pub fn remap_stored(raw: &str, pairs: &[(i64, i64)]) -> (r: Remap)
    ensures
        match serde_id_list(raw@) {
            None => r is Malformed,
            Some(ids) => {
                let text = id_list_text(remapped(ids, pairs@));
                if text == raw@ {
                    r is Unchanged
                } else {
                    r is Changed && r->Changed_0@ == text
                }
            },
        },
{
    let ids = read_id_list(raw);
    remap_parsed(raw, ids, pairs)
}

/// Mapping leaves no id twice.
pub proof fn remapped_ids_are_distinct(ids: Seq<i64>, pairs: Seq<(i64, i64)>)
    ensures
        remapped(ids, pairs).no_duplicates(),
    decreases ids.len(),
{
    if ids.len() > 0 {
        remapped_ids_are_distinct(ids.drop_last(), pairs);
    }
}

/// No selected id is lost by mapping: the outcome holds exactly the mapped ids.
pub proof fn remapping_keeps_every_id(ids: Seq<i64>, pairs: Seq<(i64, i64)>, id: i64)
    ensures
        remapped(ids, pairs).contains(id) <==> exists|i: int|
            0 <= i < ids.len() && #[trigger] mapped_id(pairs, ids[i]) == id,
    decreases ids.len(),
{
    if ids.len() > 0 {
        let d = ids.drop_last();
        let before = remapped(d, pairs);
        let last = mapped_id(pairs, ids.last());
        remapping_keeps_every_id(d, pairs, id);
        if before.contains(id) {
            let i = choose|i: int| 0 <= i < d.len() && #[trigger] mapped_id(pairs, d[i]) == id;
            assert(mapped_id(pairs, ids[i]) == id);
            let k = before.index_of(id);
            assert(remapped(ids, pairs)[k] == id);
        }
        if last == id {
            assert(mapped_id(pairs, ids[ids.len() - 1]) == id);
            if !before.contains(id) {
                assert(remapped(ids, pairs)[before.len() as int] == id);
            }
        }
        if exists|i: int| 0 <= i < ids.len() && #[trigger] mapped_id(pairs, ids[i]) == id {
            let i = choose|i: int| 0 <= i < ids.len() && #[trigger] mapped_id(pairs, ids[i]) == id;
            if i < d.len() {
                assert(mapped_id(pairs, d[i]) == id);
            }
        }
    }
}

/// An id that stands in front of a pair becomes what stands behind it in the first such pair;
/// any other id stays.
pub proof fn ids_become_what_their_pair_says(pairs: Seq<(i64, i64)>, id: i64, k: int)
    requires
        0 <= k <= pairs.len(),
        forall|j: int| 0 <= j < k ==> (#[trigger] pairs[j]).0 != id,
        k < pairs.len() ==> pairs[k].0 == id,
    ensures
        mapped_id(pairs, id) == if k < pairs.len() {
            pairs[k].1
        } else {
            id
        },
    decreases k,
{
    if k > 0 {
        assert(pairs[0].0 != id);
        let rest = pairs.skip(1);
        assert forall|j: int| 0 <= j < k - 1 implies (#[trigger] rest[j]).0 != id by {
            assert(rest[j] == pairs[j + 1]);
        }
        if k < pairs.len() {
            assert(rest[k - 1] == pairs[k]);
        }
        ids_become_what_their_pair_says(rest, id, k - 1);
    }
}

/// Without pairs, ids that are different stay as they are and in their order.
pub proof fn remapping_keeps_the_order(ids: Seq<i64>)
    requires
        ids.no_duplicates(),
    ensures
        remapped(ids, Seq::empty()) == ids,
    decreases ids.len(),
{
    if ids.len() > 0 {
        let d = ids.drop_last();
        assert(d.no_duplicates());
        remapping_keeps_the_order(d);
        assert(!d.contains(ids.last())) by {
            if d.contains(ids.last()) {
                let i = d.index_of(ids.last());
                assert(ids[i] == ids[ids.len() - 1]);
            }
        }
        assert(d.push(ids.last()) =~= ids);
    } else {
        assert(remapped(ids, Seq::empty()) =~= ids);
    }
}

}
