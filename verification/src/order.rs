//! Orders and sorted lists.

use vstd::prelude::*;
use crate::text::{chars_of, texts};

verus! {

/// Whether one text stands before another or is equal to it, character by
/// character; a text stands before its continuations.
pub open spec fn text_le(a: Seq<char>, b: Seq<char>) -> bool
    decreases a.len(),
{
    if a.len() == 0 {
        true
    } else if b.len() == 0 {
        false
    } else if a[0] != b[0] {
        a[0] < b[0]
    } else {
        text_le(a.skip(1), b.skip(1))
    }
}

/// Of two texts one stands before the other.
pub proof fn lemma_text_le_total(a: Seq<char>, b: Seq<char>)
    ensures
        text_le(a, b) || text_le(b, a),
    decreases a.len(),
{
    if a.len() > 0 && b.len() > 0 && a[0] == b[0] {
        lemma_text_le_total(a.skip(1), b.skip(1));
    }
}

/// The order of texts carries over.
pub proof fn lemma_text_le_transitive(a: Seq<char>, b: Seq<char>, c: Seq<char>)
    requires
        text_le(a, b),
        text_le(b, c),
    ensures
        text_le(a, c),
    decreases a.len(),
{
    if a.len() > 0 && b.len() > 0 && c.len() > 0 && a[0] == b[0] && b[0] == c[0] {
        lemma_text_le_transitive(a.skip(1), b.skip(1), c.skip(1));
    }
}

/// Whether one text stands before another or is equal to it.
pub fn not_after(a: &str, b: &str) -> (r: bool)
    ensures
        r == text_le(a@, b@),
{
    let x = chars_of(a);
    let y = chars_of(b);
    let mut i: usize = 0;
    assert(x@.skip(0) =~= x@);
    assert(y@.skip(0) =~= y@);
    while i < x.len() && i < y.len() && x[i] == y[i]
        invariant
            i <= x@.len(),
            i <= y@.len(),
            text_le(x@.skip(i as int), y@.skip(i as int)) == text_le(x@, y@),
        decreases x@.len() - i,
    {
        assert(x@.skip(i as int).skip(1) =~= x@.skip(i as int + 1));
        assert(y@.skip(i as int).skip(1) =~= y@.skip(i as int + 1));
        i += 1;
    }
    if i == x.len() {
        true
    } else if i == y.len() {
        false
    } else {
        x[i] < y[i]
    }
}

/// Whether a list of texts is in order.
pub open spec fn in_order(v: Seq<Seq<char>>) -> bool {
    forall|i: int, j: int| 0 <= i < j < v.len() ==> text_le(#[trigger] v[i], #[trigger] v[j])
}

/// Puts a text in its place in a list that is in order.
fn insert_text(v: &mut Vec<String>, name: String)
    requires
        in_order(texts(old(v)@)),
    ensures
        in_order(texts(final(v)@)),
        final(v)@.to_multiset() == old(v)@.to_multiset().insert(name),
        final(v)@.len() == old(v)@.len() + 1,
{
    let ghost before = v@;
    let mut i: usize = 0;
    while i < v.len() && not_after(v[i].as_str(), name.as_str())
        invariant
            i <= v@.len(),
            v@ == before,
            forall|j: int| 0 <= j < i ==> text_le((#[trigger] before[j])@, name@),
        decreases v@.len() - i,
    {
        i += 1;
    }
    proof {
        let all = texts(before);
        if i < before.len() {
            lemma_text_le_total(name@, before[i as int]@);
        }
        assert forall|j: int| i <= j < before.len() implies text_le(
            name@,
            (#[trigger] before[j])@,
        ) by {
            assert(all[j] == before[j]@);
            if j > i {
                assert(text_le(all[i as int], all[j]));
                lemma_text_le_transitive(name@, all[i as int], all[j]);
            }
        }
        before.to_multiset_ensures();
    }
    v.insert(i, name);
    proof {
        let all = texts(before);
        let now = texts(v@);
        assert(v@ == before.insert(i as int, name));
        assert forall|a: int, b: int| 0 <= a < b < now.len() implies text_le(
            #[trigger] now[a],
            #[trigger] now[b],
        ) by {
            if a < i {
                assert(now[a] == all[a] && now[a] == before[a]@);
            } else if a > i {
                assert(now[a] == all[a - 1] && now[a] == before[a - 1]@);
            }
            if b < i {
                assert(now[b] == all[b] && now[b] == before[b]@);
            } else if b > i {
                assert(now[b] == all[b - 1] && now[b] == before[b - 1]@);
            }
        }
        vstd::seq_lib::to_multiset_insert(before, i as int, name);
    }
}

/// The texts of a list in order.
pub fn sort_texts(v: Vec<String>) -> (r: Vec<String>)
    ensures
        in_order(texts(r@)),
        r@.to_multiset() == v@.to_multiset(),
        r@.len() == v@.len(),
{
    let mut out: Vec<String> = Vec::new();
    let mut i: usize = 0;
    proof {
        assert(v@.take(0) =~= Seq::<String>::empty());
        assert(out@ =~= Seq::<String>::empty());
    }
    while i < v.len()
        invariant
            i <= v@.len(),
            in_order(texts(out@)),
            out@.len() == i,
            out@.to_multiset() == v@.take(i as int).to_multiset(),
        decreases v@.len() - i,
    {
        insert_text(&mut out, v[i].clone());
        proof {
            assert(v@.take(i as int + 1) =~= v@.take(i as int).push(v@[i as int]));
            v@.take(i as int).to_multiset_ensures();
        }
        i += 1;
    }
    assert(v@.take(v@.len() as int) =~= v@);
    out
}

/// Whether a list of numbers rises strictly.
pub open spec fn rising(v: Seq<i64>) -> bool {
    forall|i: int, j: int| 0 <= i < j < v.len() ==> #[trigger] v[i] < #[trigger] v[j]
}

/// Adds a number to a strictly rising list, where it is not there yet.
pub fn add_number(v: &mut Vec<i64>, n: i64)
    requires
        rising(old(v)@),
    ensures
        rising(final(v)@),
        final(v)@.to_set() == old(v)@.to_set().insert(n),
{
    let ghost before = v@;
    let mut i: usize = 0;
    while i < v.len() && v[i] < n
        invariant
            i <= v@.len(),
            v@ == before,
            forall|j: int| 0 <= j < i ==> #[trigger] before[j] < n,
        decreases v@.len() - i,
    {
        i += 1;
    }
    if i < v.len() && v[i] == n {
        proof {
            assert(before[i as int] == n);
            assert(before.to_set() =~= before.to_set().insert(n));
        }
        return;
    }
    v.insert(i, n);
    proof {
        let now = v@;
        assert(now == before.insert(i as int, n));
        assert forall|a: int, b: int| 0 <= a < b < now.len() implies #[trigger] now[a]
            < #[trigger] now[b] by {
            if i < before.len() && b > i {
                assert(before[b - 1] >= before[i as int]);
            }
            if a < i {
                assert(now[a] == before[a]);
            } else if a > i {
                assert(now[a] == before[a - 1]);
            }
            if b < i {
                assert(now[b] == before[b]);
            } else if b > i {
                assert(now[b] == before[b - 1]);
            }
        }
        assert(now.to_set() =~= before.to_set().insert(n)) by {
            assert forall|x: i64| now.to_set().contains(x) <==> before.to_set().insert(n).contains(
                x,
            ) by {
                if before.to_set().contains(x) {
                    let k = before.index_of(x);
                    assert(before[k] == x);
                    if k < i {
                        assert(now[k] == x);
                    } else {
                        assert(now[k + 1] == x);
                    }
                }
                if x == n {
                    assert(now[i as int] == x);
                }
                if now.contains(x) {
                    let k = now.index_of(x);
                    assert(now[k] == x);
                    if k < i {
                        assert(before[k] == x);
                    } else if k > i {
                        assert(before[k - 1] == x);
                    }
                }
            }
        }
    }
}

}
