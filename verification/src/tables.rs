//! Tables as lists of rows: changing, dropping and finding rows.

use vstd::prelude::*;

verus! {

/// The values of rows.
pub open spec fn views<T: View>(rows: Seq<T>) -> Seq<T::V> {
    rows.map_values(|r: T| r@)
}

/// The rows that a condition keeps, in their order.
pub open spec fn kept<V>(rows: Seq<V>, keep: spec_fn(V) -> bool) -> Seq<V>
    decreases rows.len(),
{
    if rows.len() == 0 {
        Seq::empty()
    } else if keep(rows.last()) {
        kept(rows.drop_last(), keep).push(rows.last())
    } else {
        kept(rows.drop_last(), keep)
    }
}

/// The first row that meets a condition.
pub open spec fn first<V>(rows: Seq<V>, wanted: spec_fn(V) -> bool) -> Option<V>
    decreases rows.len(),
{
    if rows.len() == 0 {
        None
    } else {
        match first(rows.drop_last(), wanted) {
            Some(r) => Some(r),
            None => if wanted(rows.last()) {
                Some(rows.last())
            } else {
                None
            },
        }
    }
}

/// The outcome of steps that are made for rows, one after the other.
pub open spec fn folded<S, V>(start: S, rows: Seq<V>, step: spec_fn(S, V) -> S) -> S
    decreases rows.len(),
{
    if rows.len() == 0 {
        start
    } else {
        step(folded(start, rows.drop_last(), step), rows.last())
    }
}

/// The outcome of steps that are made for rows, one after the other, up to the
/// first that fails.
pub open spec fn tried<S, V, E>(
    start: S,
    rows: Seq<V>,
    step: spec_fn(S, V) -> Result<S, E>,
) -> Result<S, E>
    decreases rows.len(),
{
    if rows.len() == 0 {
        Ok(start)
    } else {
        match tried(start, rows.drop_last(), step) {
            Ok(s) => step(s, rows.last()),
            Err(e) => Err(e),
        }
    }
}

/// Behind a step that failed there are no others.
pub proof fn lemma_tried_stops<S, V, E>(
    start: S,
    rows: Seq<V>,
    step: spec_fn(S, V) -> Result<S, E>,
    n: int,
)
    requires
        0 <= n <= rows.len(),
        tried(start, rows.take(n), step) is Err,
    ensures
        tried(start, rows, step) == tried(start, rows.take(n), step),
    decreases rows.len() - n,
{
    if n == rows.len() {
        assert(rows.take(n) =~= rows);
    } else {
        assert(rows.take(n + 1).drop_last() =~= rows.take(n));
        lemma_tried_stops(start, rows, step, n + 1);
    }
}

/// What every step keeps holds of the outcome.
pub proof fn lemma_folded_keeps<S, V>(
    start: S,
    rows: Seq<V>,
    step: spec_fn(S, V) -> S,
    holds: spec_fn(S) -> bool,
)
    requires
        holds(start),
        forall|s: S, i: int|
            0 <= i < rows.len() && #[trigger] holds(s) ==> holds(step(s, #[trigger] rows[i])),
    ensures
        holds(folded(start, rows, step)),
    decreases rows.len(),
{
    if rows.len() > 0 {
        let d = rows.drop_last();
        assert forall|s: S, i: int| 0 <= i < d.len() && #[trigger] holds(s) implies holds(
            step(s, #[trigger] d[i]),
        ) by {
            assert(d[i] == rows[i]);
        }
        lemma_folded_keeps(start, d, step, holds);
        let before = folded(start, d, step);
        assert(holds(before));
        assert(holds(step(before, rows[rows.len() - 1])));
    }
}

/// What every step that succeeds keeps holds of the outcome.
pub proof fn lemma_tried_keeps<S, V, E>(
    start: S,
    rows: Seq<V>,
    step: spec_fn(S, V) -> Result<S, E>,
    holds: spec_fn(S) -> bool,
)
    requires
        holds(start),
        forall|s: S, i: int|
            0 <= i < rows.len() && #[trigger] holds(s) && step(s, #[trigger] rows[i]) is Ok
                ==> holds(step(s, rows[i])->Ok_0),
    ensures
        tried(start, rows, step) is Ok ==> holds(tried(start, rows, step)->Ok_0),
    decreases rows.len(),
{
    if rows.len() > 0 {
        let d = rows.drop_last();
        assert forall|s: S, i: int|
            0 <= i < d.len() && #[trigger] holds(s) && step(s, #[trigger] d[i]) is Ok implies holds(
            step(s, d[i])->Ok_0,
        ) by {
            assert(d[i] == rows[i]);
        }
        lemma_tried_keeps(start, d, step, holds);
        if tried(start, d, step) is Ok {
            let before = tried(start, d, step)->Ok_0;
            assert(holds(before));
            assert(step(before, rows[rows.len() - 1]) == tried(start, rows, step));
        }
    }
}

/// How many rows meet a condition.
pub open spec fn tally<V>(rows: Seq<V>, counted: spec_fn(V) -> bool) -> nat {
    kept(rows, counted).len()
}

/// What is kept are the rows that meet the condition.
pub proof fn lemma_kept<V>(rows: Seq<V>, keep: spec_fn(V) -> bool)
    ensures
        kept(rows, keep).len() <= rows.len(),
        forall|i: int|
            0 <= i < kept(rows, keep).len() ==> keep(#[trigger] kept(rows, keep)[i])
                && rows.contains(kept(rows, keep)[i]),
        forall|r: V| #[trigger]
            kept(rows, keep).contains(r) <==> rows.contains(r) && keep(r),
    decreases rows.len(),
{
    if rows.len() > 0 {
        let d = rows.drop_last();
        let k = kept(d, keep);
        lemma_kept(d, keep);
        let all = kept(rows, keep);
        assert forall|i: int| 0 <= i < all.len() implies keep(#[trigger] all[i]) && rows.contains(
            all[i],
        ) by {
            if i < k.len() {
                assert(all[i] == k[i]);
                let j = d.index_of(k[i]);
                assert(rows[j] == all[i]);
            } else {
                assert(rows[rows.len() - 1] == all[i]);
            }
        }
        assert forall|r: V| #[trigger] all.contains(r) <==> rows.contains(r) && keep(r) by {
            if all.contains(r) {
                let i = all.index_of(r);
                assert(all[i] == r);
            }
            if rows.contains(r) && keep(r) {
                let j = rows.index_of(r);
                if j < d.len() {
                    assert(d[j] == r);
                    assert(k.contains(r));
                    let m = k.index_of(r);
                    assert(all[m] == r);
                } else {
                    assert(all[k.len() as int] == r);
                }
            }
        }
    }
}

/// Where the kept rows stood.
pub proof fn lemma_kept_places<V>(rows: Seq<V>, keep: spec_fn(V) -> bool) -> (places: Seq<int>)
    ensures
        places.len() == kept(rows, keep).len(),
        forall|i: int|
            0 <= i < places.len() ==> 0 <= #[trigger] places[i] < rows.len() && kept(rows, keep)[i]
                == rows[places[i]],
        forall|i: int, j: int|
            0 <= i < j < places.len() ==> #[trigger] places[i] < #[trigger] places[j],
    decreases rows.len(),
{
    if rows.len() == 0 {
        Seq::empty()
    } else {
        let d = rows.drop_last();
        let p = lemma_kept_places(d, keep);
        if keep(rows.last()) {
            p.push(rows.len() - 1)
        } else {
            p
        }
    }
}

/// The first row that meets a condition is a row that meets it, and there is
/// none only where no row meets it.
pub proof fn lemma_first<V>(rows: Seq<V>, wanted: spec_fn(V) -> bool)
    ensures
        match first(rows, wanted) {
            Some(r) => rows.contains(r) && wanted(r),
            None => forall|i: int| 0 <= i < rows.len() ==> !wanted(#[trigger] rows[i]),
        },
    decreases rows.len(),
{
    if rows.len() > 0 {
        let d = rows.drop_last();
        lemma_first(d, wanted);
        match first(d, wanted) {
            Some(r) => {
                let j = d.index_of(r);
                assert(rows[j] == r);
            },
            None => {
                if wanted(rows.last()) {
                    assert(rows[rows.len() - 1] == rows.last());
                } else {
                    assert forall|i: int| 0 <= i < rows.len() implies !wanted(
                        #[trigger] rows[i],
                    ) by {
                        if i < d.len() {
                            assert(d[i] == rows[i]);
                        }
                    }
                }
            },
        }
    }
}

/// Changes every row.
pub(crate) fn map_rows<T: View, F: Fn(&T) -> T>(
    rows: &Vec<T>,
    change: F,
    Ghost(model): Ghost<spec_fn(T::V) -> T::V>,
) -> (r: Vec<T>)
    requires
        forall|x: &T| #[trigger] change.requires((x,)),
        forall|x: &T, y: T| #[trigger] change.ensures((x,), y) ==> y@ == model(x@),
    ensures
        views(r@) == views(rows@).map_values(model),
{
    let mut out: Vec<T> = Vec::new();
    let mut i: usize = 0;
    while i < rows.len()
        invariant
            i <= rows@.len(),
            out@.len() == i,
            forall|x: &T| #[trigger] change.requires((x,)),
            forall|x: &T, y: T| #[trigger] change.ensures((x,), y) ==> y@ == model(x@),
            forall|j: int| 0 <= j < i ==> (#[trigger] out@[j])@ == model(rows@[j]@),
        decreases rows@.len() - i,
    {
        let row = change(&rows[i]);
        out.push(row);
        i += 1;
    }
    assert(views(out@) =~= views(rows@).map_values(model));
    out
}

/// Drops the rows that a condition does not keep.
pub(crate) fn keep_rows<T: View, F: Fn(&T) -> bool>(
    rows: &mut Vec<T>,
    keep: F,
    Ghost(model): Ghost<spec_fn(T::V) -> bool>,
)
    requires
        forall|x: &T| #[trigger] keep.requires((x,)),
        forall|x: &T, y: bool| #[trigger] keep.ensures((x,), y) ==> y == model(x@),
    ensures
        views(final(rows)@) == kept(views(old(rows)@), model),
{
    let ghost all = views(rows@);
    let ghost table = rows@;
    let mut rest: Vec<T> = Vec::new();
    std::mem::swap(rows, &mut rest);
    assert(rest@ =~= table.take(table.len() as int));
    let mut waiting: Vec<T> = Vec::new();
    while rest.len() > 0
        invariant
            rest@.len() + waiting@.len() == table.len(),
            rest@ == table.take(rest@.len() as int),
            forall|j: int|
                0 <= j < waiting@.len() ==> #[trigger] waiting@[j] == table[table.len() - 1 - j],
        decreases rest@.len(),
    {
        match rest.pop() {
            Some(row) => {
                waiting.push(row);
            },
            None => {},
        }
        assert(rest@ =~= table.take(rest@.len() as int));
    }
    let mut out: Vec<T> = Vec::new();
    let ghost mut done: int = 0;
    assert(all.take(0) =~= Seq::<T::V>::empty());
    assert(views(out@) =~= Seq::<T::V>::empty());
    while waiting.len() > 0
        invariant
            forall|x: &T| #[trigger] keep.requires((x,)),
            forall|x: &T, y: bool| #[trigger] keep.ensures((x,), y) ==> y == model(x@),
            all == views(table),
            waiting@.len() + done == table.len(),
            0 <= done,
            forall|j: int|
                0 <= j < waiting@.len() ==> #[trigger] waiting@[j] == table[table.len() - 1 - j],
            views(out@) == kept(all.take(done), model),
        decreases waiting@.len(),
    {
        let ghost before = waiting@;
        match waiting.pop() {
            Some(row) => {
                proof {
                    assert(before[before.len() - 1] == table[done]);
                    assert(row@ == all[done]);
                    assert(all.take(done + 1).drop_last() =~= all.take(done));
                    assert(all.take(done + 1).last() == row@);
                }
                let ghost shown = views(out@);
                if keep(&row) {
                    let ghost value = row@;
                    out.push(row);
                    assert(views(out@) =~= shown.push(value));
                }
                proof {
                    done = done + 1;
                }
            },
            None => {},
        }
    }
    assert(all.take(done) =~= all);
    std::mem::swap(rows, &mut out);
}

/// Finds the first row that meets a condition.
pub(crate) fn find_row<T: View, F: Fn(&T) -> bool>(
    rows: &Vec<T>,
    wanted: F,
    Ghost(model): Ghost<spec_fn(T::V) -> bool>,
) -> (r: Option<usize>)
    requires
        forall|x: &T| #[trigger] wanted.requires((x,)),
        forall|x: &T, y: bool| #[trigger] wanted.ensures((x,), y) ==> y == model(x@),
    ensures
        match r {
            Some(i) => i < rows@.len() && first(views(rows@), model) == Some(rows@[i as int]@)
                && model(rows@[i as int]@) && forall|j: int|
                0 <= j < i ==> !model(#[trigger] views(rows@)[j]),
            None => first(views(rows@), model) is None,
        },
{
    let ghost all = views(rows@);
    let mut i: usize = 0;
    while i < rows.len()
        invariant
            i <= rows@.len(),
            all == views(rows@),
            forall|x: &T| #[trigger] wanted.requires((x,)),
            forall|x: &T, y: bool| #[trigger] wanted.ensures((x,), y) ==> y == model(x@),
            first(all.take(i as int), model) is None,
            forall|j: int| 0 <= j < i ==> !model(#[trigger] all[j]),
        decreases rows@.len() - i,
    {
        proof {
            assert(all.take(i as int + 1).drop_last() =~= all.take(i as int));
            assert(all.take(i as int + 1).last() == rows@[i as int]@);
        }
        if wanted(&rows[i]) {
            proof {
                lemma_first_stays(all, model, i as int + 1);
            }
            return Some(i);
        }
        i += 1;
    }
    assert(all.take(all.len() as int) =~= all);
    None
}

/// A first row that was found among the front rows is the first of all.
pub proof fn lemma_first_stays<V>(rows: Seq<V>, wanted: spec_fn(V) -> bool, n: int)
    requires
        0 <= n <= rows.len(),
        first(rows.take(n), wanted) is Some,
    ensures
        first(rows, wanted) == first(rows.take(n), wanted),
    decreases rows.len() - n,
{
    if n == rows.len() {
        assert(rows.take(n) =~= rows);
    } else {
        assert(rows.take(n + 1).drop_last() =~= rows.take(n));
        lemma_first_stays(rows, wanted, n + 1);
    }
}

/// The first rows that are picked, up to a limit.
pub open spec fn picked<V>(rows: Seq<V>, pick: spec_fn(V) -> Option<i64>, limit: int) -> Seq<i64>
    decreases rows.len(),
{
    if rows.len() == 0 {
        Seq::empty()
    } else {
        let before = picked(rows.drop_last(), pick, limit);
        match pick(rows.last()) {
            Some(id) => if before.len() < limit {
                before.push(id)
            } else {
                before
            },
            None => before,
        }
    }
}

/// Picks the first rows, up to a limit.
pub fn pick_rows<T, F: Fn(&T) -> Option<i64>>(
    rows: &[T],
    pick: F,
    limit: usize,
    Ghost(model): Ghost<spec_fn(T) -> Option<i64>>,
) -> (r: Vec<i64>)
    requires
        forall|x: &T| #[trigger] pick.requires((x,)),
        forall|x: &T, y: Option<i64>| #[trigger] pick.ensures((x,), y) ==> y == model(*x),
    ensures
        r@ == picked(rows@, model, limit as int),
        r@.len() <= limit,
{
    let mut out: Vec<i64> = Vec::new();
    let mut i: usize = 0;
    while i < rows.len()
        invariant
            i <= rows@.len(),
            out@ == picked(rows@.take(i as int), model, limit as int),
            out@.len() <= limit,
            forall|x: &T| #[trigger] pick.requires((x,)),
            forall|x: &T, y: Option<i64>| #[trigger] pick.ensures((x,), y) ==> y == model(*x),
        decreases rows@.len() - i,
    {
        assert(rows@.take(i as int + 1).drop_last() =~= rows@.take(i as int));
        match pick(&rows[i]) {
            Some(id) => {
                if out.len() < limit {
                    out.push(id);
                }
            },
            None => {},
        }
        i += 1;
    }
    assert(rows@.take(rows@.len() as int) =~= rows@);
    out
}

/// What is picked comes from a row.
pub proof fn lemma_picked<V>(rows: Seq<V>, pick: spec_fn(V) -> Option<i64>, limit: int, id: i64)
    requires
        picked(rows, pick, limit).contains(id),
    ensures
        exists|i: int| 0 <= i < rows.len() && pick(#[trigger] rows[i]) == Some(id),
    decreases rows.len(),
{
    if rows.len() > 0 {
        let d = rows.drop_last();
        let before = picked(d, pick, limit);
        if before.contains(id) {
            lemma_picked(d, pick, limit, id);
            let i = choose|i: int| 0 <= i < d.len() && pick(#[trigger] d[i]) == Some(id);
            assert(rows[i] == d[i]);
        } else {
            let k = picked(rows, pick, limit).index_of(id);
            assert(picked(rows, pick, limit)[k] == id);
            if k < before.len() {
                assert(before[k] == id);
            }
            assert(pick(rows[rows.len() - 1]) == Some(id));
        }
    }
}

/// What is picked without reaching the limit is everything: no row that is picked
/// stays behind.
pub proof fn short_picks_take_everything<V>(
    rows: Seq<V>,
    pick: spec_fn(V) -> Option<i64>,
    limit: int,
    i: int,
)
    requires
        picked(rows, pick, limit).len() < limit,
        0 <= i < rows.len(),
        pick(rows[i]) is Some,
    ensures
        picked(rows, pick, limit).contains(pick(rows[i])->Some_0),
    decreases rows.len(),
{
    let d = rows.drop_last();
    let before = picked(d, pick, limit);
    let all = picked(rows, pick, limit);
    let id = pick(rows[i])->Some_0;
    if i == rows.len() - 1 {
        assert(all[all.len() - 1] == id);
    } else {
        assert(d[i] == rows[i]);
        short_picks_take_everything(d, pick, limit, i);
        let k = before.index_of(id);
        assert(before[k] == id);
        assert(all[k] == id);
    }
}

}
