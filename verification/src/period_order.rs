//! Laws of the order by period: what sorting a list of blocks does to its
//! parts.
use crate::block::BlockModel;
use crate::day_plan::{
    insert_by_period, insert_pos, is_sorted_by_period, lemma_insert_pos, lemma_sorted_by_period,
    lemma_sorted_stays, sorted_by_period,
};
use crate::text::{lemma_lex_total, lemma_lex_transitive, lex_le};
use vstd::prelude::*;

verus! {

/// Whether `a` has a period that comes strictly before the one of `b`.
pub open spec fn strictly_before(a: BlockModel, b: BlockModel) -> bool {
    lex_le(a.period, b.period) && !lex_le(b.period, a.period)
}

/// The place of a block is behind the blocks that come no later and before
/// the first that comes later.
pub proof fn lemma_insert_pos_at(s: Seq<BlockModel>, period: Seq<char>, i: int, p: int)
    requires
        0 <= i <= p <= s.len(),
        forall|k: int| i <= k < p ==> lex_le((#[trigger] s[k]).period, period),
        p < s.len() ==> !lex_le(s[p].period, period),
    ensures
        insert_pos(s, period, i) == p,
    decreases p - i,
{
    if i < p {
        lemma_insert_pos_at(s, period, i + 1, p);
    }
}

/// Two blocks of different periods can be put in in either order.
pub proof fn lemma_inserts_commute(w: Seq<BlockModel>, y: BlockModel, z: BlockModel)
    requires
        strictly_before(y, z),
    ensures
        insert_by_period(insert_by_period(w, y), z) == insert_by_period(insert_by_period(w, z), y),
{
    let py = insert_pos(w, y.period, 0);
    let pz = insert_pos(w, z.period, 0);
    lemma_insert_pos(w, y.period, 0);
    lemma_insert_pos(w, z.period, 0);
    assert(py <= pz) by {
        if pz < py {
            assert(lex_le(w[pz].period, y.period));
            lemma_lex_transitive(w[pz].period, y.period, z.period);
        }
    }
    let wy = w.insert(py, y);
    assert forall|k: int| 0 <= k < pz + 1 implies lex_le((#[trigger] wy[k]).period, z.period) by {
        if k < py {
            assert(wy[k] == w[k]);
        } else if k > py {
            assert(wy[k] == w[k - 1]);
        }
    }
    if pz + 1 < wy.len() {
        assert(wy[pz + 1] == w[pz]);
    }
    lemma_insert_pos_at(wy, z.period, 0, pz + 1);
    let wz = w.insert(pz, z);
    assert forall|k: int| 0 <= k < py implies lex_le((#[trigger] wz[k]).period, y.period) by {
        assert(wz[k] == w[k]);
    }
    if py < pz {
        assert(wz[py] == w[py]);
    } else {
        assert(wz[py] == z);
    }
    lemma_insert_pos_at(wz, y.period, 0, py);
    assert(wy.insert(pz + 1, z) =~= wz.insert(py, y));
}

/// A block that stands before blocks of later periods only can as well be
/// put in after them.
pub proof fn lemma_late_insert(front: Seq<BlockModel>, y: BlockModel, tail: Seq<BlockModel>)
    requires
        forall|k: int| 0 <= k < tail.len() ==> strictly_before(y, #[trigger] tail[k]),
    ensures
        sorted_by_period(front.push(y) + tail) == insert_by_period(
            sorted_by_period(front + tail),
            y,
        ),
    decreases tail.len(),
{
    if tail.len() == 0 {
        assert(front.push(y) + tail =~= front.push(y));
        assert(front + tail =~= front);
        assert(front.push(y).drop_last() =~= front);
    } else {
        let t = tail.drop_last();
        let z = tail.last();
        assert forall|k: int| 0 <= k < t.len() implies strictly_before(y, #[trigger] t[k]) by {
            assert(t[k] == tail[k]);
        }
        lemma_late_insert(front, y, t);
        assert((front.push(y) + tail).drop_last() =~= front.push(y) + t);
        assert((front + tail).drop_last() =~= front + t);
        assert(strictly_before(y, tail[tail.len() - 1]));
        lemma_inserts_commute(sorted_by_period(front + t), y, z);
    }
}

/// In a sorted list, the blocks from the place of a new block on all come
/// strictly later than it.
pub proof fn lemma_later_blocks(s: Seq<BlockModel>, b: BlockModel, j: int)
    requires
        is_sorted_by_period(s),
        insert_pos(s, b.period, 0) <= j < s.len(),
    ensures
        strictly_before(b, s[j]),
{
    let p = insert_pos(s, b.period, 0);
    lemma_insert_pos(s, b.period, 0);
    lemma_lex_total(s[p].period, b.period);
    if j > p {
        assert(lex_le(s[p].period, s[j].period));
        lemma_lex_transitive(b.period, s[p].period, s[j].period);
        if lex_le(s[j].period, b.period) {
            lemma_lex_transitive(s[p].period, s[j].period, b.period);
        }
    }
}

/// Sorting the second part of a list first does not change the sorted
/// list.
pub proof fn lemma_sort_second_part(x: Seq<BlockModel>, y: Seq<BlockModel>)
    ensures
        sorted_by_period(x + sorted_by_period(y)) == sorted_by_period(x + y),
    decreases y.len(),
{
    if y.len() > 0 {
        let rest = y.drop_last();
        let b = y.last();
        let s = sorted_by_period(rest);
        lemma_sorted_by_period(rest);
        let p = insert_pos(s, b.period, 0);
        lemma_insert_pos(s, b.period, 0);
        let front = x + s.subrange(0, p);
        let tail = s.subrange(p, s.len() as int);
        assert(x + sorted_by_period(y) =~= front.push(b) + tail);
        assert(front + tail =~= x + s);
        assert forall|k: int| 0 <= k < tail.len() implies strictly_before(b, #[trigger] tail[k]) by {
            lemma_later_blocks(s, b, p + k);
        }
        lemma_late_insert(front, b, tail);
        lemma_sort_second_part(x, rest);
        assert((x + y).drop_last() =~= x + rest);
    }
}

/// Sorting the first part of a list first does not change the sorted list.
pub proof fn lemma_sort_first_part(x: Seq<BlockModel>, y: Seq<BlockModel>)
    ensures
        sorted_by_period(sorted_by_period(x) + y) == sorted_by_period(x + y),
    decreases y.len(),
{
    let sx = sorted_by_period(x);
    if y.len() == 0 {
        assert(sx + y =~= sx);
        assert(x + y =~= x);
        lemma_sorted_by_period(x);
        lemma_sorted_stays(sx);
    } else {
        lemma_sort_first_part(x, y.drop_last());
        assert((sx + y).drop_last() =~= sx + y.drop_last());
        assert((x + y).drop_last() =~= x + y.drop_last());
    }
}

/// Putting a block into a sorted list and then choosing by a test is the
/// same as choosing first and putting the block in if it meets the test.
pub proof fn lemma_filter_insert(t: Seq<BlockModel>, x: BlockModel, pred: spec_fn(BlockModel) -> bool)
    requires
        is_sorted_by_period(t),
    ensures
        insert_by_period(t, x).filter(pred) == if pred(x) {
            insert_by_period(t.filter(pred), x)
        } else {
            t.filter(pred)
        },
{
    reveal(Seq::filter);
    let p = insert_pos(t, x.period, 0);
    lemma_insert_pos(t, x.period, 0);
    let a = t.subrange(0, p);
    let b = t.subrange(p, t.len() as int);
    assert(t =~= a + b);
    assert(t.insert(p, x) =~= a.push(x) + b);
    Seq::filter_distributes_over_add(a, b, pred);
    Seq::filter_distributes_over_add(a.push(x), b, pred);
    assert(a.push(x).drop_last() =~= a);
    let fa = a.filter(pred);
    let fb = b.filter(pred);
    if pred(x) {
        let ft = fa + fb;
        assert forall|k: int| 0 <= k < fa.len() implies lex_le((#[trigger] ft[k]).period, x.period) by {
            assert(fa.contains(fa[k]));
            a.lemma_filter_contains_rev(pred, fa[k]);
            let j = choose|j: int| 0 <= j < a.len() && a[j] == fa[k];
            assert(a[j] == t[j]);
        }
        if fa.len() < ft.len() {
            assert(ft[fa.len() as int] == fb[0]);
            assert(fb.contains(fb[0]));
            b.lemma_filter_contains_rev(pred, fb[0]);
            let j = choose|j: int| 0 <= j < b.len() && b[j] == fb[0];
            assert(b[j] == t[p + j]);
            lemma_later_blocks(t, x, p + j);
        }
        lemma_insert_pos_at(ft, x.period, 0, fa.len() as int);
        assert(ft.insert(fa.len() as int, x) =~= fa.push(x) + fb);
    } else {
        assert(a.push(x).filter(pred) == fa);
    }
}

/// Choosing by a test from the sorted list gives the chosen blocks sorted.
pub proof fn lemma_filter_sorted(s: Seq<BlockModel>, pred: spec_fn(BlockModel) -> bool)
    ensures
        sorted_by_period(s).filter(pred) == sorted_by_period(s.filter(pred)),
    decreases s.len(),
{
    reveal(Seq::filter);
    if s.len() > 0 {
        let rest = s.drop_last();
        lemma_filter_sorted(rest, pred);
        lemma_sorted_by_period(rest);
        lemma_filter_insert(sorted_by_period(rest), s.last(), pred);
        if pred(s.last()) {
            assert(rest.filter(pred).push(s.last()).drop_last() =~= rest.filter(pred));
        }
    }
}

} // verus!
