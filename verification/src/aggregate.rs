//! The fan-in over all providers: batches are merged in declaration order,
//! any single failure aborts the whole aggregation, and the merged list is
//! sorted by label before it is handed to the cache and the session.

use vstd::prelude::*;
use crate::item::{views_of, Item, ItemV};
use crate::provider::LoadError;
use crate::strutil::{chars_le, lemma_seq_le_total, lemma_seq_le_trans, seq_le, str_chars};

verus! {

/// Every provider's load succeeded.
pub open spec fn all_ok(rs: Seq<Result<Vec<Item>, LoadError>>) -> bool {
    forall|i: int| 0 <= i < rs.len() ==> (#[trigger] rs[i]) is Ok
}

/// The successful batches concatenated in declaration order.
pub open spec fn concat_batches(rs: Seq<Result<Vec<Item>, LoadError>>) -> Seq<ItemV>
    decreases rs.len(),
{
    if rs.len() == 0 {
        Seq::empty()
    } else {
        concat_batches(rs.drop_last()) + (match rs.last() {
            Ok(v) => views_of(v@),
            Err(_) => Seq::empty(),
        })
    }
}

/// The index of the first failed load, or `-1` when none failed.
pub open spec fn first_err(rs: Seq<Result<Vec<Item>, LoadError>>) -> int
    decreases rs.len(),
{
    if rs.len() == 0 {
        -1
    } else if rs[0] is Err {
        0
    } else if first_err(rs.drop_first()) == -1 {
        -1
    } else {
        1 + first_err(rs.drop_first())
    }
}

proof fn lemma_first_err_at(rs: Seq<Result<Vec<Item>, LoadError>>, j: int)
    requires
        0 <= j < rs.len(),
        rs[j] is Err,
        forall|k: int| 0 <= k < j ==> (#[trigger] rs[k]) is Ok,
    ensures
        first_err(rs) == j,
    decreases rs.len(),
{
    if j > 0 {
        lemma_first_err_at(rs.drop_first(), j - 1);
    }
}

proof fn lemma_first_err_absent(rs: Seq<Result<Vec<Item>, LoadError>>)
    requires
        all_ok(rs),
    ensures
        first_err(rs) == -1,
    decreases rs.len(),
{
    if rs.len() > 0 {
        assert(all_ok(rs.drop_first()));
        lemma_first_err_absent(rs.drop_first());
    }
}

/// The fail-fast merge: the batches concatenated in declaration order when
/// every provider succeeded, else the first provider's error, with no
/// partial list.
#[verifier::loop_isolation(false)]
pub fn merge_results(results: &Vec<Result<Vec<Item>, LoadError>>) -> (r: Result<
    Vec<Item>,
    LoadError,
>)
    ensures
        all_ok(results@) <==> r is Ok,
        r matches Ok(v) ==> views_of(v@) == concat_batches(results@),
        r matches Err(e) ==> {
            &&& 0 <= first_err(results@) < results@.len()
            &&& results@[first_err(results@)] matches Err(e0) && e.message@ == e0.message@
        },
{
    let mut out: Vec<Item> = Vec::new();
    let mut i: usize = 0;
    proof {
        assert(concat_batches(results@.subrange(0, 0)) =~= Seq::<ItemV>::empty());
        assert(views_of(out@) =~= Seq::<ItemV>::empty());
    }
    while i < results.len()
        invariant
            i <= results.len(),
            forall|k: int| 0 <= k < i ==> (#[trigger] results@[k]) is Ok,
            views_of(out@) == concat_batches(results@.subrange(0, i as int)),
        decreases results.len() - i,
    {
        match &results[i] {
            Err(e) => {
                proof {
                    lemma_first_err_at(results@, i as int);
                }
                return Err(LoadError { message: e.message.clone() });
            },
            Ok(batch) => {
                let ghost before = views_of(out@);
                let mut j: usize = 0;
                while j < batch.len()
                    invariant
                        j <= batch.len(),
                        views_of(out@) == before + views_of(batch@.subrange(0, j as int)),
                    decreases batch.len() - j,
                {
                    let ghost old_out = out@;
                    out.push(batch[j].clone());
                    proof {
                        assert(views_of(out@) =~= views_of(old_out).push(batch@[j as int]@));
                        assert(views_of(batch@.subrange(0, j + 1 as int)) =~= views_of(
                            batch@.subrange(0, j as int),
                        ).push(batch@[j as int]@));
                        assert(views_of(out@) =~= before + views_of(
                            batch@.subrange(0, j + 1 as int),
                        ));
                    }
                    j = j + 1;
                }
                proof {
                    assert(batch@.subrange(0, batch@.len() as int) =~= batch@);
                    let pre = results@.subrange(0, i + 1 as int);
                    assert(pre.drop_last() =~= results@.subrange(0, i as int));
                    assert(pre.last() == results@[i as int]);
                    assert(views_of(out@) == concat_batches(pre));
                }
            },
        }
        i = i + 1;
    }
    proof {
        assert(results@.subrange(0, results@.len() as int) =~= results@);
        lemma_first_err_absent(results@);
    }
    Ok(out)
}

/// Labels compare by code point, the order `str` comparison uses.
pub open spec fn sorted_by_label(s: Seq<ItemV>) -> bool {
    forall|i: int, j: int| 0 <= i <= j < s.len() ==> seq_le(s[i].label, s[j].label)
}

/// Inserts `it` after every element whose label is not greater, so equal
/// labels keep their original relative order.
pub open spec fn insert_by_label(s: Seq<ItemV>, it: ItemV) -> Seq<ItemV>
    decreases s.len(),
{
    if s.len() == 0 {
        seq![it]
    } else if seq_le(s[0].label, it.label) {
        seq![s[0]] + insert_by_label(s.drop_first(), it)
    } else {
        seq![it] + s
    }
}

/// The stable sort of `s` by ascending label.
pub open spec fn sorted_items(s: Seq<ItemV>) -> Seq<ItemV>
    decreases s.len(),
{
    if s.len() == 0 {
        Seq::empty()
    } else {
        insert_by_label(sorted_items(s.drop_last()), s.last())
    }
}

proof fn lemma_insert_by_label_at(s: Seq<ItemV>, it: ItemV, p: int)
    requires
        0 <= p <= s.len(),
        forall|j: int| 0 <= j < p ==> seq_le(#[trigger] s[j].label, it.label),
        p < s.len() ==> !seq_le(s[p].label, it.label),
    ensures
        insert_by_label(s, it) == s.subrange(0, p) + seq![it] + s.subrange(p, s.len() as int),
    decreases s.len(),
{
    if s.len() == 0 || p == 0 {
        assert(insert_by_label(s, it) =~= s.subrange(0, p) + seq![it] + s.subrange(
            p,
            s.len() as int,
        ));
    } else {
        let tail = s.drop_first();
        assert(forall|j: int| 0 <= j < p - 1 ==> seq_le(#[trigger] tail[j].label, it.label));
        lemma_insert_by_label_at(tail, it, p - 1);
        assert(tail.subrange(0, p - 1) =~= s.subrange(1, p));
        assert(tail.subrange(p - 1, tail.len() as int) =~= s.subrange(p, s.len() as int));
        assert(insert_by_label(s, it) =~= s.subrange(0, p) + seq![it] + s.subrange(
            p,
            s.len() as int,
        ));
    }
}

proof fn lemma_insert_by_label_props(s: Seq<ItemV>, it: ItemV)
    requires
        sorted_by_label(s),
    ensures
        insert_by_label(s, it).len() == s.len() + 1,
        sorted_by_label(insert_by_label(s, it)),
        forall|j: int|
            0 <= j < insert_by_label(s, it).len() ==> ((exists|w: int|
                0 <= w < s.len() && #[trigger] insert_by_label(s, it)[j] == s[w]) || insert_by_label(
                s,
                it,
            )[j] == it),
    decreases s.len(),
{
    let r = insert_by_label(s, it);
    if s.len() == 0 {
        assert(r =~= seq![it]);
        assert(sorted_by_label(r)) by {
            lemma_seq_le_total(it.label, it.label);
        }
    } else if seq_le(s[0].label, it.label) {
        let tail = s.drop_first();
        assert(sorted_by_label(tail));
        lemma_insert_by_label_props(tail, it);
        let rt = insert_by_label(tail, it);
        assert(r =~= seq![s[0]] + rt);
        assert forall|j: int| 0 <= j < r.len() implies ((exists|w: int|
            0 <= w < s.len() && #[trigger] r[j] == s[w]) || r[j] == it) by {
            if j == 0 {
                assert(r[0] == s[0]);
            } else {
                assert(r[j] == rt[j - 1]);
                if exists|w: int| 0 <= w < tail.len() && rt[j - 1] == tail[w] {
                    let w = choose|w: int| 0 <= w < tail.len() && rt[j - 1] == tail[w];
                    assert(tail[w] == s[w + 1]);
                }
            }
        }
        assert forall|j1: int, j2: int| 0 <= j1 <= j2 < r.len() implies seq_le(
            r[j1].label,
            r[j2].label,
        ) by {
            if j1 == 0 {
                if j2 == 0 {
                    lemma_seq_le_total(s[0].label, s[0].label);
                } else {
                    assert(r[j2] == rt[j2 - 1]);
                    if exists|w: int| 0 <= w < tail.len() && rt[j2 - 1] == tail[w] {
                        let w = choose|w: int| 0 <= w < tail.len() && rt[j2 - 1] == tail[w];
                        assert(tail[w] == s[w + 1]);
                        assert(seq_le(s[0].label, s[w + 1].label));
                    } else {
                        assert(rt[j2 - 1] == it);
                    }
                }
            } else {
                assert(r[j1] == rt[j1 - 1]);
                assert(r[j2] == rt[j2 - 1]);
            }
        }
    } else {
        assert(r =~= seq![it] + s);
        lemma_seq_le_total(s[0].label, it.label);
        assert(seq_le(it.label, s[0].label));
        assert forall|j: int| 0 <= j < r.len() implies ((exists|w: int|
            0 <= w < s.len() && #[trigger] r[j] == s[w]) || r[j] == it) by {
            if j > 0 {
                assert(r[j] == s[j - 1]);
            }
        }
        assert forall|j1: int, j2: int| 0 <= j1 <= j2 < r.len() implies seq_le(
            r[j1].label,
            r[j2].label,
        ) by {
            if j1 == 0 {
                lemma_seq_le_total(it.label, it.label);
                if j2 > 0 {
                    assert(r[j2] == s[j2 - 1]);
                    assert(seq_le(s[0].label, s[j2 - 1].label));
                    lemma_seq_le_trans(it.label, s[0].label, s[j2 - 1].label);
                }
            } else {
                assert(r[j1] == s[j1 - 1]);
                assert(r[j2] == s[j2 - 1]);
            }
        }
    }
}

/// The stable sort yields a sorted sequence of the same length.
pub proof fn lemma_sorted_items_sorted(s: Seq<ItemV>)
    ensures
        sorted_items(s).len() == s.len(),
        sorted_by_label(sorted_items(s)),
    decreases s.len(),
{
    if s.len() > 0 {
        lemma_sorted_items_sorted(s.drop_last());
        lemma_insert_by_label_props(sorted_items(s.drop_last()), s.last());
    }
}

/// The sort invents no item: every element of the sorted sequence is one of
/// the input items.
pub proof fn lemma_sorted_items_members(s: Seq<ItemV>)
    ensures
        forall|j: int|
            0 <= j < sorted_items(s).len() ==> (exists|w: int|
                0 <= w < s.len() && #[trigger] sorted_items(s)[j] == s[w]),
    decreases s.len(),
{
    if s.len() > 0 {
        lemma_sorted_items_members(s.drop_last());
        lemma_sorted_items_sorted(s.drop_last());
        let rest = sorted_items(s.drop_last());
        lemma_insert_by_label_props(rest, s.last());
        let r = sorted_items(s);
        assert forall|j: int| 0 <= j < r.len() implies (exists|w: int|
            0 <= w < s.len() && #[trigger] r[j] == s[w]) by {
            if exists|u: int| 0 <= u < rest.len() && r[j] == rest[u] {
                let u = choose|u: int| 0 <= u < rest.len() && r[j] == rest[u];
                let w = choose|w: int|
                    0 <= w < s.drop_last().len() && rest[u] == s.drop_last()[w];
                assert(s.drop_last()[w] == s[w]);
            } else {
                assert(r[j] == s.last());
                assert(s.last() == s[s.len() - 1]);
            }
        }
    }
}

/// The item's label is at most `lab` in code-point order.
fn label_chars_le(it: &Item, lab: &Vec<char>) -> (r: bool)
    ensures
        r == seq_le(it@.label, lab@),
{
    let cand = str_chars(it.label.as_str());
    chars_le(&cand, lab)
}

/// Sorts items by ascending label, stably: equal labels keep their original
/// relative order, which the substring matcher's stable filter preserves.
#[verifier::loop_isolation(false)]
pub fn sort_by_label(items: &Vec<Item>) -> (r: Vec<Item>)
    ensures
        views_of(r@) == sorted_items(views_of(items@)),
{
    let mut out: Vec<Item> = Vec::new();
    let mut i: usize = 0;
    proof {
        assert(views_of(items@.subrange(0, 0)) =~= Seq::<ItemV>::empty());
        assert(views_of(out@) =~= Seq::<ItemV>::empty());
    }
    while i < items.len()
        invariant
            i <= items.len(),
            views_of(out@) == sorted_items(views_of(items@.subrange(0, i as int))),
        decreases items.len() - i,
    {
        let ghost old_views = views_of(out@);
        let ghost itv = items@[i as int]@;
        let ilab = str_chars(items[i].label.as_str());
        let mut p: usize = 0;
        while p < out.len() && label_chars_le(&out[p], &ilab)
            invariant
                p <= out.len(),
                forall|j: int| 0 <= j < p ==> seq_le(#[trigger] old_views[j].label, itv.label),
            decreases out.len() - p,
        {
            p = p + 1;
        }
        proof {
            lemma_insert_by_label_at(old_views, itv, p as int);
        }
        out.insert(p, items[i].clone());
        proof {
            assert(views_of(out@) =~= old_views.subrange(0, p as int) + seq![itv]
                + old_views.subrange(p as int, old_views.len() as int));
            assert(views_of(out@) == insert_by_label(old_views, itv));
            let pre = views_of(items@.subrange(0, i + 1 as int));
            assert(pre.drop_last() =~= views_of(items@.subrange(0, i as int)));
            assert(pre.last() == itv);
            assert(views_of(out@) == sorted_items(pre));
        }
        i = i + 1;
    }
    proof {
        assert(items@.subrange(0, items@.len() as int) =~= items@);
    }
    out
}

/// The whole cold aggregation run on the providers' outcomes: the fail-fast
/// merge in declaration order, then the stable sort by label.
pub fn load_items_from_results(results: &Vec<Result<Vec<Item>, LoadError>>) -> (r: Result<
    Vec<Item>,
    LoadError,
>)
    ensures
        all_ok(results@) <==> r is Ok,
        r matches Ok(v) ==> views_of(v@) == sorted_items(concat_batches(results@)),
        r matches Err(e) ==> {
            &&& 0 <= first_err(results@) < results@.len()
            &&& results@[first_err(results@)] matches Err(e0) && e.message@ == e0.message@
        },
{
    match merge_results(results) {
        Ok(items) => Ok(sort_by_label(&items)),
        Err(e) => Err(e),
    }
}

} // verus!
