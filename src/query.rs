//! The association query engine: narrowing and paging of listings, and which
//! query shapes a cached listing may serve.
use vstd::prelude::*;

use crate::model::{records, AssocRecord, AssociationQuery, TaoAssociation};

verus! {

/// `s` after skipping `offset` items and keeping at most `limit`. An offset
/// or a limit that is absent or not positive is ignored; an offset at or past
/// the end leaves nothing.
pub open spec fn paged<T>(s: Seq<T>, limit: Option<i32>, offset: Option<i64>) -> Seq<T> {
    let skipped = match offset {
        Some(o) => if o <= 0 {
            s
        } else if o < s.len() {
            s.subrange(o as int, s.len() as int)
        } else {
            Seq::<T>::empty()
        },
        None => s,
    };
    match limit {
        Some(l) => if 0 < l && l < skipped.len() {
            skipped.subrange(0, l as int)
        } else {
            skipped
        },
        None => skipped,
    }
}

/// Whether an association passes the query's target and `time1`-range
/// filters. A range filter drops rows without `time1`; bounds are inclusive.
pub open spec fn passes(q: AssociationQuery, a: AssocRecord) -> bool {
    &&& (q.id2 matches Some(id2) ==> a.id2 == id2)
    &&& (q.start_time matches Some(lo) ==> (a.time1 matches Some(t1) && lo <= t1))
    &&& (q.end_time matches Some(hi) ==> (a.time1 matches Some(t1) && t1 <= hi))
}

pub open spec fn narrowed(q: AssociationQuery) -> spec_fn(AssocRecord) -> bool {
    |a: AssocRecord| passes(q, a)
}

/// What a query returns from the full listing of its source and type.
pub open spec fn answer(listing: Seq<AssocRecord>, q: AssociationQuery) -> Seq<AssocRecord> {
    paged(listing.filter(narrowed(q)), q.limit, q.offset)
}

/// A cached full listing may answer the query: no target and no time range.
pub open spec fn cache_servable(q: AssociationQuery) -> bool {
    q.id2 is None && q.start_time is None && q.end_time is None
}

/// The query asks for the full listing, so its answer may be cached: it is
/// servable from the cache and asks for no page.
pub open spec fn cache_fillable(q: AssociationQuery) -> bool {
    cache_servable(q) && q.limit is None && q.offset is None
}

pub fn is_cache_servable(q: &AssociationQuery) -> (r: bool)
    ensures
        r == cache_servable(*q),
{
    q.id2.is_none() && q.start_time.is_none() && q.end_time.is_none()
}

pub fn is_cache_fillable(q: &AssociationQuery) -> (r: bool)
    ensures
        r == cache_fillable(*q),
{
    is_cache_servable(q) && q.limit.is_none() && q.offset.is_none()
}

/// Skips `offset` items, then keeps at most `limit`.
pub fn apply_limit_offset<T>(items: Vec<T>, limit: Option<i32>, offset: Option<i64>) -> (r: Vec<T>)
    ensures
        r@ == paged(items@, limit, offset),
{
    let mut items = items;
    match offset {
        Some(o) => {
            if o > 0 {
                if (o as u64) < (items.len() as u64) {
                    let rest = items.split_off(o as usize);
                    items = rest;
                } else {
                    items = Vec::new();
                }
            }
        },
        None => {},
    }
    let ghost skipped = items@;
    match limit {
        Some(l) => {
            if l > 0 {
                if (l as u64) < (items.len() as u64) {
                    items.truncate(l as usize);
                }
            }
        },
        None => {},
    }
    assert(items@ =~= paged(skipped, limit, None));
    items
}

/// The associations of `items` that pass the query's filters, in order.
pub fn narrow(items: &Vec<TaoAssociation>, q: &AssociationQuery) -> (r: Vec<TaoAssociation>)
    ensures
        records(r@) == records(items@).filter(narrowed(*q)),
{
    let ghost s = records(items@);
    let mut out: Vec<TaoAssociation> = Vec::new();
    let mut i: usize = 0;
    while i < items.len()
        invariant
            i <= items.len(),
            s == records(items@),
            records(out@) == s.subrange(0, i as int).filter(narrowed(*q)),
        decreases items.len() - i,
    {
        let a = &items[i];
        proof {
            reveal_with_fuel(Seq::filter, 1);
            assert(s.subrange(0, i + 1).drop_last() =~= s.subrange(0, i as int));
            assert(s[i as int] == a@);
        }
        let keep = match q.id2 {
            Some(id2) => a.id2 == id2,
            None => true,
        } && match q.start_time {
            Some(lo) => match a.time1 {
                Some(t1) => lo <= t1,
                None => false,
            },
            None => true,
        } && match q.end_time {
            Some(hi) => match a.time1 {
                Some(t1) => t1 <= hi,
                None => false,
            },
            None => true,
        };
        if keep {
            let ghost before = out@;
            let c = a.clone();
            out.push(c);
            proof {
                let f = s.subrange(0, i as int).filter(narrowed(*q));
                let g = f.push(a@);
                assert(records(before).len() == before.len());
                assert(out@ == before.push(c));
                assert forall|j: int| 0 <= j < out@.len() implies #[trigger] records(out@)[j] == g[j] by {
                    if j < before.len() {
                        assert(records(before)[j] == f[j]);
                        assert(out@[j] == before[j]);
                    }
                }
                assert(records(out@) =~= g);
            }
        }
        i = i + 1;
    }
    assert(s.subrange(0, s.len() as int) =~= s);
    out
}

/// Answers `q` from the full listing `items` of its source and type.
pub fn answer_query(items: &Vec<TaoAssociation>, q: &AssociationQuery) -> (r: Vec<TaoAssociation>)
    ensures
        records(r@) == answer(records(items@), *q),
{
    let picked = narrow(items, q);
    proof {
        lemma_paged_records(picked@, q.limit, q.offset);
    }
    apply_limit_offset(picked, q.limit, q.offset)
}

/// Paging commutes with taking the values of associations.
pub proof fn lemma_paged_records(s: Seq<TaoAssociation>, limit: Option<i32>, offset: Option<i64>)
    ensures
        records(paged(s, limit, offset)) == paged(records(s), limit, offset),
{
    let skipped = paged(s, None, offset);
    assert(records(skipped) =~= paged(records(s), None, offset));
    assert(records(paged(s, limit, offset)) =~= paged(records(s), limit, offset));
}

/// Whether every element of `s` stands in `rel` to every later element.
pub open spec fn ordered_by<A>(s: Seq<A>, rel: spec_fn(A, A) -> bool) -> bool {
    forall|i: int, j: int| 0 <= i < j < s.len() ==> rel(#[trigger] s[i], #[trigger] s[j])
}

/// Filtering keeps the order of what it keeps.
pub proof fn lemma_filter_ordered<A>(s: Seq<A>, p: spec_fn(A) -> bool, rel: spec_fn(A, A) -> bool)
    requires
        ordered_by(s, rel),
    ensures
        ordered_by(s.filter(p), rel),
    decreases s.len(),
{
    reveal_with_fuel(Seq::filter, 1);
    if s.len() > 0 {
        let d = s.drop_last();
        assert forall|i: int, j: int| 0 <= i < j < d.len() implies rel(#[trigger] d[i], #[trigger] d[j]) by {
            assert(d[i] == s[i] && d[j] == s[j]);
        }
        lemma_filter_ordered(d, p, rel);
        let fd = d.filter(p);
        if p(s.last()) {
            let f = fd.push(s.last());
            assert forall|i: int, j: int| 0 <= i < j < f.len() implies rel(#[trigger] f[i], #[trigger] f[j]) by {
                if j == f.len() - 1 {
                    assert(fd.contains(fd[i]));
                    d.lemma_filter_contains_rev(p, fd[i]);
                    let k = choose|k: int| 0 <= k < d.len() && d[k] == fd[i];
                    assert(s[k] == d[k]);
                    assert(rel(s[k], s[s.len() - 1]));
                } else {
                    assert(f[i] == fd[i] && f[j] == fd[j]);
                }
            }
        }
    }
}

/// Paging keeps order.
pub proof fn lemma_paged_ordered<A>(s: Seq<A>, limit: Option<i32>, offset: Option<i64>, rel: spec_fn(A, A) -> bool)
    requires
        ordered_by(s, rel),
    ensures
        ordered_by(paged(s, limit, offset), rel),
{
    let skipped = paged(s, None, offset);
    assert forall|i: int, j: int| 0 <= i < j < skipped.len() implies rel(#[trigger] skipped[i], #[trigger] skipped[j]) by {
        if let Some(o) = offset {
            if 0 < o && o < s.len() {
                assert(skipped[i] == s[i + o] && skipped[j] == s[j + o]);
            }
        }
    }
    let r = paged(s, limit, offset);
    assert(r == paged(skipped, limit, None));
    assert forall|i: int, j: int| 0 <= i < j < r.len() implies rel(#[trigger] r[i], #[trigger] r[j]) by {
        assert(r[i] == skipped[i] && r[j] == skipped[j]);
    }
}

} // verus!
