use vstd::prelude::*;

verus! {

/// Runs the two closures, possibly in parallel on rayon's thread pool, by
/// calling `rayon::join`. The contract claims what rayon's documentation and
/// source state: both closures are run exactly once and their results are
/// returned as a pair, the first closure's result first.
#[verifier::external_body]
pub(crate) fn join<A, B, RA, RB>(oper_a: A, oper_b: B) -> (res: (RA, RB)) where
    A: FnOnce() -> RA + Send,
    B: FnOnce() -> RB + Send,
    RA: Send,
    RB: Send,
    requires
        oper_a.requires(()),
        oper_b.requires(()),
    ensures
        oper_a.ensures((), res.0),
        oper_b.ensures((), res.1),
{
    rayon::join(oper_a, oper_b)
}

/// Applies `f` to every item: the slice is split in halves that are mapped
/// in parallel with `join`, down to single items, and the results are put
/// back together in the items' order.
pub(crate) fn par_map<T, U, F>(items: &[T], f: F) -> (res: Vec<U>) where
    T: Sync,
    U: Send,
    F: Fn(&T) -> U + Sync + Send + Copy,
    requires
        forall|i: int| 0 <= i < items@.len() ==> f.requires((&items@[i],)),
    ensures
        res@.len() == items@.len(),
        forall|i: int| 0 <= i < items@.len() ==> f.ensures((&items@[i],), #[trigger] res@[i]),
{
    let res = par_map_range(items, 0, items.len(), f);
    assert forall|i: int| 0 <= i < items@.len() implies f.ensures((&items@[i],), #[trigger] res@[i]) by {
        assert(f.ensures((&items@[0 + i],), res@[i]));
    }
    res
}

/// `f` applied to `items[lo..hi]`, in order.
fn par_map_range<T, U, F>(items: &[T], lo: usize, hi: usize, f: F) -> (res: Vec<U>) where
    T: Sync,
    U: Send,
    F: Fn(&T) -> U + Sync + Send + Copy,
    requires
        lo <= hi <= items@.len(),
        forall|i: int| lo <= i < hi ==> f.requires((&items@[i],)),
    ensures
        res@.len() == hi - lo,
        forall|i: int| 0 <= i < hi - lo ==> f.ensures((&items@[lo + i],), #[trigger] res@[i]),
    decreases hi - lo,
{
    if hi - lo <= 1 {
        let mut res: Vec<U> = Vec::new();
        if lo < hi {
            let y = f(&items[lo]);
            res.push(y);
        }
        res
    } else {
        let mid = lo + (hi - lo) / 2;
        let low_half = move || -> (r: Vec<U>)
            requires
                lo <= mid <= items@.len(),
                mid - lo < hi - lo,
                forall|i: int| lo <= i < mid ==> f.requires((&items@[i],)),
            ensures
                r@.len() == mid - lo,
                forall|i: int| 0 <= i < mid - lo ==> f.ensures((&items@[lo + i],), #[trigger] r@[i]),
            { par_map_range(items, lo, mid, f) };
        let high_half = move || -> (r: Vec<U>)
            requires
                mid <= hi <= items@.len(),
                hi - mid < hi - lo,
                forall|i: int| mid <= i < hi ==> f.requires((&items@[i],)),
            ensures
                r@.len() == hi - mid,
                forall|i: int| 0 <= i < hi - mid ==> f.ensures((&items@[mid + i],), #[trigger] r@[i]),
            { par_map_range(items, mid, hi, f) };
        let (mut low, mut high) = join(low_half, high_half);
        let ghost l0 = low@;
        let ghost h0 = high@;
        low.append(&mut high);
        assert forall|i: int| 0 <= i < hi - lo implies f.ensures((&items@[lo + i],), #[trigger] low@[i]) by {
            if i < mid - lo {
                assert(low@[i] == l0[i]);
            } else {
                assert(low@[i] == h0[i - (mid - lo)]);
                assert(f.ensures((&items@[mid + (i - (mid - lo))],), h0[i - (mid - lo)]));
            }
        }
        low
    }
}

/// Applies `f` to every pair of items at the same position of two slices of
/// the same length: the slices are split in halves that are mapped in
/// parallel with `join`, down to single pairs, and the results are put back
/// together in order.
pub(crate) fn par_zip_map<T, S, U, F>(left: &[T], right: &[S], f: F) -> (res: Vec<U>) where
    T: Sync,
    S: Sync,
    U: Send,
    F: Fn(&T, &S) -> U + Sync + Send + Copy,
    requires
        left@.len() == right@.len(),
        forall|i: int| 0 <= i < left@.len() ==> f.requires((&left@[i], &right@[i])),
    ensures
        res@.len() == left@.len(),
        forall|i: int| 0 <= i < left@.len() ==> f.ensures((&left@[i], &right@[i]), #[trigger] res@[i]),
{
    let res = par_zip_map_range(left, right, 0, left.len(), f);
    assert forall|i: int| 0 <= i < left@.len() implies f.ensures((&left@[i], &right@[i]), #[trigger] res@[i]) by {
        assert(f.ensures((&left@[0 + i], &right@[0 + i]), res@[i]));
    }
    res
}

/// `f` applied to the pairs of `left[lo..hi]` and `right[lo..hi]`, in order.
fn par_zip_map_range<T, S, U, F>(left: &[T], right: &[S], lo: usize, hi: usize, f: F) -> (res: Vec<U>) where
    T: Sync,
    S: Sync,
    U: Send,
    F: Fn(&T, &S) -> U + Sync + Send + Copy,
    requires
        left@.len() == right@.len(),
        lo <= hi <= left@.len(),
        forall|i: int| lo <= i < hi ==> f.requires((&left@[i], &right@[i])),
    ensures
        res@.len() == hi - lo,
        forall|i: int| 0 <= i < hi - lo ==> f.ensures((&left@[lo + i], &right@[lo + i]), #[trigger] res@[i]),
    decreases hi - lo,
{
    if hi - lo <= 1 {
        let mut res: Vec<U> = Vec::new();
        if lo < hi {
            let y = f(&left[lo], &right[lo]);
            res.push(y);
        }
        res
    } else {
        let mid = lo + (hi - lo) / 2;
        let low_half = move || -> (r: Vec<U>)
            requires
                left@.len() == right@.len(),
                lo <= mid <= left@.len(),
                mid - lo < hi - lo,
                forall|i: int| lo <= i < mid ==> f.requires((&left@[i], &right@[i])),
            ensures
                r@.len() == mid - lo,
                forall|i: int| 0 <= i < mid - lo ==> f.ensures((&left@[lo + i], &right@[lo + i]), #[trigger] r@[i]),
            { par_zip_map_range(left, right, lo, mid, f) };
        let high_half = move || -> (r: Vec<U>)
            requires
                left@.len() == right@.len(),
                mid <= hi <= left@.len(),
                hi - mid < hi - lo,
                forall|i: int| mid <= i < hi ==> f.requires((&left@[i], &right@[i])),
            ensures
                r@.len() == hi - mid,
                forall|i: int| 0 <= i < hi - mid ==> f.ensures((&left@[mid + i], &right@[mid + i]), #[trigger] r@[i]),
            { par_zip_map_range(left, right, mid, hi, f) };
        let (mut low, mut high) = join(low_half, high_half);
        let ghost l0 = low@;
        let ghost h0 = high@;
        low.append(&mut high);
        assert forall|i: int| 0 <= i < hi - lo implies f.ensures((&left@[lo + i], &right@[lo + i]), #[trigger] low@[i]) by {
            if i < mid - lo {
                assert(low@[i] == l0[i]);
            } else {
                let k = i - (mid - lo);
                assert(low@[i] == h0[k]);
                assert(f.ensures((&left@[mid + k], &right@[mid + k]), h0[k]));
            }
        }
        low
    }
}

} // verus!
