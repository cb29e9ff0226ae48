//! Small list helpers: sum, first-occurrence deduplication and filtering.

use vstd::prelude::*;

verus! {

/// The mathematical sum of a sequence of integers.
pub open spec fn sum_of(s: Seq<i32>) -> int
    decreases s.len(),
{
    if s.len() == 0 {
        0
    } else {
        s[0] + sum_of(s.drop_first())
    }
}

/// Every suffix of `s` sums to a value that fits in an `i32`.
pub open spec fn suffix_sums_fit(s: Seq<i32>) -> bool {
    forall|i: int|
        0 <= i <= s.len() ==> i32::MIN <= #[trigger] sum_of(s.subrange(i, s.len() as int))
            <= i32::MAX
}

/// The first instance of each distinct element of `s`, in the original order.
pub open spec fn dedup_of(s: Seq<i32>) -> Seq<i32>
    decreases s.len(),
{
    if s.len() == 0 {
        Seq::empty()
    } else {
        let r = dedup_of(s.drop_last());
        if r.contains(s.last()) {
            r
        } else {
            r.push(s.last())
        }
    }
}

/// `r` is what `s` leaves once each element for which `pred` answered `false`
/// is taken out, for some run of answers that `pred` may give.
pub open spec fn filtered_by<F: Fn(i32) -> bool>(pred: F, s: Seq<i32>, r: Seq<i32>) -> bool
    decreases s.len(),
{
    if s.len() == 0 {
        r.len() == 0
    } else {
        let x = s.last();
        ||| (pred.ensures((x,), true) && r.len() > 0 && r.last() == x && filtered_by(
            pred,
            s.drop_last(),
            r.drop_last(),
        ))
        ||| (pred.ensures((x,), false) && filtered_by(pred, s.drop_last(), r))
    }
}

/// Computes the sum of all elements in `slice`, adding from the last one
/// towards the first.
pub fn sum(slice: &[i32]) -> (r: i32)
    requires
        suffix_sums_fit(slice@),
    ensures
        r == sum_of(slice@),
{
    let n: usize = slice.len();
    let mut acc: i32 = 0;
    let mut i: usize = n;
    proof {
        assert(slice@.subrange(n as int, n as int) =~= Seq::<i32>::empty());
    }
    while i > 0
        invariant
            0 <= i <= n,
            n == slice@.len(),
            suffix_sums_fit(slice@),
            acc == sum_of(slice@.subrange(i as int, n as int)),
        decreases i,
    {
        i = i - 1;
        let ghost tail = slice@.subrange(i as int, n as int);
        proof {
            assert(tail.drop_first() =~= slice@.subrange(i + 1, n as int));
            assert(i32::MIN <= sum_of(tail) <= i32::MAX);
        }
        acc = slice[i] + acc;
    }
    proof {
        assert(slice@.subrange(0, n as int) =~= slice@);
    }
    acc
}

/// Keeps the first instance of each distinct element of `vs`, in the
/// original order.
pub fn dedup(vs: &Vec<i32>) -> (r: Vec<i32>)
    ensures
        r@ == dedup_of(vs@),
{
    let mut result: Vec<i32> = Vec::new();
    let mut i: usize = 0;
    while i < vs.len()
        invariant
            0 <= i <= vs@.len(),
            result@ == dedup_of(vs@.subrange(0, i as int)),
        decreases vs@.len() - i,
    {
        let e = vs[i];
        let seen = contains(&result, e);
        proof {
            assert(vs@.subrange(0, i + 1).drop_last() =~= vs@.subrange(0, i as int));
        }
        if !seen {
            result.push(e);
        }
        i = i + 1;
    }
    proof {
        assert(vs@.subrange(0, vs@.len() as int) =~= vs@);
    }
    result
}

fn contains(v: &Vec<i32>, x: i32) -> (r: bool)
    ensures
        r == v@.contains(x),
{
    let mut i: usize = 0;
    while i < v.len()
        invariant
            0 <= i <= v@.len(),
            forall|j: int| 0 <= j < i ==> v@[j] != x,
        decreases v@.len() - i,
    {
        if v[i] == x {
            return true;
        }
        i = i + 1;
    }
    false
}

/// Keeps the elements of `vs` on which `pred` answers `true`, in order.
pub fn filter<F: Fn(i32) -> bool>(vs: &Vec<i32>, pred: &F) -> (r: Vec<i32>)
    requires
        forall|x: i32| pred.requires((x,)),
    ensures
        filtered_by(*pred, vs@, r@),
{
    let mut result: Vec<i32> = Vec::new();
    let mut i: usize = 0;
    while i < vs.len()
        invariant
            0 <= i <= vs@.len(),
            forall|x: i32| pred.requires((x,)),
            filtered_by(*pred, vs@.subrange(0, i as int), result@),
        decreases vs@.len() - i,
    {
        let e = vs[i];
        let keep = pred(e);
        proof {
            assert(vs@.subrange(0, i + 1).drop_last() =~= vs@.subrange(0, i as int));
            assert(vs@.subrange(0, i + 1).last() == e);
        }
        if keep {
            let ghost before = result@;
            result.push(e);
            proof {
                assert(result@.drop_last() =~= before);
            }
        }
        i = i + 1;
    }
    proof {
        assert(vs@.subrange(0, vs@.len() as int) =~= vs@);
    }
    result
}

} // verus!
