use vstd::prelude::*;

verus! {

/// The absolute difference of two integers.
pub open spec fn abs_diff(x: i64, y: i64) -> int {
    if x >= y {
        x - y
    } else {
        y - x
    }
}

/// The absolute differences of two integer vectors, position by position, over
/// their common length.
pub fn diff_list(vec_a: &Vec<i64>, vec_b: &Vec<i64>) -> (r: Vec<i64>)
    requires
        forall|i: int|
            0 <= i < vec_a@.len() && i < vec_b@.len() ==> abs_diff(#[trigger] vec_a@[i], vec_b@[i])
                <= i64::MAX,
    ensures
        r@.len() == if vec_a@.len() < vec_b@.len() {
            vec_a@.len()
        } else {
            vec_b@.len()
        },
        forall|i: int| 0 <= i < r@.len() ==> #[trigger] r@[i] == abs_diff(vec_a@[i], vec_b@[i]),
{
    let m = if vec_a.len() < vec_b.len() {
        vec_a.len()
    } else {
        vec_b.len()
    };
    let mut r: Vec<i64> = Vec::new();
    let mut i: usize = 0;
    while i < m
        invariant
            i <= m,
            m <= vec_a@.len(),
            m <= vec_b@.len(),
            forall|t: int|
                0 <= t < vec_a@.len() && t < vec_b@.len() ==> abs_diff(#[trigger] vec_a@[t], vec_b@[t])
                    <= i64::MAX,
            r@.len() == i,
            forall|t: int| 0 <= t < i ==> #[trigger] r@[t] == abs_diff(vec_a@[t], vec_b@[t]),
        decreases m - i,
    {
        let x = vec_a[i];
        let y = vec_b[i];
        assert(abs_diff(vec_a@[i as int], vec_b@[i as int]) <= i64::MAX);
        let d = if x >= y {
            x - y
        } else {
            y - x
        };
        r.push(d);
        i += 1;
    }
    r
}

/// The count of consecutive equal positions after the first `i` differences:
/// a zero difference raises it by one, any other lowers it by one while it is
/// above one.
pub open spec fn run_after(diffs: Seq<i64>, i: int) -> int
    decreases i,
{
    if i <= 0 {
        0
    } else {
        let r = run_after(diffs, i - 1);
        if diffs[i - 1] == 0 {
            r + 1
        } else if r > 1 {
            r - 1
        } else {
            r
        }
    }
}

proof fn lemma_run_after_bounds(diffs: Seq<i64>, i: int)
    requires
        0 <= i,
    ensures
        0 <= run_after(diffs, i) <= i,
    decreases i,
{
    if i > 0 {
        lemma_run_after_bounds(diffs, i - 1);
    }
}

/// The run count after each difference.
pub fn continuity_runs(diffs: &Vec<i64>) -> (r: Vec<usize>)
    ensures
        r@.len() == diffs@.len(),
        forall|i: int| 0 <= i < r@.len() ==> #[trigger] r@[i] == run_after(diffs@, i + 1),
{
    let mut r: Vec<usize> = Vec::new();
    let mut run: usize = 0;
    let mut i: usize = 0;
    while i < diffs.len()
        invariant
            i <= diffs@.len(),
            run == run_after(diffs@, i as int),
            r@.len() == i,
            forall|t: int| 0 <= t < i ==> #[trigger] r@[t] == run_after(diffs@, t + 1),
        decreases diffs@.len() - i,
    {
        proof {
            lemma_run_after_bounds(diffs@, i as int);
        }
        if diffs[i] == 0 {
            run = run + 1;
        } else if run > 1 {
            run = run - 1;
        }
        r.push(run);
        i += 1;
    }
    r
}

/// Some entry of the table has key `x`.
pub open spec fn has_key(r: Seq<(i64, usize)>, x: i64) -> bool {
    exists|j: int| 0 <= j < r.len() && (#[trigger] r[j]).0 == x
}

/// Each distinct value of `values` with the number of times it occurs, in order
/// of first occurrence.
pub fn tally(values: &Vec<i64>) -> (r: Vec<(i64, usize)>)
    ensures
        forall|j: int, k: int| 0 <= j < k < r@.len() ==> (#[trigger] r@[j]).0 != (#[trigger] r@[k]).0,
        forall|j: int| 0 <= j < r@.len() ==> (#[trigger] r@[j]).1 == values@.to_multiset().count(r@[j].0),
        forall|j: int| 0 <= j < r@.len() ==> (#[trigger] r@[j]).1 >= 1 && values@.contains(r@[j].0),
        forall|i: int| 0 <= i < values@.len() ==> has_key(r@, #[trigger] values@[i]),
{
    broadcast use vstd::seq_lib::group_to_multiset_ensures;
    broadcast use vstd::multiset::group_multiset_axioms;

    let mut r: Vec<(i64, usize)> = Vec::new();
    let mut i: usize = 0;
    while i < values.len()
        invariant
            i <= values@.len(),
            forall|j: int, k: int| 0 <= j < k < r@.len() ==> (#[trigger] r@[j]).0 != (#[trigger] r@[k]).0,
            forall|j: int| 0 <= j < r@.len() ==> (#[trigger] r@[j]).1 <= i,
            forall|j: int| 0 <= j < r@.len() ==> (#[trigger] r@[j]).1 >= 1,
            forall|j: int|
                0 <= j < r@.len() ==> (#[trigger] r@[j]).1 == values@.take(i as int).to_multiset().count(
                    r@[j].0,
                ),
            forall|t: int| 0 <= t < i ==> has_key(r@, #[trigger] values@[t]),
            forall|x: i64|
                values@.take(i as int).to_multiset().count(x) > 0 ==> exists|j: int|
                    0 <= j < r@.len() && (#[trigger] r@[j]).0 == x,
        decreases values@.len() - i,
    {
        let v = values[i];
        let ghost before = values@.take(i as int);
        let ghost r0 = r@;
        assert(values@.take(i + 1) =~= before.push(v));
        let mut j: usize = 0;
        while j < r.len() && r[j].0 != v
            invariant
                j <= r@.len(),
                forall|t: int| 0 <= t < j ==> (#[trigger] r@[t]).0 != v,
            decreases r@.len() - j,
        {
            j += 1;
        }
        if j < r.len() {
            let c = r[j].1;
            assert(c == before.to_multiset().count(v));
            r.set(j, (v, c + 1));
        } else {
            proof {
                if before.to_multiset().count(v) > 0 {
                    let jj = choose|jj: int| 0 <= jj < r@.len() && (#[trigger] r@[jj]).0 == v;
                }
            }
            r.push((v, 1));
        }
        i += 1;
        proof {
            let after = values@.take(i as int);
            assert(after == before.push(v));
            before.to_multiset_ensures();
            assert(after.to_multiset() == before.to_multiset().insert(v));
            assert forall|jj: int| 0 <= jj < r@.len() implies (#[trigger] r@[jj]).1
                == after.to_multiset().count(r@[jj].0) by {
                if jj != j {
                    assert(r@[jj] == r0[jj]);
                    assert(r0[jj].0 != v);
                }
            }
            assert forall|t: int| 0 <= t < i implies has_key(r@, #[trigger] values@[t]) by {
                if t < i - 1 {
                    let jj = choose|jj: int| 0 <= jj < r0.len() && (#[trigger] r0[jj]).0 == values@[t];
                    assert(r@[jj].0 == r0[jj].0);
                } else {
                    assert(r@[j as int].0 == v);
                }
            }
            assert forall|x: i64| values@.take(i as int).to_multiset().count(x) > 0 implies exists|jj: int|
                0 <= jj < r@.len() && (#[trigger] r@[jj]).0 == x by {
                if x == v {
                    assert(r@[j as int].0 == v);
                } else {
                    assert(before.to_multiset().count(x) > 0);
                    let jj = choose|jj: int| 0 <= jj < r0.len() && (#[trigger] r0[jj]).0 == x;
                    assert(r@[jj].0 == r0[jj].0);
                }
            }
        }
    }
    assert(values@.take(i as int) =~= values@);
    proof {
        assert forall|j: int| 0 <= j < r@.len() implies (#[trigger] r@[j]).1 >= 1 && values@.contains(
            r@[j].0,
        ) by {
            assert(values@.to_multiset().count(r@[j].0) > 0);
        }
    }
    r
}

/// `1² + 2² + … + n²`, computed as `n(n+1)(2n+1)/6`.
pub fn square_sum(n: usize) -> (r: usize)
    requires
        n * (n + 1) * (2 * n + 1) <= usize::MAX,
    ensures
        r == n * (n + 1) * (2 * n + 1) / 6,
{
    assert(n * (n + 1) <= n * (n + 1) * (2 * n + 1)) by (nonlinear_arith)
        requires
            n >= 0,
    ;
    assert((n + 1 <= n * (n + 1) * (2 * n + 1) && 2 * n + 1 <= n * (n + 1) * (2 * n + 1)) || n == 0) by (nonlinear_arith)
        requires
            n >= 0,
    ;
    n * (n + 1) * (2 * n + 1) / 6
}

} // verus!
