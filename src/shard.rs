use vstd::prelude::*;
use crate::analyze::CAccountNameSimAnalyse;
use crate::collection::CAccountNameAnaVec;
use crate::order::{lemma_lex_irreflexive, lex_cmp};
use core::cmp::Ordering;

verus! {

broadcast use vstd::seq_lib::group_to_multiset_ensures;

/// `a` comes no later than `b` when pairs are compared by first, then second component.
pub open spec fn pair_le(a: (usize, usize), b: (usize, usize)) -> bool {
    a.0 < b.0 || (a.0 == b.0 && a.1 <= b.1)
}

/// Relies on slice::sort_unstable on pairs of integers: a permutation of the
/// input in ascending order, pairs compared by first, then second component.
#[verifier::external_body]
pub(crate) fn sort_pairs(v: &mut Vec<(usize, usize)>)
    ensures
        final(v)@.to_multiset() == old(v)@.to_multiset(),
        forall|i: int, j: int|
            0 <= i < j < final(v)@.len() ==> pair_le(final(v)@[i], final(v)@[j]),
{
    v.sort_unstable();
}

/// `ord` lists each position of `sizes` once, larger sizes first, equal sizes by
/// position.
pub open spec fn is_size_order(ord: Seq<usize>, sizes: Seq<usize>) -> bool {
    &&& ord.len() == sizes.len()
    &&& ord.no_duplicates()
    &&& forall|i: int| 0 <= i < ord.len() ==> (#[trigger] ord[i]) < sizes.len()
    &&& forall|p: usize| p < sizes.len() ==> #[trigger] ord.contains(p)
    &&& forall|i: int, j: int|
        0 <= i < j < ord.len() ==> sizes[(#[trigger] ord[i]) as int] > sizes[(#[trigger] ord[j]) as int]
            || (sizes[ord[i] as int] == sizes[ord[j] as int] && ord[i] < ord[j])
}

/// The positions of `sizes`, larger sizes first, equal sizes by position.
pub fn order_by_size_desc(sizes: &Vec<usize>) -> (ord: Vec<usize>)
    ensures
        is_size_order(ord@, sizes@),
{
    let mut pairs: Vec<(usize, usize)> = Vec::new();
    let mut k: usize = 0;
    while k < sizes.len()
        invariant
            k <= sizes.len(),
            pairs@.len() == k,
            forall|i: int| 0 <= i < k ==> #[trigger] pairs@[i] == (
            (usize::MAX - sizes@[i]) as usize, i as usize),
        decreases sizes.len() - k,
    {
        pairs.push((usize::MAX - sizes[k], k));
        k += 1;
    }
    let ghost before = pairs@;
    proof {
        assert forall|i: int, j: int|
            0 <= i < before.len() && 0 <= j < before.len() && i != j implies before[i]
            != before[j] by {}
        before.lemma_multiset_has_no_duplicates();
    }
    sort_pairs(&mut pairs);
    let ghost after = pairs@;
    proof {
        assert(after.len() == before.len()) by {
            assert(after.to_multiset().len() == before.to_multiset().len());
        }
        after.lemma_multiset_has_no_duplicates_conv();
        assert forall|i: int| 0 <= i < after.len() implies exists|p: int|
            0 <= p < before.len() && #[trigger] before[p] == #[trigger] after[i] by {
            assert(after.to_multiset().count(after[i]) > 0);
            assert(before.contains(after[i]));
        }
    }
    let mut ord: Vec<usize> = Vec::new();
    let mut k: usize = 0;
    while k < pairs.len()
        invariant
            pairs@ == after,
            after.len() == sizes@.len(),
            k <= pairs.len(),
            ord@.len() == k,
            forall|i: int| 0 <= i < k ==> #[trigger] ord@[i] == after[i].1,
        decreases pairs.len() - k,
    {
        ord.push(pairs[k].1);
        k += 1;
    }
    proof {
        assert forall|i: int| 0 <= i < ord@.len() implies (#[trigger] ord@[i]) < sizes@.len()
            && after[i] == before[ord@[i] as int] by {
            let p = choose|p: int| 0 <= p < before.len() && #[trigger] before[p] == after[i];
            assert(before[p].1 == p);
        }
        assert forall|p: usize| p < sizes@.len() implies #[trigger] ord@.contains(p) by {
            assert(before[p as int] == ((usize::MAX - sizes@[p as int]) as usize, p));
            assert(before.to_multiset().count(before[p as int]) > 0);
            assert(after.contains(before[p as int]));
            let i = choose|i: int| 0 <= i < after.len() && after[i] == before[p as int];
            assert(ord@[i] == p);
        }
        assert forall|i: int, j: int|
            0 <= i < ord@.len() && 0 <= j < ord@.len() && i != j implies ord@[i] != ord@[j] by {
            assert(after[i] == before[ord@[i] as int]);
            assert(after[j] == before[ord@[j] as int]);
        }
        assert forall|i: int, j: int| 0 <= i < j < ord@.len() implies sizes@[(
        #[trigger] ord@[i]) as int] > sizes@[(#[trigger] ord@[j]) as int] || (sizes@[ord@[i] as int]
            == sizes@[ord@[j] as int] && ord@[i] < ord@[j]) by {
            assert(after[i] == before[ord@[i] as int]);
            assert(after[j] == before[ord@[j] as int]);
            assert(pair_le(after[i], after[j]));
        }
    }
    ord
}

/// Two orders of the same sizes by `is_size_order` are the same order.
pub proof fn lemma_size_order_unique(o1: Seq<usize>, o2: Seq<usize>, sizes: Seq<usize>)
    requires
        is_size_order(o1, sizes),
        is_size_order(o2, sizes),
    ensures
        o1 == o2,
{
    assert forall|i: int| 0 <= i < o1.len() implies o1[i] == o2[i] by {
        lemma_size_order_agree_upto(o1, o2, sizes, i);
    }
    assert(o1 =~= o2);
}

proof fn lemma_size_order_agree_upto(o1: Seq<usize>, o2: Seq<usize>, sizes: Seq<usize>, i: int)
    requires
        is_size_order(o1, sizes),
        is_size_order(o2, sizes),
        0 <= i < o1.len(),
    ensures
        o1[i] == o2[i],
    decreases i,
{
    if i > 0 {
        lemma_size_order_agree_upto(o1, o2, sizes, i - 1);
    }
    assert forall|j: int| 0 <= j < i implies o1[j] == o2[j] by {
        lemma_size_order_agree_upto(o1, o2, sizes, j);
    }
    let x = o1[i];
    let y = o2[i];
    if x != y {
        assert(o2.contains(x));
        let jx = choose|jx: int| 0 <= jx < o2.len() && o2[jx] == x;
        assert(o1.contains(y));
        let jy = choose|jy: int| 0 <= jy < o1.len() && o1[jy] == y;
        if jx < i {
            assert(o1[jx] == x);
        }
        if jy < i {
            assert(o2[jy] == y);
        }
        assert(jx > i);
        assert(jy > i);
    }
}

/// The entries `lo..hi` of `v`.
pub fn copy_range(v: &Vec<usize>, lo: usize, hi: usize) -> (r: Vec<usize>)
    requires
        lo <= hi <= v@.len(),
    ensures
        r@ == v@.subrange(lo as int, hi as int),
{
    let mut r: Vec<usize> = Vec::new();
    let mut k: usize = lo;
    while k < hi
        invariant
            lo <= k <= hi,
            hi <= v@.len(),
            r@ == v@.subrange(lo as int, k as int),
        decreases hi - k,
    {
        r.push(v[k]);
        k += 1;
        assert(r@ =~= v@.subrange(lo as int, k as int));
    }
    r
}

/// The shard width for `n` entries at granularity `g`.
pub open spec fn chunk_width(n: int, g: int) -> int {
    if g < n {
        g
    } else {
        n
    }
}

/// The number of shards: one per full width, plus one for a remainder of at
/// least half a width; a smaller remainder joins the last full shard.
pub open spec fn chunk_count(n: int, g: int) -> int {
    let w = chunk_width(n, g);
    let q = n / w;
    let rem = n - q * w;
    if rem > 0 && 2 * rem >= w {
        q + 1
    } else {
        q
    }
}

/// Where shard `k` ends: the last one ends at `n`, the others after one width.
pub open spec fn chunk_end(n: int, g: int, k: int) -> int {
    if k == chunk_count(n, g) - 1 {
        n
    } else {
        (k + 1) * chunk_width(n, g)
    }
}

/// The shards of `v` at granularity `g`.
pub open spec fn chunks(v: Seq<usize>, g: int) -> Seq<Seq<usize>> {
    Seq::new(
        chunk_count(v.len() as int, g) as nat,
        |k: int| v.subrange(k * chunk_width(v.len() as int, g), chunk_end(v.len() as int, g, k)),
    )
}

proof fn lemma_chunk_arith(n: int, g: int)
    requires
        n > 0,
        g > 0,
    ensures
        1 <= n / chunk_width(n, g),
        (n / chunk_width(n, g)) * chunk_width(n, g) <= n,
        n - (n / chunk_width(n, g)) * chunk_width(n, g) < chunk_width(n, g),
        1 <= chunk_count(n, g),
        forall|k: int|
            0 <= k < chunk_count(n, g) ==> 0 <= #[trigger] (k * chunk_width(n, g)) < chunk_end(n, g, k)
                <= n,
{
    let w = chunk_width(n, g);
    let q = n / w;
    vstd::arithmetic::div_mod::lemma_fundamental_div_mod(n, w);
    vstd::arithmetic::div_mod::lemma_div_is_ordered(w, n, w);
    vstd::arithmetic::div_mod::lemma_div_by_self(w);
    assert(n % w < w) by {
        vstd::arithmetic::div_mod::lemma_mod_bound(n, w);
    }
    assert forall|k: int| 0 <= k < chunk_count(n, g) implies 0 <= #[trigger] (k * w) < chunk_end(
        n,
        g,
        k,
    ) <= n by {
        if k == chunk_count(n, g) - 1 {
            if chunk_count(n, g) == q + 1 {
                assert(k * w == q * w);
            } else {
                assert(k * w <= (q - 1) * w) by (nonlinear_arith)
                    requires
                        k <= q - 1,
                        w > 0,
                ;
                assert((q - 1) * w == q * w - w) by (nonlinear_arith);
            }
            assert(0 <= k * w) by (nonlinear_arith)
                requires
                    k >= 0,
                    w > 0,
            ;
        } else {
            assert((k + 1) * w <= q * w) by (nonlinear_arith)
                requires
                    k + 1 <= q,
                    w > 0,
            ;
            assert((k + 1) * w == k * w + w) by (nonlinear_arith);
            assert(0 <= k * w) by (nonlinear_arith)
                requires
                    k >= 0,
                    w > 0,
            ;
        }
    }
}

/// Two records share skeleton style and size list.
pub open spec fn same_skeleton(a: CAccountNameSimAnalyse, b: CAccountNameSimAnalyse) -> bool {
    a.skeleton_style@ == b.skeleton_style@ && a.skeleton_part_size_list@ == b.skeleton_part_size_list@
}

/// `buckets` cuts `idx` into the maximal runs of consecutive entries whose
/// records share a skeleton.
pub open spec fn is_skeleton_split(
    buckets: Seq<Seq<usize>>,
    idx: Seq<usize>,
    recs: Seq<CAccountNameSimAnalyse>,
) -> bool {
    &&& buckets.flatten() == idx
    &&& forall|b: int| 0 <= b < buckets.len() ==> (#[trigger] buckets[b]).len() > 0
    &&& forall|b: int, j: int|
        0 <= b < buckets.len() && 0 <= j < buckets[b].len() ==> same_skeleton(
            recs[(#[trigger] buckets[b][j]) as int],
            recs[buckets[b][0] as int],
        )
    &&& forall|b: int|
        0 <= b < buckets.len() - 1 ==> !same_skeleton(
            recs[(#[trigger] buckets[b]).last() as int],
            recs[buckets[b + 1][0] as int],
        )
}

/// The sizes of a list of index lists.
pub open spec fn sizes_of(buckets: Seq<Seq<usize>>) -> Seq<usize> {
    buckets.map_values(|b: Seq<usize>| b.len() as usize)
}

/// The shards of the buckets taken in the order `ord`.
pub open spec fn shards_in_order(buckets: Seq<Seq<usize>>, ord: Seq<usize>, g: int) -> Seq<Seq<usize>> {
    ord.map_values(|p: usize| chunks(buckets[p as int], g)).flatten()
}

/// The shard plan of `idx` at granularity `g`: the skeleton buckets, larger
/// buckets first, each cut by `chunks`.
pub open spec fn is_shard_plan(
    shards: Seq<Seq<usize>>,
    idx: Seq<usize>,
    recs: Seq<CAccountNameSimAnalyse>,
    g: int,
) -> bool {
    exists|buckets: Seq<Seq<usize>>, ord: Seq<usize>|
        #![trigger is_skeleton_split(buckets, idx, recs), is_size_order(ord, sizes_of(buckets))]
        is_skeleton_split(buckets, idx, recs) && is_size_order(ord, sizes_of(buckets)) && shards
            == shards_in_order(buckets, ord, g)
}

/// The contents of a list of index vectors.
pub open spec fn lists_view(v: Seq<Vec<usize>>) -> Seq<Seq<usize>> {
    v.map_values(|c: Vec<usize>| c@)
}

impl<'a> CAccountNameAnaVec<'a> {
    /// Whether two records share skeleton style and size list.
    fn share_skeleton(&self, i: usize, j: usize) -> (r: bool)
        requires
            i < self.records().len(),
            j < self.records().len(),
        ensures
            r == same_skeleton(self.records()[i as int], self.records()[j as int]),
    {
        let a = self.record(i);
        let b = self.record(j);
        proof {
            lemma_lex_irreflexive(a.skeleton_style@);
            lemma_lex_irreflexive(a.skeleton_part_size_list@);
        }
        matches!(lex_cmp(&a.skeleton_style, &b.skeleton_style), Ordering::Equal) && matches!(
            lex_cmp(&a.skeleton_part_size_list, &b.skeleton_part_size_list),
            Ordering::Equal,
        )
    }

    /// Cuts `index_vec` into the maximal runs of consecutive entries whose
    /// records share skeleton style and size list.
    pub fn bucket_by_skeleton(&self, index_vec: &Vec<usize>) -> (r: Vec<Vec<usize>>)
        requires
            forall|i: int| 0 <= i < index_vec@.len() ==> #[trigger] index_vec@[i] < self.records().len(),
        ensures
            is_skeleton_split(lists_view(r@), index_vec@, self.records()),
    {
        let ghost recs = self.records();
        let mut done: Vec<Vec<usize>> = Vec::new();
        if index_vec.len() == 0 {
            assert(lists_view(done@) =~= Seq::<Seq<usize>>::empty());
            assert(index_vec@ =~= Seq::<usize>::empty());
            return done;
        }
        let mut cur: Vec<usize> = Vec::new();
        cur.push(index_vec[0]);
        let mut i: usize = 1;
        while i < index_vec.len()
            invariant
                recs == self.records(),
                forall|t: int| 0 <= t < index_vec@.len() ==> #[trigger] index_vec@[t] < recs.len(),
                1 <= i <= index_vec@.len(),
                lists_view(done@).flatten() + cur@ == index_vec@.take(i as int),
                cur@.len() > 0,
                cur@.last() == index_vec@[i - 1],
                forall|b: int| 0 <= b < done@.len() ==> (#[trigger] done@[b])@.len() > 0,
                forall|b: int, j: int|
                    0 <= b < done@.len() && 0 <= j < done@[b]@.len() ==> same_skeleton(
                        recs[(#[trigger] done@[b]@[j]) as int],
                        recs[done@[b]@[0] as int],
                    ),
                forall|j: int|
                    0 <= j < cur@.len() ==> same_skeleton(
                        recs[(#[trigger] cur@[j]) as int],
                        recs[cur@[0] as int],
                    ),
                forall|b: int|
                    0 <= b < done@.len() - 1 ==> !same_skeleton(
                        recs[(#[trigger] done@[b])@.last() as int],
                        recs[done@[b + 1]@[0] as int],
                    ),
                done@.len() > 0 ==> !same_skeleton(
                    recs[done@.last()@.last() as int],
                    recs[cur@[0] as int],
                ),
            decreases index_vec@.len() - i,
        {
            let ghost dv = lists_view(done@);
            if self.share_skeleton(index_vec[i - 1], index_vec[i]) {
                cur.push(index_vec[i]);
            } else {
                let old_cur = cur;
                cur = Vec::new();
                cur.push(index_vec[i]);
                done.push(old_cur);
                proof {
                    assert(lists_view(done@) =~= dv.push(old_cur@));
                    dv.lemma_flatten_push(old_cur@);
                }
            }
            i += 1;
            assert(index_vec@.take(i as int) =~= index_vec@.take(i - 1).push(index_vec@[i - 1]));
            assert(lists_view(done@).flatten() + cur@ =~= index_vec@.take(i as int));
        }
        let ghost dv = lists_view(done@);
        done.push(cur);
        proof {
            assert(lists_view(done@) =~= dv.push(cur@));
            dv.lemma_flatten_push(cur@);
            assert(index_vec@.take(i as int) =~= index_vec@);
        }
        done
    }

    /// Splits `index_vec` into shards: first into skeleton buckets, larger buckets
    /// first, then each bucket by `split_index_vec_by_granularity`.
    pub fn split_index_vec(&self, index_vec: &Vec<usize>, group_granularity: usize) -> (r: Vec<
        Vec<usize>,
    >)
        requires
            group_granularity > 0,
            forall|i: int| 0 <= i < index_vec@.len() ==> #[trigger] index_vec@[i] < self.records().len(),
        ensures
            is_shard_plan(lists_view(r@), index_vec@, self.records(), group_granularity as int),
    {
        let buckets = self.bucket_by_skeleton(index_vec);
        let ghost bv = lists_view(buckets@);
        let mut sizes: Vec<usize> = Vec::new();
        let mut k: usize = 0;
        while k < buckets.len()
            invariant
                k <= buckets@.len(),
                bv == lists_view(buckets@),
                sizes@ == sizes_of(bv).take(k as int),
            decreases buckets@.len() - k,
        {
            sizes.push(buckets[k].len());
            k += 1;
            assert(sizes@ =~= sizes_of(bv).take(k as int));
        }
        assert(sizes@ =~= sizes_of(bv));
        let ord = order_by_size_desc(&sizes);
        let mut result: Vec<Vec<usize>> = Vec::new();
        let mut k: usize = 0;
        while k < ord.len()
            invariant
                k <= ord@.len(),
                bv == lists_view(buckets@),
                is_skeleton_split(bv, index_vec@, self.records()),
                is_size_order(ord@, sizes_of(bv)),
                group_granularity > 0,
                lists_view(result@) == shards_in_order(bv, ord@.take(k as int), group_granularity as int),
            decreases ord@.len() - k,
        {
            let p = ord[k];
            assert(bv[p as int].len() > 0);
            let mut part = self.split_index_vec_by_granularity(&buckets[p], group_granularity);
            let ghost rv = lists_view(result@);
            let ghost pv = lists_view(part@);
            result.append(&mut part);
            k += 1;
            proof {
                let f = |q: usize| chunks(bv[q as int], group_granularity as int);
                assert(lists_view(result@) =~= rv + pv);
                assert(ord@.take(k as int).map_values(f) =~= ord@.take(k - 1).map_values(f).push(f(p)));
                ord@.take(k - 1).map_values(f).lemma_flatten_push(f(p));
            }
        }
        assert(ord@.take(k as int) =~= ord@);
        result
    }

    /// Cuts `index_vec` into consecutive shards of `group_granularity` entries
    /// (all of it when it is shorter); a trailing remainder under half a shard
    /// joins the last shard, a longer one is a shard of its own.
    pub fn split_index_vec_by_granularity(&self, index_vec: &Vec<usize>, group_granularity: usize) -> (r:
        Vec<Vec<usize>>)
        requires
            index_vec@.len() > 0,
            group_granularity > 0,
        ensures
            r@.map_values(|c: Vec<usize>| c@) == chunks(index_vec@, group_granularity as int),
    {
        let n = index_vec.len();
        let w: usize = if group_granularity < n {
            group_granularity
        } else {
            n
        };
        let q = n / w;
        proof {
            lemma_chunk_arith(n as int, group_granularity as int);
        }
        let rem = n - q * w;
        assert(rem > 0 ==> q < n) by (nonlinear_arith)
            requires
                rem == n - q * w,
                w >= 1,
                q >= 1,
        ;
        let count: usize = if rem > 0 && rem >= w - rem {
            q + 1
        } else {
            q
        };
        assert(count == chunk_count(n as int, group_granularity as int));
        let ghost spec_chunks = chunks(index_vec@, group_granularity as int);
        let mut result: Vec<Vec<usize>> = Vec::new();
        let mut k: usize = 0;
        while k < count
            invariant
                k <= count,
                count == chunk_count(n as int, group_granularity as int),
                w == chunk_width(n as int, group_granularity as int),
                n == index_vec@.len(),
                spec_chunks == chunks(index_vec@, group_granularity as int),
                forall|j: int|
                    0 <= j < count ==> 0 <= #[trigger] (j * w) < chunk_end(
                        n as int,
                        group_granularity as int,
                        j,
                    ) <= n,
                result@.len() == k,
                forall|j: int| 0 <= j < k ==> (#[trigger] result@[j])@ == spec_chunks[j],
            decreases count - k,
        {
            assert(0 <= k * w < chunk_end(n as int, group_granularity as int, k as int) <= n);
            let lo = k * w;
            let hi = if k == count - 1 {
                n
            } else {
                (k + 1) * w
            };
            assert((k + 1) * w == k * w + w) by (nonlinear_arith);
            result.push(copy_range(index_vec, lo, hi));
            k += 1;
        }
        assert(result@.map_values(|c: Vec<usize>| c@) =~= spec_chunks);
        result
    }
}

} // verus!
