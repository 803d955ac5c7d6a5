use vstd::prelude::*;
use core::cmp::Ordering;
use crate::analyze::{compare_records, CAccountNameSimAnalyse};
use crate::decompose::{code_of, codes_of};
use crate::order::{
    cmp_str, lemma_lex_asymmetric, lemma_lex_irreflexive, lemma_lex_total, lemma_lex_transitive, lex_lt,
    sort_strs,
};

verus! {

broadcast use vstd::seq_lib::group_to_multiset_ensures;

/// Some element of `v` reads `x`.
pub open spec fn has_name(v: Seq<&str>, x: Seq<char>) -> bool {
    exists|j: int| 0 <= j < v.len() && #[trigger] v[j]@ == x
}

/// Some record of `v` is for the name `x`.
pub open spec fn has_record_for(v: Seq<CAccountNameSimAnalyse>, x: Seq<char>) -> bool {
    exists|j: int| 0 <= j < v.len() && #[trigger] v[j].account_name@ == x
}

/// No record comes after one that is smaller in the key order.
pub open spec fn sorted_by_key(v: Seq<CAccountNameSimAnalyse>) -> bool {
    forall|i: int, j: int| 0 <= i < j < v.len() ==> !#[trigger] v[j].key_lt(&v[i])
}

/// No two records are for the same name.
pub open spec fn distinct_names(v: Seq<CAccountNameSimAnalyse>) -> bool {
    forall|i: int, j: int|
        0 <= i < v.len() && 0 <= j < v.len() && i != j ==> (#[trigger] v[i]).account_name@
            != (#[trigger] v[j]).account_name@
}

/// Each record comes strictly before every later one in the key order.
pub open spec fn strictly_sorted_by_key(v: Seq<CAccountNameSimAnalyse>) -> bool {
    forall|i: int, j: int| 0 <= i < j < v.len() ==> #[trigger] v[i].key_lt(&v[j])
}

proof fn lemma_code_injective(x: char, y: char)
    requires
        code_of(x) == code_of(y),
    ensures
        x == y,
{
    assert(x as u32 == y as u32);
}

proof fn lemma_codes_injective(a: Seq<char>, b: Seq<char>)
    requires
        codes_of(a) == codes_of(b),
    ensures
        a == b,
{
    assert(a.len() == codes_of(a).len());
    assert(b.len() == codes_of(b).len());
    assert forall|k: int| 0 <= k < a.len() implies a[k] == b[k] by {
        assert(codes_of(a)[k] == code_of(a[k]));
        assert(codes_of(b)[k] == code_of(b[k]));
        lemma_code_injective(a[k], b[k]);
    }
    assert(a =~= b);
}

proof fn lemma_sorted_distinct_is_strict(v: Seq<CAccountNameSimAnalyse>)
    requires
        sorted_by_key(v),
        distinct_names(v),
    ensures
        strictly_sorted_by_key(v),
{
    assert forall|i: int, j: int| 0 <= i < j < v.len() implies #[trigger] v[i].key_lt(&v[j]) by {
        let a = v[i];
        let b = v[j];
        assert(!b.key_lt(&a));
        lemma_lex_total(a.skeleton_style@, b.skeleton_style@);
        lemma_lex_total(a.skeleton_part_size_list@, b.skeleton_part_size_list@);
        lemma_lex_total(a.name_codes(), b.name_codes());
        if a.name_codes() == b.name_codes() {
            lemma_codes_injective(a.account_name@, b.account_name@);
        }
    }
}

/// Every record describes its name.
pub open spec fn all_wf(v: Seq<CAccountNameSimAnalyse>) -> bool {
    forall|i: int| 0 <= i < v.len() ==> (#[trigger] v[i]).wf()
}

/// Relies on slice::sort_by with `compare_records`, a total order: the result is
/// a permutation of the input in ascending key order.
#[verifier::external_body]
fn sort_records(v: &mut Vec<CAccountNameSimAnalyse>)
    ensures
        final(v)@.to_multiset() == old(v)@.to_multiset(),
        sorted_by_key(final(v)@),
{
    v.sort_by(|a, b| compare_records(a, b));
}

proof fn lemma_permutation_keeps_distinct_names(
    s: Seq<CAccountNameSimAnalyse>,
    t: Seq<CAccountNameSimAnalyse>,
)
    requires
        distinct_names(s),
        s.to_multiset() == t.to_multiset(),
    ensures
        distinct_names(t),
{
    assert(s.no_duplicates());
    s.lemma_multiset_has_no_duplicates();
    t.lemma_multiset_has_no_duplicates_conv();
    assert forall|i: int, j: int|
        0 <= i < t.len() && 0 <= j < t.len() && i != j implies (#[trigger] t[i]).account_name@
        != (#[trigger] t[j]).account_name@ by {
        assert(t.to_multiset().count(t[i]) > 0);
        assert(t.to_multiset().count(t[j]) > 0);
        assert(s.contains(t[i]));
        assert(s.contains(t[j]));
    }
}

/// A list of names that all read `x` gives a collection of exactly one record.
pub proof fn lemma_identical_names_one_record(
    recs: Seq<CAccountNameSimAnalyse>,
    names: Seq<&str>,
    x: Seq<char>,
)
    requires
        distinct_names(recs),
        forall|y: Seq<char>| has_record_for(recs, y) <==> has_name(names, y),
        names.len() > 0,
        forall|i: int| 0 <= i < names.len() ==> (#[trigger] names[i])@ == x,
    ensures
        recs.len() == 1,
{
    assert(has_name(names, names[0]@));
    assert(has_record_for(recs, x));
    if recs.len() > 1 {
        assert(has_record_for(recs, recs[0].account_name@));
        assert(has_record_for(recs, recs[1].account_name@));
        assert(has_name(names, recs[0].account_name@));
        assert(has_name(names, recs[1].account_name@));
        assert(recs[0].account_name@ == x);
        assert(recs[1].account_name@ == x);
    }
}

/// The analysed collection: one record per distinct name, sorted by
/// (skeleton style, size list, name).
pub struct CAccountNameAnaVec<'a> {
    analyse_obj_vec: Vec<CAccountNameSimAnalyse<'a>>,
    data_vec_size: usize,
}

impl<'a> CAccountNameAnaVec<'a> {
    /// The records, in order.
    pub closed spec fn records(&self) -> Seq<CAccountNameSimAnalyse<'a>> {
        self.analyse_obj_vec@
    }

    pub closed spec fn wf(&self) -> bool {
        &&& self.data_vec_size == self.analyse_obj_vec@.len()
        &&& all_wf(self.analyse_obj_vec@)
        &&& sorted_by_key(self.analyse_obj_vec@)
        &&& distinct_names(self.analyse_obj_vec@)
    }

    pub proof fn lemma_wf(&self)
        requires
            self.wf(),
        ensures
            all_wf(self.records()),
            sorted_by_key(self.records()),
            distinct_names(self.records()),
    {
    }

    /// The number of records.
    pub fn len(&self) -> (r: usize)
        requires
            self.wf(),
        ensures
            r == self.records().len(),
    {
        self.data_vec_size
    }

    /// The record at position `i`.
    pub fn record(&self, i: usize) -> (r: &CAccountNameSimAnalyse<'a>)
        requires
            i < self.records().len(),
        ensures
            *r == self.records()[i as int],
    {
        &self.analyse_obj_vec[i]
    }

    /// Builds the collection: drops repeated names, describes each name and sorts
    /// the records by (skeleton style, size list, name).
    pub fn new(account_name_vec: &'a Vec<&'a str>) -> (r: Self)
        ensures
            r.wf(),
            all_wf(r.records()),
            sorted_by_key(r.records()),
            strictly_sorted_by_key(r.records()),
            distinct_names(r.records()),
            forall|x: Seq<char>|
                has_record_for(r.records(), x) <==> has_name(account_name_vec@, x),
    {
        let mut names: Vec<&'a str> = Vec::new();
        let mut k: usize = 0;
        while k < account_name_vec.len()
            invariant
                k <= account_name_vec.len(),
                names@ == account_name_vec@.take(k as int),
            decreases account_name_vec.len() - k,
        {
            names.push(account_name_vec[k]);
            k += 1;
            assert(names@ =~= account_name_vec@.take(k as int));
        }
        assert(names@ =~= account_name_vec@);
        let ghost input = names@;
        sort_strs(&mut names);
        let names = names;
        proof {
            assert forall|x: Seq<char>| has_name(names@, x) <==> has_name(input, x) by {
                if has_name(names@, x) {
                    let j = choose|j: int| 0 <= j < names@.len() && #[trigger] names@[j]@ == x;
                    assert(names@.to_multiset().count(names@[j]) > 0);
                    assert(input.contains(names@[j]));
                }
                if has_name(input, x) {
                    let j = choose|j: int| 0 <= j < input.len() && #[trigger] input[j]@ == x;
                    assert(input.to_multiset().count(input[j]) > 0);
                    assert(names@.contains(input[j]));
                }
            }
        }
        // keep the first of each run of equal names
        let mut uniq: Vec<&'a str> = Vec::new();
        let mut k: usize = 0;
        while k < names.len()
            invariant
                k <= names.len(),
                forall|i: int, j: int|
                    0 <= i < j < uniq@.len() ==> lex_lt(
                        codes_of((#[trigger] uniq@[i])@),
                        codes_of((#[trigger] uniq@[j])@),
                    ),
                k == 0 ==> uniq@.len() == 0,
                k > 0 ==> uniq@.len() > 0 && uniq@.last()@ == names@[k - 1]@,
                forall|i: int, j: int|
                    0 <= i < j < names@.len() ==> !lex_lt(
                        codes_of((#[trigger] names@[j])@),
                        codes_of((#[trigger] names@[i])@),
                    ),
                forall|x: Seq<char>| has_name(uniq@, x) <==> has_name(names@.take(k as int), x),
            decreases names.len() - k,
        {
            let ghost prev = uniq@;
            if k == 0 || matches!(cmp_str(uniq[uniq.len() - 1], names[k]), Ordering::Less) {
                uniq.push(names[k]);
                proof {
                    if k > 0 {
                        assert forall|i: int, j: int|
                            0 <= i < j < uniq@.len() implies lex_lt(
                            codes_of((#[trigger] uniq@[i])@),
                            codes_of((#[trigger] uniq@[j])@),
                        ) by {
                            if j == uniq@.len() - 1 && i < j - 1 {
                                lemma_lex_transitive(
                                    codes_of(uniq@[i]@),
                                    codes_of(uniq@[j - 1]@),
                                    codes_of(uniq@[j]@),
                                );
                            }
                        }
                    }
                }
            } else {
                proof {
                    assert(!lex_lt(codes_of(names@[k as int]@), codes_of(names@[k - 1]@)));
                }
            }
            k += 1;
            proof {
                assert forall|x: Seq<char>|
                    has_name(uniq@, x) <==> has_name(names@.take(k as int), x) by {
                    let t = names@.take(k as int);
                    let t0 = names@.take(k - 1);
                    if has_name(uniq@, x) {
                        let j = choose|j: int| 0 <= j < uniq@.len() && #[trigger] uniq@[j]@ == x;
                        if j < prev.len() {
                            assert(prev[j]@ == x);
                            assert(has_name(prev, x));
                            assert(has_name(t0, x));
                            let i = choose|i: int| 0 <= i < t0.len() && #[trigger] t0[i]@ == x;
                            assert(t[i]@ == x);
                        } else {
                            assert(t[k - 1]@ == x);
                        }
                    }
                    if has_name(t, x) {
                        let i = choose|i: int| 0 <= i < t.len() && #[trigger] t[i]@ == x;
                        if i < k - 1 {
                            assert(t0[i]@ == x);
                            assert(has_name(t0, x));
                            assert(has_name(prev, x));
                            let j = choose|j: int| 0 <= j < prev.len() && #[trigger] prev[j]@ == x;
                            assert(uniq@[j]@ == x);
                        } else {
                            assert(uniq@[uniq@.len() - 1]@ == x);
                        }
                    }
                }
            }
        }
        assert(names@.take(k as int) =~= names@);
        assert(forall|x: Seq<char>| has_name(uniq@, x) <==> has_name(names@, x));
        // describe each name
        let mut recs: Vec<CAccountNameSimAnalyse<'a>> = Vec::new();
        let mut k: usize = 0;
        while k < uniq.len()
            invariant
                k <= uniq.len(),
                recs@.len() == k,
                forall|i: int| 0 <= i < k ==> (#[trigger] recs@[i]).wf(),
                forall|i: int| 0 <= i < k ==> (#[trigger] recs@[i]).account_name == uniq@[i],
            decreases uniq.len() - k,
        {
            recs.push(CAccountNameSimAnalyse::new(uniq[k]));
            k += 1;
        }
        proof {
            assert forall|i: int, j: int|
                0 <= i < recs@.len() && 0 <= j < recs@.len() && i != j implies (
            #[trigger] recs@[i]).account_name@ != (#[trigger] recs@[j]).account_name@ by {
                lemma_lex_irreflexive(codes_of(uniq@[i]@));
                if i < j {
                    assert(lex_lt(codes_of(uniq@[i]@), codes_of(uniq@[j]@)));
                } else {
                    assert(lex_lt(codes_of(uniq@[j]@), codes_of(uniq@[i]@)));
                }
            }
        }
        let ghost unsorted = recs@;
        sort_records(&mut recs);
        proof {
            lemma_permutation_keeps_distinct_names(unsorted, recs@);
            assert forall|i: int| 0 <= i < recs@.len() implies (#[trigger] recs@[i]).wf() by {
                assert(recs@.to_multiset().count(recs@[i]) > 0);
                assert(unsorted.contains(recs@[i]));
            }
            assert forall|x: Seq<char>| has_record_for(recs@, x) <==> has_name(account_name_vec@, x) by {
                if has_record_for(recs@, x) {
                    let j = choose|j: int| 0 <= j < recs@.len() && #[trigger] recs@[j].account_name@ == x;
                    assert(recs@.to_multiset().count(recs@[j]) > 0);
                    assert(unsorted.contains(recs@[j]));
                    let i = choose|i: int| 0 <= i < unsorted.len() && unsorted[i] == recs@[j];
                    assert(uniq@[i]@ == x);
                }
                if has_name(account_name_vec@, x) {
                    assert(has_name(input, x));
                    assert(has_name(names@, x));
                    assert(has_name(uniq@, x));
                    let i = choose|i: int| 0 <= i < uniq@.len() && #[trigger] uniq@[i]@ == x;
                    assert(unsorted[i].account_name@ == x);
                    assert(unsorted.to_multiset().count(unsorted[i]) > 0);
                    assert(recs@.contains(unsorted[i]));
                }
            }
        }
        proof {
            lemma_sorted_distinct_is_strict(recs@);
        }
        let size = recs.len();
        CAccountNameAnaVec { analyse_obj_vec: recs, data_vec_size: size }
    }

    /// The names of the collection, in its order.
    pub fn to_vec(&self) -> (r: Vec<String>)
        requires
            self.wf(),
        ensures
            r@.len() == self.records().len(),
            forall|i: int| 0 <= i < r@.len() ==> (#[trigger] r@[i])@ == self.records()[i].account_name@,
    {
        let mut res: Vec<String> = Vec::new();
        let mut i: usize = 0;
        while i < self.data_vec_size
            invariant
                self.wf(),
                i <= self.data_vec_size,
                res@.len() == i,
                forall|j: int| 0 <= j < i ==> (#[trigger] res@[j])@ == self.records()[j].account_name@,
            decreases self.data_vec_size - i,
        {
            res.push(self.analyse_obj_vec[i].account_name.to_owned());
            i += 1;
        }
        res
    }
}

} // verus!
