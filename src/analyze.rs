use vstd::prelude::*;
use core::cmp::Ordering;
use crate::order::{cmp_str, lex_cmp, lex_lt};
use crate::decompose::{codes_of, is_decomposition, runs_view, split_account_name_by_data_type};

verus! {

/// The smallest of three numbers.
pub open spec fn min3(x: nat, y: nat, z: nat) -> nat {
    if x <= y && x <= z {
        x
    } else if y <= z {
        y
    } else {
        z
    }
}

/// The Levenshtein distance of two character sequences: the fewest insertions,
/// deletions and substitutions of single characters that turn one into the
/// other, by the recurrence on their prefixes.
pub open spec fn levenshtein_of(a: Seq<char>, b: Seq<char>) -> nat
    decreases a.len() + b.len(),
{
    if a.len() == 0 {
        b.len()
    } else if b.len() == 0 {
        a.len()
    } else {
        min3(
            levenshtein_of(a.drop_last(), b) + 1,
            levenshtein_of(a, b.drop_last()) + 1,
            levenshtein_of(a.drop_last(), b.drop_last()) + if a.last() == b.last() {
                0nat
            } else {
                1nat
            },
        )
    }
}

/// A name is at edit distance zero from itself.
pub proof fn lemma_edit_distance_identity(a: Seq<char>)
    ensures
        levenshtein_of(a, a) == 0,
    decreases a.len(),
{
    if a.len() > 0 {
        lemma_edit_distance_identity(a.drop_last());
    }
}

/// The edit distance does not depend on the order of the two names.
pub proof fn lemma_edit_distance_symmetric(a: Seq<char>, b: Seq<char>)
    ensures
        levenshtein_of(a, b) == levenshtein_of(b, a),
    decreases a.len() + b.len(),
{
    if a.len() > 0 && b.len() > 0 {
        lemma_edit_distance_symmetric(a.drop_last(), b);
        lemma_edit_distance_symmetric(a, b.drop_last());
        lemma_edit_distance_symmetric(a.drop_last(), b.drop_last());
    }
}

/// Relies on str_sim::levenshtein_distance: its table over the characters of both
/// strings follows the recurrence of `levenshtein_of`, cell `(i, j)` never above `i + j`.
#[verifier::external_body]
fn levenshtein(a: &str, b: &str) -> (r: usize)
    ensures
        r == levenshtein_of(a@, b@),
        r <= a@.len() + b@.len(),
{
    str_sim::levenshtein_distance(a, b)
}

/// The edit distance between two names.
pub fn calc_edit_distance(s1: &str, s2: &str) -> (r: usize)
    ensures
        r == levenshtein_of(s1@, s2@),
        r <= s1@.len() + s2@.len(),
{
    levenshtein(s1, s2)
}

/// Integer weights of the sub-scores that make up the composite similarity.
pub struct CAccountNameSimAnalyseParamsWeightTable {
    pub skeleton_skeleton_style: i64,
    pub skeleton_part_size_list: i64,
    pub length: i64,
    pub item_list: i64,
    pub item_amount: i64,
}

impl Default for CAccountNameSimAnalyseParamsWeightTable {
    /// The default weight table: style 7, size list 9, length 1, runs 8, run count 3.
    fn default() -> (r: Self)
        ensures
            r.skeleton_skeleton_style == 7,
            r.skeleton_part_size_list == 9,
            r.length == 1,
            r.item_list == 8,
            r.item_amount == 3,
    {
        CAccountNameSimAnalyseParamsWeightTable {
            skeleton_skeleton_style: 7,
            skeleton_part_size_list: 9,
            length: 1,
            item_list: 8,
            item_amount: 3,
        }
    }
}

/// A name together with its structural decomposition.
pub struct CAccountNameSimAnalyse<'a> {
    pub account_name: &'a str,
    pub length: i64,
    pub item_list: Vec<Vec<i64>>,
    pub item_amount: i64,
    pub skeleton_style: Vec<i64>,
    pub skeleton_part_size_list: Vec<i64>,
}

impl<'a> CAccountNameSimAnalyse<'a> {
    /// The record describes its name: byte length, runs, style, size list and
    /// the number of runs.
    pub open spec fn wf(&self) -> bool {
        &&& is_decomposition(
            runs_view(self.item_list@),
            self.skeleton_style@,
            self.skeleton_part_size_list@,
            self.account_name@,
        )
        &&& self.length == self.account_name.len() as i64
        &&& self.item_amount == self.item_list.len() as i64
        &&& self.item_list@.len() <= i64::MAX ==> self.item_amount as int == self.item_list@.len()
        &&& self.item_list@.len() == self.skeleton_style@.len()
        &&& self.item_list@.len() == self.skeleton_part_size_list@.len()
    }

    /// The codepoints of the name.
    pub open spec fn name_codes(&self) -> Seq<i64> {
        codes_of(self.account_name@)
    }

    /// Strict order of records by skeleton style, then size list, then name.
    pub open spec fn key_lt(&self, o: &Self) -> bool {
        ||| lex_lt(self.skeleton_style@, o.skeleton_style@)
        ||| self.skeleton_style@ == o.skeleton_style@ && lex_lt(
            self.skeleton_part_size_list@,
            o.skeleton_part_size_list@,
        )
        ||| self.skeleton_style@ == o.skeleton_style@ && self.skeleton_part_size_list@
            == o.skeleton_part_size_list@ && lex_lt(self.name_codes(), o.name_codes())
    }

    /// Both records agree on style, size list and name.
    pub open spec fn same_key(&self, o: &Self) -> bool {
        &&& self.skeleton_style@ == o.skeleton_style@
        &&& self.skeleton_part_size_list@ == o.skeleton_part_size_list@
        &&& self.account_name@ == o.account_name@
    }

    pub fn new(_account_name: &'a str) -> (r: CAccountNameSimAnalyse<'a>)
        ensures
            r.wf(),
            r.account_name == _account_name,
    {
        let split_res = split_account_name_by_data_type(_account_name);
        let amount = #[verifier::truncate] (split_res.0.len() as i64);
        CAccountNameSimAnalyse {
            account_name: _account_name,
            length: #[verifier::truncate] (_account_name.len() as i64),
            item_amount: amount,
            item_list: split_res.0,
            skeleton_style: split_res.1,
            skeleton_part_size_list: split_res.2,
        }
    }

    /// The edit distance between this record's name and another name.
    pub fn analyze_edit_distance(&self, account_name: &str) -> (r: i64)
        requires
            self.account_name@.len() + account_name@.len() <= i64::MAX,
        ensures
            r as int == levenshtein_of(self.account_name@, account_name@),
    {
        calc_edit_distance(self.account_name, account_name) as i64
    }
}

/// Compares two records by skeleton style, then size list, then name.
pub fn compare_records(a: &CAccountNameSimAnalyse, b: &CAccountNameSimAnalyse) -> (r: Ordering)
    ensures
        (r == Ordering::Less) == a.key_lt(b),
        (r == Ordering::Greater) == b.key_lt(a),
        (r == Ordering::Equal) == a.same_key(b),
{
    proof {
        crate::order::lemma_lex_asymmetric(a.skeleton_style@, b.skeleton_style@);
        crate::order::lemma_lex_asymmetric(a.skeleton_part_size_list@, b.skeleton_part_size_list@);
        crate::order::lemma_lex_irreflexive(a.skeleton_style@);
        crate::order::lemma_lex_irreflexive(a.skeleton_part_size_list@);
        crate::order::lemma_lex_irreflexive(a.name_codes());
        crate::order::lemma_lex_total(a.skeleton_style@, b.skeleton_style@);
        crate::order::lemma_lex_total(a.skeleton_part_size_list@, b.skeleton_part_size_list@);
        crate::order::lemma_lex_asymmetric(a.name_codes(), b.name_codes());
    }
    match lex_cmp(&a.skeleton_style, &b.skeleton_style) {
        Ordering::Less => Ordering::Less,
        Ordering::Greater => Ordering::Greater,
        Ordering::Equal => match lex_cmp(&a.skeleton_part_size_list, &b.skeleton_part_size_list) {
            Ordering::Less => Ordering::Less,
            Ordering::Greater => Ordering::Greater,
            Ordering::Equal => cmp_str(a.account_name, b.account_name),
        },
    }
}

} // verus!
