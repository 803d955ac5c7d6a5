use vstd::prelude::*;
use itertools::Itertools;

verus! {

/// Style marker of a run of ASCII digits (`'i'`).
pub const DIGIT_MARK: i64 = 105;

/// Style marker of a run of any other characters (`'s'`).
pub const LETTER_MARK: i64 = 115;

/// A character counts as a digit exactly when it lies in `'0'..='9'`.
pub open spec fn is_digit(c: char) -> bool {
    '0' <= c && c <= '9'
}

/// A codepoint value counts as a digit exactly when it is one of `'0'..='9'`.
pub open spec fn is_digit_code(x: i64) -> bool {
    48 <= x && x <= 57
}

/// The codepoint value of a character.
pub open spec fn code_of(c: char) -> i64 {
    c as u32 as i64
}

/// `runs` is the split of `s` into maximal runs of one class (digit or not).
pub open spec fn is_class_split(runs: Seq<Seq<char>>, s: Seq<char>) -> bool {
    &&& runs.flatten() == s
    &&& forall|i: int| 0 <= i < runs.len() ==> #[trigger] runs[i].len() > 0
    &&& forall|i: int, j: int|
        0 <= i < runs.len() && 0 <= j < runs[i].len() ==> is_digit(#[trigger] runs[i][j])
            == is_digit(runs[i][0])
    &&& forall|i: int|
        0 <= i < runs.len() - 1 ==> is_digit(#[trigger] runs[i][0]) != is_digit(runs[i + 1][0])
}

pub fn is_digit_char(c: char) -> (r: bool)
    ensures
        r == is_digit(c),
{
    '0' <= c && c <= '9'
}

/// Relies on itertools::Itertools::group_by: consecutive elements with the same
/// key form one group, groups come out in input order.
#[verifier::external_body]
fn group_by_class(s: &str) -> (r: Vec<Vec<char>>)
    ensures
        is_class_split(r@.map_values(|g: Vec<char>| g@), s@),
{
    let groups = s.chars().group_by(|c| is_digit_char(*c));
    let r: Vec<Vec<char>> = (&groups).into_iter().map(|(_, g)| g.collect()).collect();
    r
}

/// The codepoint values of a character sequence.
pub open spec fn codes_of(s: Seq<char>) -> Seq<i64> {
    s.map_values(|c: char| code_of(c))
}

/// The contents of a list of integer vectors.
pub open spec fn runs_view(v: Seq<Vec<i64>>) -> Seq<Seq<i64>> {
    v.map_values(|r: Vec<i64>| r@)
}

/// The style marker of a run that starts with codepoint `x`.
pub open spec fn mark_of(x: i64) -> i64 {
    if is_digit_code(x) {
        DIGIT_MARK
    } else {
        LETTER_MARK
    }
}

/// `(runs, style, sizes)` is the decomposition of the name `s`: the runs are the
/// maximal digit / non-digit runs of its codepoints in order, `style` marks the
/// class of each run and `sizes` holds the length of each run.
pub open spec fn is_decomposition(
    runs: Seq<Seq<i64>>,
    style: Seq<i64>,
    sizes: Seq<i64>,
    s: Seq<char>,
) -> bool {
    &&& runs.flatten() == codes_of(s)
    &&& forall|i: int| 0 <= i < runs.len() ==> #[trigger] runs[i].len() > 0
    &&& forall|i: int, j: int|
        0 <= i < runs.len() && 0 <= j < runs[i].len() ==> is_digit_code(#[trigger] runs[i][j])
            == is_digit_code(runs[i][0])
    &&& forall|i: int|
        0 <= i < runs.len() - 1 ==> is_digit_code(#[trigger] runs[i][0]) != is_digit_code(
            runs[i + 1][0],
        )
    &&& style.len() == runs.len()
    &&& sizes.len() == runs.len()
    &&& forall|i: int| 0 <= i < runs.len() ==> #[trigger] style[i] == mark_of(runs[i][0])
    &&& forall|i: int| 0 <= i < runs.len() ==> #[trigger] sizes[i] == runs[i].len() as i64
}

proof fn lemma_digit_code(c: char)
    ensures
        is_digit(c) == is_digit_code(code_of(c)),
{
    assert(('0' as u32) == 48u32);
    assert(('9' as u32) == 57u32);
}

proof fn lemma_codes_of_add(a: Seq<char>, b: Seq<char>)
    ensures
        codes_of(a + b) == codes_of(a) + codes_of(b),
{
    assert(codes_of(a + b) =~= codes_of(a) + codes_of(b));
}

proof fn lemma_flatten_codes(g: Seq<Seq<char>>)
    ensures
        g.map_values(|r: Seq<char>| codes_of(r)).flatten() == codes_of(g.flatten()),
    decreases g.len(),
{
    if g.len() > 0 {
        let m = g.map_values(|r: Seq<char>| codes_of(r));
        assert(m.drop_first() =~= g.drop_first().map_values(|r: Seq<char>| codes_of(r)));
        lemma_flatten_codes(g.drop_first());
        lemma_codes_of_add(g.first(), g.drop_first().flatten());
    } else {
        assert(codes_of(g.flatten()) =~= Seq::<i64>::empty());
    }
}

/// Splits a name into its maximal runs of ASCII digits and of other characters,
/// each run as codepoint values, together with the style marker and the length
/// of each run.
pub fn split_account_name_by_data_type(account_name: &str) -> (r: (
    Vec<Vec<i64>>,
    Vec<i64>,
    Vec<i64>,
))
    ensures
        is_decomposition(runs_view(r.0@), r.1@, r.2@, account_name@),
{
    let groups = group_by_class(account_name);
    let ghost gv = groups@.map_values(|g: Vec<char>| g@);
    let mut item_list: Vec<Vec<i64>> = Vec::new();
    let mut style: Vec<i64> = Vec::new();
    let mut sizes: Vec<i64> = Vec::new();
    let mut k: usize = 0;
    while k < groups.len()
        invariant
            k <= groups.len(),
            gv == groups@.map_values(|g: Vec<char>| g@),
            is_class_split(gv, account_name@),
            runs_view(item_list@) == gv.take(k as int).map_values(|r: Seq<char>| codes_of(r)),
            style@.len() == k,
            sizes@.len() == k,
            forall|i: int| 0 <= i < k ==> #[trigger] style@[i] == mark_of(code_of(gv[i][0])),
            forall|i: int| 0 <= i < k ==> #[trigger] sizes@[i] == gv[i].len() as i64,
        decreases groups.len() - k,
    {
        let g = &groups[k];
        assert(g@ == gv[k as int]);
        let mut codes: Vec<i64> = Vec::new();
        let mut j: usize = 0;
        while j < g.len()
            invariant
                j <= g.len(),
                codes@ == codes_of(g@.take(j as int)),
            decreases g.len() - j,
        {
            codes.push(g[j] as u32 as i64);
            j += 1;
            assert(codes_of(g@.take(j as int)) =~= codes_of(g@.take(j - 1)).push(code_of(g@[j - 1])));
        }
        assert(g@.take(j as int) =~= g@);
        proof {
            lemma_digit_code(g@[0]);
        }
        if is_digit_char(g[0]) {
            style.push(DIGIT_MARK);
        } else {
            style.push(LETTER_MARK);
        }
        sizes.push(g.len() as i64);
        let ghost before = item_list@;
        item_list.push(codes);
        k += 1;
        assert(runs_view(item_list@) =~= runs_view(before).push(codes_of(gv[k - 1])));
        assert(gv.take(k as int).map_values(|r: Seq<char>| codes_of(r)) =~= gv.take(k - 1).map_values(
            |r: Seq<char>| codes_of(r),
        ).push(codes_of(gv[k - 1])));
    }
    let ghost rv = runs_view(item_list@);
    proof {
        assert(gv.take(k as int) =~= gv);
        lemma_flatten_codes(gv);
        assert forall|i: int, j: int| 0 <= i < rv.len() && 0 <= j < rv[i].len() implies is_digit_code(
            #[trigger] rv[i][j],
        ) == is_digit_code(rv[i][0]) by {
            lemma_digit_code(gv[i][j]);
            lemma_digit_code(gv[i][0]);
        }
        assert forall|i: int| 0 <= i < rv.len() - 1 implies is_digit_code(#[trigger] rv[i][0])
            != is_digit_code(rv[i + 1][0]) by {
            lemma_digit_code(gv[i][0]);
            lemma_digit_code(gv[i + 1][0]);
        }
    }
    (item_list, style, sizes)
}

} // verus!
