use account_name_sim::analyze::CAccountNameSimAnalyse;
use account_name_sim::decompose::{DIGIT_MARK, LETTER_MARK};
use account_name_sim::{calc_edit_distance, split_account_name_by_data_type};

#[test]
fn algorithm_it_works() {
    assert_eq!(calc_edit_distance("asdsf", "asdsq"), 1);
    let (runs, style, sizes) = split_account_name_by_data_type("lalala1234lala4t");
    println!("{:?}", (&runs, &style, &sizes));
    assert_eq!(
        runs,
        vec![
            vec![108, 97, 108, 97, 108, 97],
            vec![49, 50, 51, 52],
            vec![108, 97, 108, 97],
            vec![52],
            vec![116]
        ]
    );
    assert_eq!(sizes, vec![6, 4, 4, 1, 1]);
}

#[test]
fn lalala_style_alternates_from_letter() {
    let (_, style, _) = split_account_name_by_data_type("lalala1234lala4t");
    assert_eq!(style, vec![LETTER_MARK, DIGIT_MARK, LETTER_MARK, DIGIT_MARK, LETTER_MARK]);
    assert_eq!(LETTER_MARK, 's' as i64);
    assert_eq!(DIGIT_MARK, 'i' as i64);
}

#[test]
fn empty_name_has_empty_decomposition() {
    let (runs, style, sizes) = split_account_name_by_data_type("");
    assert!(runs.is_empty());
    assert!(style.is_empty());
    assert!(sizes.is_empty());
}

#[test]
fn non_ascii_characters_are_letters() {
    let (runs, style, sizes) = split_account_name_by_data_type("é7ü");
    assert_eq!(runs, vec![vec!['é' as i64], vec![55], vec!['ü' as i64]]);
    assert_eq!(style, vec![LETTER_MARK, DIGIT_MARK, LETTER_MARK]);
    assert_eq!(sizes, vec![1, 1, 1]);
}

#[test]
fn decomposition_round_trips() {
    for name in ["u0j2e9u1s2h8l91", "0ubutz22ae22", "abc", "123", "a1b22c333"] {
        let (runs, style, sizes) = split_account_name_by_data_type(name);
        let flat: Vec<i64> = runs.iter().flatten().copied().collect();
        let codes: Vec<i64> = name.chars().map(|c| c as i64).collect();
        assert_eq!(flat, codes);
        assert_eq!(style.len(), runs.len());
        assert_eq!(sizes.len(), runs.len());
        for w in runs.windows(2) {
            let d0 = (48..=57).contains(&w[0][0]);
            let d1 = (48..=57).contains(&w[1][0]);
            assert_ne!(d0, d1);
        }
    }
}

#[test]
fn record_describes_name() {
    let r = CAccountNameSimAnalyse::new("u0j2e9u1s2h8l91");
    assert_eq!(r.account_name, "u0j2e9u1s2h8l91");
    assert_eq!(r.length, 15);
    assert_eq!(r.item_amount, 14);
    assert_eq!(r.skeleton_style.len(), 14);
    assert_eq!(r.skeleton_part_size_list, vec![1, 1, 1, 1, 1, 1, 1, 1, 1, 1, 1, 1, 1, 2]);
    let wide = CAccountNameSimAnalyse::new("é1");
    assert_eq!(wide.length, 3);
    assert_eq!(wide.item_amount, 2);
}

#[test]
fn demo() {
    let a = CAccountNameSimAnalyse::new("0ubutz22ae22");
    let b = CAccountNameSimAnalyse::new("2ubutz10ae57");
    assert_eq!(a.analyze_edit_distance(b.account_name), 5);
    assert_eq!(a.skeleton_style, b.skeleton_style);
    assert_eq!(a.skeleton_part_size_list, b.skeleton_part_size_list);
    assert_eq!(a.item_amount, b.item_amount);
    assert_eq!(a.length, b.length);
}

#[test]
fn analyze_account_name_similarity_it_works() {
    let a = CAccountNameSimAnalyse::new("u0j2e9u1s2h8l91");
    let b = CAccountNameSimAnalyse::new("t9x1h8y0b7g6f42");
    assert_eq!(a.item_list.len(), b.item_list.len());
    assert_eq!(a.item_list[0], vec!['u' as i64]);
    assert_eq!(b.item_list[13], vec![52, 50]);
}

#[test]
fn edit_distance_counts_characters() {
    assert_eq!(calc_edit_distance("", "abc"), 3);
    assert_eq!(calc_edit_distance("kitten", "sitting"), 3);
    assert_eq!(calc_edit_distance("é", "e"), 1);
    assert_eq!(calc_edit_distance("same", "same"), 0);
    assert_eq!(calc_edit_distance("asdsq", "asdsf"), calc_edit_distance("asdsf", "asdsq"));
}

#[test]
fn default_weight_table() {
    let w = account_name_sim::CAccountNameSimAnalyseParamsWeightTable::default();
    assert_eq!(
        (w.length, w.item_list, w.item_amount, w.skeleton_skeleton_style, w.skeleton_part_size_list),
        (1, 8, 3, 7, 9)
    );
}
