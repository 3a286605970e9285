use name_sort::compare::{compare_chars, compare_names};
use name_sort::segment::{split_name, CompoundSet};
use name_sort::sort::order_names;
use name_sort::table::CodeTable;
use name_sort::EmptyNameError;
use std::cmp::Ordering;

fn chars(s: &str) -> Vec<char> {
    s.chars().collect()
}

fn string(v: &[char]) -> String {
    v.iter().collect()
}

fn table(entries: &[(char, &str)]) -> CodeTable {
    let mut t = CodeTable::new();
    for (word, code) in entries {
        t.insert(*word, chars(code));
    }
    t
}

fn compounds(pairs: &[(char, char)]) -> CompoundSet {
    let mut s = CompoundSet::new();
    for (c0, c1) in pairs {
        s.insert(*c0, *c1);
    }
    s
}

#[test]
fn shorter_code_sorts_first() {
    // code "5" vs code "12": length 1 < length 2 decides, not the
    // lexicographic content.
    let t = table(&[('a', "5"), ('b', "12")]);
    assert_eq!(compare_chars(&chars("a"), &chars("b"), &t), Ordering::Less);
    assert_eq!(compare_chars(&chars("b"), &chars("a"), &t), Ordering::Greater);
}

#[test]
fn equal_length_codes_compare_lexicographically() {
    let t = table(&[('a', "12"), ('b', "15")]);
    assert_eq!(compare_chars(&chars("a"), &chars("b"), &t), Ordering::Less);
    assert_eq!(compare_chars(&chars("b"), &chars("a"), &t), Ordering::Greater);
    assert_eq!(compare_chars(&chars("a"), &chars("a"), &t), Ordering::Equal);
}

#[test]
fn missing_code_falls_back_to_default() {
    // the default code "66666" has length 5; a six-digit code is longer,
    // so the unlisted character sorts first
    let t = table(&[('a', "123456")]);
    assert_eq!(compare_chars(&chars("z"), &chars("a"), &t), Ordering::Less);
    // and two unlisted characters tie
    assert_eq!(compare_chars(&chars("z"), &chars("y"), &t), Ordering::Equal);
}

#[test]
fn duplicate_table_record_last_wins() {
    let mut t = CodeTable::new();
    t.insert('a', chars("1"));
    t.insert('b', chars("2"));
    t.insert('a', chars("3"));
    // with the first record for 'a' ("1" < "2") the answer would be Less
    assert_eq!(compare_chars(&chars("a"), &chars("b"), &t), Ordering::Greater);
}

#[test]
fn split_compound_surname() {
    let set = compounds(&[('欧', '阳')]);
    let (surname, given) = split_name(&chars("欧阳锋"), &set).unwrap();
    assert_eq!(string(&surname), "欧阳");
    assert_eq!(string(&given), "锋");
}

#[test]
fn split_without_compound_set() {
    let set = compounds(&[]);
    let (surname, given) = split_name(&chars("欧阳锋"), &set).unwrap();
    assert_eq!(string(&surname), "欧");
    assert_eq!(string(&given), "阳锋");
}

#[test]
fn split_single_character_name() {
    let set = compounds(&[('欧', '阳'), ('锋', '锋')]);
    let (surname, given) = split_name(&chars("锋"), &set).unwrap();
    assert_eq!(string(&surname), "锋");
    assert_eq!(string(&given), "");
    let empty_set = compounds(&[]);
    let (surname, given) = split_name(&chars("锋"), &empty_set).unwrap();
    assert_eq!(string(&surname), "锋");
    assert_eq!(string(&given), "");
}

#[test]
fn split_two_character_compound_leaves_empty_given() {
    let set = compounds(&[('欧', '阳')]);
    let (surname, given) = split_name(&chars("欧阳"), &set).unwrap();
    assert_eq!(string(&surname), "欧阳");
    assert_eq!(string(&given), "");
}

#[test]
fn split_empty_name_is_an_error() {
    let set = compounds(&[('欧', '阳')]);
    assert_eq!(split_name(&chars(""), &set), Err(EmptyNameError));
}

#[test]
fn prefix_ties_then_length_decides() {
    // both characters carry the same code, so "a" vs "ab" ties through the
    // shared position and the shorter whole string sorts first
    let t = table(&[('a', "7"), ('b', "7")]);
    assert_eq!(compare_chars(&chars("a"), &chars("ab"), &t), Ordering::Less);
    assert_eq!(compare_chars(&chars("ab"), &chars("a"), &t), Ordering::Greater);
    assert_eq!(compare_chars(&chars("ab"), &chars("ab"), &t), Ordering::Equal);
}

#[test]
fn equal_surnames_given_names_decide() {
    let t = table(&[('王', "1"), ('安', "2"), ('石', "3")]);
    let set = compounds(&[]);
    // same surname 王; given names 安 ("2") vs 石 ("3") decide
    assert_eq!(
        compare_names(&chars("王安"), &chars("王石"), &set, &t),
        Ordering::Less
    );
    assert_eq!(
        compare_names(&chars("王石"), &chars("王安"), &set, &t),
        Ordering::Greater
    );
    assert_eq!(
        compare_names(&chars("王安"), &chars("王安"), &set, &t),
        Ordering::Equal
    );
}

#[test]
fn surname_difference_overrides_given_names() {
    let t = table(&[('王', "1"), ('李', "2"), ('安', "3"), ('石', "4")]);
    let set = compounds(&[]);
    // 王 < 李 decides although the given names would order the other way
    assert_eq!(
        compare_names(&chars("王石"), &chars("李安"), &set, &t),
        Ordering::Less
    );
}

#[test]
fn sort_stability_duplicates_never_swap() {
    let t = table(&[('甲', "1")]);
    let set = compounds(&[]);
    let names = vec![chars("甲"), chars("甲")];
    let sorted = order_names(names.clone(), &set, &t).unwrap();
    assert_eq!(sorted, names);
}

#[test]
fn tied_names_come_out_latest_first() {
    // 'a' and 'b' share one code, so the two names tie in every
    // comparison; the pre-sort reversal puts the later-listed name first
    let t = table(&[('a', "1"), ('b', "1")]);
    let set = compounds(&[]);
    let sorted = order_names(vec![chars("a"), chars("b")], &set, &t).unwrap();
    assert_eq!(sorted, vec![chars("b"), chars("a")]);
}

#[test]
fn end_to_end_compound_surname_order() {
    // 欧阳锋 splits to (欧阳, 锋); 锋 splits to (锋, ""); surname codes
    // "10" (length 2) vs "5" (length 1) put 锋 first
    let t = table(&[('欧', "10"), ('阳', "20"), ('锋', "5")]);
    let set = compounds(&[('欧', '阳')]);
    let sorted = order_names(vec![chars("欧阳锋"), chars("锋")], &set, &t).unwrap();
    let sorted: Vec<String> = sorted.iter().map(|n| string(n)).collect();
    assert_eq!(sorted, vec!["锋".to_string(), "欧阳锋".to_string()]);
}

#[test]
fn empty_name_aborts_the_whole_run() {
    let t = table(&[('a', "1")]);
    let set = compounds(&[]);
    let result = order_names(vec![chars("a"), chars(""), chars("b")], &set, &t);
    assert_eq!(result, Err(EmptyNameError));
}

#[test]
fn full_sort_orders_by_codes() {
    let t = table(&[('a', "3"), ('b', "2"), ('c', "1")]);
    let set = compounds(&[]);
    let sorted = order_names(vec![chars("a"), chars("b"), chars("c")], &set, &t).unwrap();
    assert_eq!(sorted, vec![chars("c"), chars("b"), chars("a")]);
}
