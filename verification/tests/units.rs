use merge_entities::disjoint_set::UnionFind;
use merge_entities::parsing::{parse_index, parse_line, FormatError};

#[test]
fn find_creates_key_as_own_root() {
    let mut uf = UnionFind::new();
    assert_eq!(uf.find(7), 7);
}

#[test]
fn find_is_idempotent() {
    let mut uf = UnionFind::new();
    uf.union(1, 2);
    uf.union(2, 3);
    uf.union(3, 4);
    let first = uf.find(1);
    let second = uf.find(1);
    assert_eq!(first, second);
}

#[test]
fn union_absorbs_first_into_second() {
    let mut uf = UnionFind::new();
    uf.union(0, 1);
    assert_eq!(uf.find(0), 1);
    assert_eq!(uf.find(1), 1);
}

#[test]
fn union_of_same_class_is_noop() {
    let mut uf = UnionFind::new();
    uf.union(0, 1);
    uf.union(0, 1);
    assert_eq!(uf.find(0), 1);
    assert_eq!(uf.parent_values(), vec![1, 1]);
}

#[test]
fn unions_are_transitive() {
    let mut uf = UnionFind::new();
    uf.union(0, 1);
    uf.union(1, 2);
    assert_eq!(uf.find(0), uf.find(2));
}

#[test]
fn parent_values_in_first_reference_order() {
    let mut uf = UnionFind::new();
    uf.union(5, 9);
    uf.find(3);
    assert_eq!(uf.parent_values(), vec![9, 9, 3]);
}

#[test]
fn parse_index_plain() {
    assert_eq!(parse_index("42"), Some(42));
    assert_eq!(parse_index("0"), Some(0));
}

#[test]
fn parse_index_accepts_leading_plus() {
    assert_eq!(parse_index("+7"), Some(7));
}

#[test]
fn parse_index_rejects_empty_and_junk() {
    assert_eq!(parse_index(""), None);
    assert_eq!(parse_index("+"), None);
    assert_eq!(parse_index("abc"), None);
    assert_eq!(parse_index("1 2"), None);
    assert_eq!(parse_index("-1"), None);
}

#[test]
fn parse_index_bounds() {
    let max = usize::MAX.to_string();
    assert_eq!(parse_index(&max), Some(usize::MAX));
    assert_eq!(parse_index("99999999999999999999999999999"), None);
}

#[test]
fn parse_line_splits_on_single_comma() {
    assert_eq!(parse_line("12,hello"), Ok((12, "hello".to_string())));
    assert_eq!(parse_line("0,"), Ok((0, String::new())));
}

#[test]
fn parse_line_field_count_errors() {
    assert_eq!(parse_line("12"), Err(FormatError::FieldCount));
    assert_eq!(parse_line("1,two,three"), Err(FormatError::FieldCount));
    assert_eq!(parse_line(""), Err(FormatError::FieldCount));
}

#[test]
fn parse_line_bad_index_errors() {
    assert_eq!(parse_line(",label"), Err(FormatError::BadIndex));
    assert_eq!(parse_line("seven,label"), Err(FormatError::BadIndex));
}
