use merge_entities::merge::{merge_records, Merger};
use merge_entities::parsing::FormatError;

fn lines(v: &[&str]) -> Vec<String> {
    v.iter().map(|s| s.to_string()).collect()
}

#[test]
fn concrete_scenario_five_records() {
    let input = lines(&["0,apple", "1,banana", "2,apple", "3,cherry", "4,banana"]);
    let (primary, entities) = merge_records(&input).unwrap();
    // one line per distinct label, in first-seen order; the first-seen set
    // was absorbed into the later duplicate's set, so the canonical index
    // is the duplicate's.
    assert_eq!(
        primary,
        vec![
            (2, "apple".to_string()),
            (4, "banana".to_string()),
            (3, "cherry".to_string())
        ]
    );
    let mut ents = entities.clone();
    ents.sort();
    assert_eq!(ents, vec![2, 3, 4]);
}

#[test]
fn malformed_line_rejected() {
    let input = lines(&["0,apple", "5,onecomma,extra", "1,banana"]);
    assert_eq!(merge_records(&input), Err(FormatError::FieldCount));
}

#[test]
fn bad_index_rejected() {
    let input = lines(&["0,apple", "x,banana"]);
    assert_eq!(merge_records(&input), Err(FormatError::BadIndex));
}

#[test]
fn line_without_comma_rejected() {
    let input = lines(&["42"]);
    assert_eq!(merge_records(&input), Err(FormatError::FieldCount));
}

#[test]
fn empty_input_empty_outputs() {
    let input: Vec<String> = Vec::new();
    let (primary, entities) = merge_records(&input).unwrap();
    assert!(primary.is_empty());
    assert!(entities.is_empty());
}

#[test]
fn order_of_first_occurrence_is_kept() {
    let input = lines(&["7,b", "3,a", "9,b", "5,c", "8,a"]);
    let (primary, _) = merge_records(&input).unwrap();
    let labels: Vec<&str> = primary.iter().map(|p| p.1.as_str()).collect();
    assert_eq!(labels, vec!["b", "a", "c"]);
    assert_eq!(primary[0].0, 9); // b: 7 absorbed into 9
    assert_eq!(primary[1].0, 8); // a: 3 absorbed into 8
    assert_eq!(primary[2].0, 5); // c: alone
}

#[test]
fn primary_line_count_equals_distinct_labels() {
    let input = lines(&["0,x", "1,y", "2,x", "3,x", "4,z", "5,y"]);
    let (primary, _) = merge_records(&input).unwrap();
    assert_eq!(primary.len(), 3);
}

#[test]
fn two_records_same_label_one_output_line() {
    let input = lines(&["10,same", "20,same"]);
    let (primary, entities) = merge_records(&input).unwrap();
    assert_eq!(primary, vec![(20, "same".to_string())]);
    assert_eq!(entities, vec![20]);
}

#[test]
fn empty_label_is_a_label() {
    let input = lines(&["3,", "4,"]);
    let (primary, _) = merge_records(&input).unwrap();
    assert_eq!(primary, vec![(4, String::new())]);
}

#[test]
fn entity_list_keeps_stale_parents_after_chained_merges() {
    // With three later duplicates of one label, the middle key's parent
    // entry goes stale: the entity list is derived from parent entries, not
    // from true roots, so it holds two values for one label.
    let input = lines(&["0,a", "1,a", "2,a", "3,a"]);
    let (primary, entities) = merge_records(&input).unwrap();
    assert_eq!(primary, vec![(3, "a".to_string())]);
    let mut ents = entities.clone();
    ents.sort();
    assert_eq!(ents, vec![2, 3]);
}

#[test]
fn incremental_pushes_match_batch_run() {
    let input = lines(&["0,apple", "1,banana", "2,apple"]);
    let (primary, entities) = merge_records(&input).unwrap();
    let mut m = Merger::new();
    m.push_record(0, "apple".to_string());
    m.push_record(1, "banana".to_string());
    m.push_record(2, "apple".to_string());
    let (p2, e2) = m.finish();
    assert_eq!(primary, p2);
    assert_eq!(entities, e2);
}

#[test]
fn entity_count_within_record_count() {
    let input = lines(&["0,a", "1,a", "2,a", "3,a", "4,b", "5,b", "6,c"]);
    let (_, entities) = merge_records(&input).unwrap();
    assert!(entities.len() <= input.len());
    let mut deduped = entities.clone();
    deduped.sort();
    deduped.dedup();
    assert_eq!(deduped.len(), entities.len()); // no duplicates emitted
}
