use protean::normalize::normalize_pokemon_names;
use protean::table::FrequencyTable;

fn table(rows: &[(&str, usize)]) -> FrequencyTable {
    FrequencyTable::from_rows(rows.iter().map(|(n, c)| (n.to_string(), *c)).collect()).unwrap()
}

fn rows(t: &FrequencyTable) -> Vec<(String, usize)> {
    t.entries().clone()
}

#[test]
fn normalize_merges_superstring_into_shorter_name() {
    let t = table(&[("Pidgey", 3), ("Pidgey!", 2)]);
    let n = normalize_pokemon_names(&t);
    assert_eq!(rows(&n), vec![("Pidgey".to_string(), 5)]);
}

#[test]
fn normalize_order_of_input_does_not_change_direction() {
    let t = table(&[("Pidgey!", 2), ("Pidgey", 3)]);
    let n = normalize_pokemon_names(&t);
    assert_eq!(rows(&n), vec![("Pidgey".to_string(), 5)]);
}

#[test]
fn normalize_is_idempotent() {
    let t = table(&[("Rattata", 4), ("Pidgey!", 2), ("Pidgey", 3), ("xPidgeyx", 1), ("Zubat", 7)]);
    let once = normalize_pokemon_names(&t);
    let twice = normalize_pokemon_names(&once);
    assert_eq!(rows(&once), rows(&twice));
    assert_eq!(
        rows(&once),
        vec![("Zubat".to_string(), 7), ("Pidgey".to_string(), 6), ("Rattata".to_string(), 4)]
    );
}

#[test]
fn normalize_merges_into_first_kept_name_only() {
    let t = table(&[("ab", 1), ("bc", 2), ("abc", 4)]);
    let n = normalize_pokemon_names(&t);
    assert_eq!(rows(&n), vec![("ab".to_string(), 5), ("bc".to_string(), 2)]);
}

#[test]
fn normalize_empty_table() {
    let n = normalize_pokemon_names(&FrequencyTable::new());
    assert_eq!(n.len(), 0);
    assert_eq!(n.total(), 0);
}

#[test]
fn record_counts_and_clear_empties() {
    let mut t = FrequencyTable::new();
    t.record("A".to_string());
    t.record("B".to_string());
    t.record("A".to_string());
    assert_eq!(rows(&t), vec![("A".to_string(), 2), ("B".to_string(), 1)]);
    assert_eq!(t.count("A"), 2);
    assert_eq!(t.count("C"), 0);
    assert_eq!(t.total(), 3);
    t.clear();
    assert_eq!(t.len(), 0);
    assert_eq!(t.total(), 0);
}

#[test]
fn from_rows_rejects_duplicates_and_overflow() {
    assert!(FrequencyTable::from_rows(vec![("A".to_string(), 1), ("A".to_string(), 2)]).is_none());
    assert!(FrequencyTable::from_rows(vec![("A".to_string(), usize::MAX), ("B".to_string(), 1)]).is_none());
    let t = FrequencyTable::from_rows(vec![("A".to_string(), usize::MAX)]).unwrap();
    assert_eq!(t.total(), usize::MAX);
}
