use bibclosure::store::EntryStore;
use bibclosure::transitive_closure::compute_closures_bounded;
use bibclosure::transitive_closure::compute_transitive_closures;
use bibclosure::transitive_closure::find_all_repeated_bibentries;
use bibclosure::RustedBibEntry;

fn entry(id: &str, bibkey: &str, fr: Vec<&str>, dep: Vec<&str>) -> RustedBibEntry {
    RustedBibEntry {
        id: id.to_string(),
        bibkey: bibkey.to_string(),
        title: bibkey.to_string(),
        notes: bibkey.to_string(),
        crossref: bibkey.to_string(),
        further_note: bibkey.to_string(),
        further_references: fr.iter().map(|s| s.to_string()).collect(),
        depends_on: dep.iter().map(|s| s.to_string()).collect(),
    }
}

#[test]
fn test_compute_batch_order_and_fields() {
    let entries = vec![
        entry("1", "A", vec!["B"], vec![]),
        entry("2", "B", vec!["C"], vec![]),
        entry("3", "C", vec![], vec![]),
    ];
    let out = compute_transitive_closures(entries);
    assert_eq!(out.len(), 3);
    assert_eq!(out[0].bibkey, "A");
    assert_eq!(out[0].id, "1");
    assert_eq!(out[0].further_references, "B");
    assert_eq!(out[0].further_references_closed, "B,C");
    assert_eq!(out[0].depends_on_closed, "");
    assert_eq!(out[0].max_depth_reached, 2);
    assert_eq!(out[0].status, "success");
    assert_eq!(out[1].bibkey, "B");
    assert_eq!(out[1].further_references_closed, "C");
    assert_eq!(out[1].max_depth_reached, 1);
    assert_eq!(out[2].bibkey, "C");
    assert_eq!(out[2].further_references_closed, "");
    assert_eq!(out[2].max_depth_reached, 0);
}

#[test]
fn test_compute_twice_identical() {
    // A fresh memo per call: the same input gives identical records.
    let make = || {
        vec![
            entry("1", "A", vec!["B"], vec!["C"]),
            entry("2", "B", vec!["C", "A"], vec![]),
            entry("3", "C", vec![], vec!["A"]),
        ]
    };
    let out1 = compute_transitive_closures(make());
    let out2 = compute_transitive_closures(make());
    assert_eq!(out1.len(), out2.len());
    for (a, b) in out1.iter().zip(out2.iter()) {
        assert_eq!(a.bibkey, b.bibkey);
        assert_eq!(a.further_references_closed, b.further_references_closed);
        assert_eq!(a.depends_on_closed, b.depends_on_closed);
        assert_eq!(a.max_depth_reached, b.max_depth_reached);
        assert_eq!(a.status, b.status);
        assert_eq!(a.error_message, b.error_message);
    }
}

#[test]
fn test_find_duplicates_order() {
    // [A, B, A, C, B] reports the second A then the second B.
    let entries = vec![
        entry("a1", "A", vec![], vec![]),
        entry("b1", "B", vec![], vec![]),
        entry("a2", "A", vec![], vec![]),
        entry("c1", "C", vec![], vec![]),
        entry("b2", "B", vec![], vec![]),
    ];
    let dups = find_all_repeated_bibentries(entries);
    assert_eq!(dups.len(), 2);
    assert_eq!(dups[0].bibkey, "A");
    assert_eq!(dups[0].id, "a2");
    assert_eq!(dups[1].bibkey, "B");
    assert_eq!(dups[1].id, "b2");
}

#[test]
fn test_find_duplicates_none() {
    let entries = vec![entry("1", "A", vec![], vec![]), entry("2", "B", vec![], vec![])];
    let dups = find_all_repeated_bibentries(entries);
    assert_eq!(dups.len(), 0);
}

#[test]
fn test_last_entry_wins_in_index() {
    // The index is last-write-wins; duplicate detection is separate.
    let entries = vec![
        entry("first", "A", vec!["B"], vec![]),
        entry("second", "A", vec![], vec![]),
        entry("3", "B", vec![], vec![]),
    ];
    let out = compute_transitive_closures(entries);
    assert_eq!(out.len(), 3);
    // Both A records come from the second A, whose closure is empty.
    assert_eq!(out[0].id, "second");
    assert_eq!(out[0].further_references_closed, "");
    assert_eq!(out[1].id, "second");
}

#[test]
fn test_bounded_within_bound() {
    let store = EntryStore::new(vec![
        entry("1", "A", vec!["B"], vec![]),
        entry("2", "B", vec!["C"], vec![]),
        entry("3", "C", vec![], vec![]),
    ]);
    let (fr, dep) = compute_closures_bounded(&store, 2);
    assert_eq!(fr.len(), 3);
    assert_eq!(dep.len(), 3);
    assert_eq!(fr[0].0, "A");
    assert_eq!(fr[0].1, vec!["B".to_string(), "C".to_string()]);
    assert_eq!(fr[1].0, "B");
    assert_eq!(fr[1].1, vec!["C".to_string()]);
    assert_eq!(fr[2].0, "C");
    assert!(fr[2].1.is_empty());
    assert!(dep[0].1.is_empty());
}

#[test]
fn test_bounded_exceeded_degrades_to_empty() {
    // From A the chain runs two edges deep; a bound of one abandons it.
    let store = EntryStore::new(vec![
        entry("1", "A", vec!["B"], vec![]),
        entry("2", "B", vec!["C"], vec![]),
        entry("3", "C", vec![], vec![]),
    ]);
    let (fr, _dep) = compute_closures_bounded(&store, 1);
    assert_eq!(fr[0].0, "A");
    assert!(fr[0].1.is_empty(), "beyond the bound the closure degrades to empty");
    assert_eq!(fr[1].1, vec!["C".to_string()]);
}

#[test]
fn test_bounded_cycle_terminates() {
    // A -> B -> A: the cycle closes within two edges and excludes the start.
    let store = EntryStore::new(vec![
        entry("1", "A", vec!["B"], vec![]),
        entry("2", "B", vec!["A"], vec![]),
    ]);
    let (fr, _dep) = compute_closures_bounded(&store, 5);
    assert_eq!(fr[0].0, "A");
    assert_eq!(fr[0].1, vec!["B".to_string()]);
    assert_eq!(fr[1].0, "B");
    assert_eq!(fr[1].1, vec!["A".to_string()]);
}

#[test]
fn test_bounded_duplicate_keys_once() {
    // A mapping input: a repeated bibkey appears once, last entry winning.
    let store = EntryStore::new(vec![
        entry("1", "A", vec!["B"], vec![]),
        entry("2", "A", vec![], vec![]),
        entry("3", "B", vec![], vec![]),
    ]);
    let (fr, _dep) = compute_closures_bounded(&store, 3);
    assert_eq!(fr.len(), 2);
    assert_eq!(fr[0].0, "A");
    assert!(fr[0].1.is_empty());
    assert_eq!(fr[1].0, "B");
}
