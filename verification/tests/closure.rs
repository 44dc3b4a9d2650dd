use bibclosure::store::EntryStore;
use bibclosure::transitive_closure::t_close;
use bibclosure::transitive_closure::ClosureMemo;
use bibclosure::RustedBibEntry;

fn create_rusted_bibentry(
    bibkey: &str,
    further_references: Vec<&str>,
    depends_on: Vec<&str>,
) -> RustedBibEntry {
    RustedBibEntry {
        id: bibkey.to_string(),
        bibkey: bibkey.to_string(),
        title: bibkey.to_string(),
        notes: bibkey.to_string(),
        crossref: bibkey.to_string(),
        further_note: bibkey.to_string(),
        further_references: further_references.iter().map(|s| s.to_string()).collect(),
        depends_on: depends_on.iter().map(|s| s.to_string()).collect(),
    }
}

#[test]
fn test_direct_cycle() {
    // A -> A (self-referencing)
    let entries = EntryStore::new(vec![create_rusted_bibentry("A", vec!["A"], vec!["A"])]);

    let mut memo = ClosureMemo::new();
    let result = t_close(&"A".to_string(), &entries, &mut memo);

    assert_eq!(
        result.max_depth_reached, 1,
        "Direct cycle should only reach depth of 1"
    );
    assert!(
        !result.further_references_closed.contains("A"),
        "Bibkey 'A' should not reference itself in closure"
    );
}

#[test]
fn test_indirect_cycle() {
    // A -> B -> C -> A (indirect cycle)
    let entries = EntryStore::new(vec![
        create_rusted_bibentry("A", vec!["B"], vec!["B"]),
        create_rusted_bibentry("B", vec!["C"], vec!["C"]),
        create_rusted_bibentry("C", vec!["A"], vec!["A"]),
    ]);

    let mut memo = ClosureMemo::new();
    let result = t_close(&"A".to_string(), &entries, &mut memo);

    assert!(
        result.max_depth_reached > 0,
        "Indirect cycle should not lead to infinite depth"
    );
    assert!(
        result.further_references_closed.contains("B"),
        "Closure should contain B"
    );
    assert!(
        result.further_references_closed.contains("C"),
        "Closure should contain C"
    );
    assert!(
        !result.further_references_closed.contains("A"),
        "Closure should not contain A"
    );
    assert!(
        result.depends_on_closed.contains("B"),
        "Closure should contain B"
    );
    assert!(
        result.depends_on_closed.contains("C"),
        "Closure should contain C"
    );
    assert!(
        !result.depends_on_closed.contains("A"),
        "Closure should not contain A"
    );
}

#[test]
fn test_mixed_cycle_and_non_cycle() {
    // A -> B -> C, C -> D (Cyclic path) and D -> E (Acyclic path)
    let entries = EntryStore::new(vec![
        create_rusted_bibentry("A", vec!["B"], vec![]),
        create_rusted_bibentry("B", vec!["C"], vec![]),
        create_rusted_bibentry("C", vec!["A", "D"], vec![]),
        create_rusted_bibentry("D", vec!["E"], vec![]),
        create_rusted_bibentry("E", vec![], vec![]),
    ]);

    let mut memo = ClosureMemo::new();
    let result = t_close(&"A".to_string(), &entries, &mut memo);

    // Verify closure contains all non-cyclic entries
    assert!(
        result.further_references_closed.contains("D"),
        "Closure should contain D from acyclic path"
    );
    assert!(
        result.further_references_closed.contains("E"),
        "Closure should contain E from acyclic path"
    );

    // Verify max depth does not grow indefinitely
    assert!(
        result.max_depth_reached > 0 && result.max_depth_reached <= 4,
        "Max depth should not exceed acyclic path length"
    );
}

#[test]
fn test_no_cycle() {
    // Simple acyclic references A -> B -> C
    let entries = EntryStore::new(vec![
        create_rusted_bibentry("A", vec!["B"], vec![]),
        create_rusted_bibentry("B", vec!["C"], vec![]),
        create_rusted_bibentry("C", vec![], vec![]),
    ]);

    let mut memo = ClosureMemo::new();
    let result = t_close(&"A".to_string(), &entries, &mut memo);

    assert_eq!(
        result.max_depth_reached, 2,
        "Acyclic path A->B->C should reach max depth of 2"
    );
    assert!(
        result.further_references_closed.contains("B"),
        "Closure should contain B"
    );
    assert!(
        result.further_references_closed.contains("C"),
        "Closure should contain C"
    );
}

#[test]
fn test_no_edges_entry() {
    // An entry with no relation edges closes to nothing.
    let entries = EntryStore::new(vec![create_rusted_bibentry("A", vec![], vec![])]);
    let mut memo = ClosureMemo::new();
    let result = t_close(&"A".to_string(), &entries, &mut memo);
    assert_eq!(result.further_references_closed, "");
    assert_eq!(result.depends_on_closed, "");
    assert_eq!(result.status, "success");
    assert_eq!(result.error_message, "");
    assert_eq!(result.max_depth_reached, 0);
}

#[test]
fn test_missing_bibkey() {
    // A key absent from the store yields an error record, not a fault.
    let entries = EntryStore::new(vec![create_rusted_bibentry("A", vec!["B"], vec![])]);
    let mut memo = ClosureMemo::new();
    let result = t_close(&"Z".to_string(), &entries, &mut memo);
    assert_eq!(result.status, "error");
    assert_eq!(result.bibkey, "Z");
    assert_eq!(result.further_references_closed, "");
    assert_eq!(result.depends_on_closed, "");
    assert_eq!(result.max_depth_reached, 0);
    assert_eq!(
        result.error_message,
        "Bibkey not found in the provided array of bibentries"
    );
}

#[test]
fn test_serialization_trims_and_sorts() {
    // Keys are trimmed, blanks and the entry's own key are dropped, and the
    // remainder is joined in lexicographic order.
    let entries = EntryStore::new(vec![create_rusted_bibentry(
        "A",
        vec![" D ", "  ", "A", "B"],
        vec!["C", "B"],
    )]);
    let mut memo = ClosureMemo::new();
    let result = t_close(&"A".to_string(), &entries, &mut memo);
    assert_eq!(result.further_references_closed, "B,D");
    assert_eq!(result.depends_on_closed, "B,C");
    assert_eq!(result.further_references, " D ,  ,A,B");
    assert_eq!(result.depends_on, "C,B");
    assert_eq!(result.max_depth_reached, 1);
}

#[test]
fn test_dangling_reference_included_not_expanded() {
    // A bibkey absent from the store is part of the closure but adds no
    // further edges.
    let entries = EntryStore::new(vec![
        create_rusted_bibentry("A", vec!["B"], vec![]),
        create_rusted_bibentry("B", vec!["GHOST"], vec![]),
    ]);
    let mut memo = ClosureMemo::new();
    let result = t_close(&"A".to_string(), &entries, &mut memo);
    assert_eq!(result.further_references_closed, "B,GHOST");
    assert_eq!(result.max_depth_reached, 2);
}

#[test]
fn test_shortcut_edge_depth_is_shortest_distance() {
    // A -> B -> C with a direct shortcut A -> C: C is discovered at
    // distance one, so the reported depth is the greatest shortest
    // distance, not the longest path.
    let entries = EntryStore::new(vec![
        create_rusted_bibentry("A", vec!["B", "C"], vec![]),
        create_rusted_bibentry("B", vec!["C"], vec![]),
        create_rusted_bibentry("C", vec![], vec![]),
    ]);
    let mut memo = ClosureMemo::new();
    let result = t_close(&"A".to_string(), &entries, &mut memo);
    assert_eq!(result.further_references_closed, "B,C");
    assert_eq!(result.max_depth_reached, 1);
}

#[test]
fn test_blank_only_references() {
    // Whitespace-only keys are filtered from the serialization but still
    // count as discovered nodes for the depth diagnostic.
    let entries = EntryStore::new(vec![create_rusted_bibentry("A", vec!["  "], vec![])]);
    let mut memo = ClosureMemo::new();
    let result = t_close(&"A".to_string(), &entries, &mut memo);
    assert_eq!(result.further_references_closed, "");
    assert_eq!(result.max_depth_reached, 1);
    assert_eq!(result.status, "success");
}

#[test]
fn test_trim_collision_keeps_both_items() {
    // Two distinct raw keys that trim to the same text each yield an item:
    // the serialization emits one item per raw closure member.
    let entries = EntryStore::new(vec![create_rusted_bibentry(
        "A",
        vec!["B", " B"],
        vec![],
    )]);
    let mut memo = ClosureMemo::new();
    let result = t_close(&"A".to_string(), &entries, &mut memo);
    assert_eq!(result.further_references_closed, "B,B");
}

#[test]
fn test_lexicographic_order_by_scalar_value() {
    // Digits sort before upper case, upper case before lower case.
    let entries = EntryStore::new(vec![create_rusted_bibentry(
        "A",
        vec!["b", "B", "1"],
        vec![],
    )]);
    let mut memo = ClosureMemo::new();
    let result = t_close(&"A".to_string(), &entries, &mut memo);
    assert_eq!(result.further_references_closed, "1,B,b");
}

#[test]
fn test_memoized_repeat_is_identical() {
    // A second request for the same key within one pass returns the cached
    // record verbatim.
    let entries = EntryStore::new(vec![
        create_rusted_bibentry("A", vec!["B"], vec![]),
        create_rusted_bibentry("B", vec![], vec![]),
    ]);
    let mut memo = ClosureMemo::new();
    let first = t_close(&"A".to_string(), &entries, &mut memo);
    let second = t_close(&"A".to_string(), &entries, &mut memo);
    assert_eq!(first.bibkey, second.bibkey);
    assert_eq!(
        first.further_references_closed,
        second.further_references_closed
    );
    assert_eq!(first.depends_on_closed, second.depends_on_closed);
    assert_eq!(first.max_depth_reached, second.max_depth_reached);
    assert_eq!(first.status, second.status);
}
