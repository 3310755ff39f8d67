use kbdi::sync::{flatten_inputs, regenerate, Substitute};

fn sub(name: &str, data: &str) -> Substitute {
    Substitute { name: name.to_string(), data: data.to_string() }
}

fn names(v: &[&str]) -> Vec<String> {
    v.iter().map(|s| s.to_string()).collect()
}

#[test]
fn substitution_wins_over_direct_tip() {
    let plan = regenerate(&names(&["0c09:00000409"]), &vec![sub("00000c09", "00000409")]);
    assert_eq!(plan.preload.len(), 1);
    assert_eq!(plan.preload[0].name.as_str(), "1");
    assert_eq!(plan.preload[0].value.as_str(), "00000c09");
    assert!(plan.deleted.is_empty());
    assert_eq!(plan.retained.len(), 1);
}

#[test]
fn without_matching_substitution_the_tip_is_written() {
    let plan = regenerate(&names(&["0c09:00000409"]), &vec![]);
    assert_eq!(plan.preload.len(), 1);
    assert_eq!(plan.preload[0].name.as_str(), "1");
    assert_eq!(plan.preload[0].value.as_str(), "00000409");
}

#[test]
fn substitution_keyed_elsewhere_does_not_apply() {
    // The row's target keyboard is configured, so it survives the pruning,
    // but it is keyed by another locale id: the item is written directly.
    let plan = regenerate(&names(&["0c09:00000409"]), &vec![sub("00000409", "00000409")]);
    assert_eq!(plan.retained.len(), 1);
    assert_eq!(plan.preload[0].value.as_str(), "00000409");
}

#[test]
fn pruned_substitution_does_not_take_precedence() {
    // The row is keyed by the item's locale id, but its target keyboard is
    // stale: the row is pruned, so the item is written directly.
    let plan = regenerate(&names(&["0c09:00000409"]), &vec![sub("00000c09", "deadbeef")]);
    assert_eq!(plan.deleted.len(), 1);
    assert!(plan.retained.is_empty());
    assert_eq!(plan.preload[0].value.as_str(), "00000409");
}

#[test]
fn stale_substitution_is_pruned() {
    let plan = regenerate(
        &names(&["0c09:00000409"]),
        &vec![sub("00000c09", "00000409"), sub("00002000", "deadbeef")],
    );
    assert_eq!(plan.retained.len(), 1);
    assert_eq!(plan.retained[0].name.as_str(), "00000c09");
    assert_eq!(plan.deleted.len(), 1);
    assert_eq!(plan.deleted[0].name.as_str(), "00002000");
}

#[test]
fn second_regeneration_changes_nothing() {
    let raw = names(&["0c09:00000409", "2000:a0010402"]);
    let first = regenerate(
        &raw,
        &vec![sub("00000c09", "00000409"), sub("00002000", "deadbeef")],
    );
    assert_eq!(first.deleted.len(), 1);
    let second = regenerate(&raw, &first.retained);
    assert!(second.deleted.is_empty());
    assert_eq!(second.retained.len(), first.retained.len());
    assert_eq!(second.preload.len(), first.preload.len());
    for (a, b) in first.preload.iter().zip(second.preload.iter()) {
        assert_eq!(a.name, b.name);
        assert_eq!(a.value, b.value);
    }
}

#[test]
fn preload_ordinals_are_contiguous_from_one() {
    let plan = regenerate(
        &names(&["0c09:00000409", "2000:a0010402", "1000:a0020403"]),
        &vec![],
    );
    let keys: Vec<&str> = plan.preload.iter().map(|e| e.name.as_str()).collect();
    assert_eq!(keys, vec!["1", "2", "3"]);
}

#[test]
fn registry_noise_is_ignored() {
    let plan = regenerate(
        &names(&["CachedLanguageName", "0c09:00000409", "not:valid", "2000:a0010402"]),
        &vec![],
    );
    assert_eq!(plan.preload.len(), 2);
    assert_eq!(plan.preload[0].value.as_str(), "00000409");
    assert_eq!(plan.preload[1].value.as_str(), "a0010402");
}

#[test]
fn empty_configuration_clears_preload_and_all_substitutions() {
    let plan = regenerate(&names(&[]), &vec![sub("00000c09", "00000409")]);
    assert!(plan.preload.is_empty());
    assert!(plan.retained.is_empty());
    assert_eq!(plan.deleted.len(), 1);
}

#[test]
fn flatten_keeps_language_then_insertion_order() {
    let per = vec![
        names(&["0c09:00000409", "0c09:a0000401"]),
        names(&[]),
        names(&["2000:a0010402"]),
    ];
    let flat = flatten_inputs(&per);
    let got: Vec<&str> = flat.iter().map(|s| s.as_str()).collect();
    assert_eq!(got, vec!["0c09:00000409", "0c09:a0000401", "2000:a0010402"]);
}

#[test]
fn duplicate_items_across_languages_are_written_once_per_occurrence() {
    // The synchronizer itself does not deduplicate: the preload mirrors the
    // flattened item sequence one ordinal per entry.
    let plan = regenerate(&names(&["0c09:00000409", "0c09:00000409"]), &vec![]);
    assert_eq!(plan.preload.len(), 2);
    assert_eq!(plan.preload[1].name.as_str(), "2");
}
