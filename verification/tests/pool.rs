use step_io_blueprint::infer::pool::{
    missing_entries_message, missing_file_message, validate, PoolEntry, Validation,
};
use step_io_blueprint::names::{NameSet, Table};

fn name_set(names: &[&str]) -> NameSet {
    let mut out = NameSet::new();
    for n in names {
        out.insert(n.to_string());
    }
    out
}

fn provided_map(pairs: &[(&str, &str)]) -> Table<PoolEntry> {
    let mut out = Table::new();
    for (k, v) in pairs {
        out.insert(k.to_string(), PoolEntry { pool: v.to_string() });
    }
    out
}

#[test]
fn validate_complete_match_counts_pools() {
    let required = name_set(&["cartesian_point", "line", "face_bound"]);
    let provided = provided_map(&[
        ("cartesian_point", "geometry"),
        ("line", "geometry"),
        ("face_bound", "topology"),
    ]);
    match validate(&required, &provided) {
        Validation::Complete {
            distinct_pools,
            extras,
        } => {
            assert_eq!(distinct_pools, 2);
            assert!(extras.is_empty());
        }
        Validation::Missing(_) => panic!("expected Ok"),
    }
}

#[test]
fn pool_validate_missing_entry_returns_missing_list() {
    let required = name_set(&["cartesian_point", "line"]);
    let provided = provided_map(&[("cartesian_point", "geometry")]);
    match validate(&required, &provided) {
        Validation::Missing(missing) => {
            assert_eq!(missing, vec!["line".to_string()]);
        }
        Validation::Complete { .. } => panic!("expected Missing"),
    }
}

#[test]
fn pool_validate_extra_entry_passes_with_warning_payload() {
    let required = name_set(&["cartesian_point"]);
    let provided = provided_map(&[
        ("cartesian_point", "geometry"),
        ("ghost_arena", "junk"),
    ]);
    match validate(&required, &provided) {
        Validation::Complete {
            distinct_pools,
            extras,
        } => {
            assert_eq!(distinct_pools, 1);
            assert_eq!(extras, vec!["ghost_arena".to_string()]);
        }
        Validation::Missing(_) => panic!("expected Ok"),
    }
}

#[test]
fn pool_missing_file_message_lists_required() {
    let required = name_set(&["cartesian_point", "line"]);
    let msg = missing_file_message(&required);
    assert!(msg.contains("cartesian_point"));
    assert!(msg.contains("line"));
    assert!(msg.contains("required arenas (2)"));
}

#[test]
fn pool_missing_entries_message_lists_missing() {
    let msg = missing_entries_message(&vec!["line".into()]);
    assert!(msg.contains("line"));
    assert!(msg.contains("missing 1 required"));
}
