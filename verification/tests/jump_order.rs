use cargo_arc::diagnose::order::order_cycle_blocks;
use cargo_arc::layout::jump::{JumpTable, Location, LocationId};

#[test]
fn orders_by_start_then_length_then_lexicographic_rest() {
    // a=0, b=1, c=2, d=3; rank is the node's own value.
    let cycles = vec![vec![0, 1, 2], vec![0, 1, 3], vec![0, 1, 2, 3]];
    let ordered = order_cycle_blocks(&cycles, |n: usize| n);
    assert_eq!(
        ordered,
        vec![vec![0, 1, 2], vec![0, 1, 3], vec![0, 1, 2, 3]]
    );
}

#[test]
fn rotates_each_cycle_to_its_rank_smallest_node() {
    // c=2, a=0, b=1: rotates to start at a.
    let cycles = vec![vec![2, 0, 1]];
    let ordered = order_cycle_blocks(&cycles, |n: usize| n);
    assert_eq!(ordered, vec![vec![0, 1, 2]]);
}

#[test]
fn equal_keys_keep_their_input_order() {
    // Both rotate to [0, 5]: the first one given stays first.
    let cycles = vec![vec![5, 0], vec![0, 5], vec![1, 2]];
    let ordered = order_cycle_blocks(&cycles, |n: usize| n);
    assert_eq!(ordered, vec![vec![0, 5], vec![0, 5], vec![1, 2]]);
}

#[test]
fn rank_not_value_decides_the_rotation() {
    // Rank reverses the numbers: 9 ranks first.
    let cycles = vec![vec![1, 9, 4]];
    let ordered = order_cycle_blocks(&cycles, |n: usize| 100 - n);
    assert_eq!(ordered, vec![vec![9, 4, 1]]);
}

#[test]
fn table_assigns_sequential_ids_and_resolves_them() {
    let mut table = JumpTable::new();
    let a = table.insert("src/lib.rs".to_string(), 1);
    let b = table.insert("src/main.rs".to_string(), 1);

    assert_eq!(a, LocationId::from(0));
    assert_eq!(b, LocationId::from(1));
    assert_eq!(
        table.resolve(a),
        Some(&Location {
            file: "src/lib.rs".to_string(),
            line: 1
        })
    );
    assert_eq!(
        table.resolve(b),
        Some(&Location {
            file: "src/main.rs".to_string(),
            line: 1
        })
    );
    assert_eq!(table.resolve(LocationId::from(2)), None);
}

#[test]
fn location_id_converts_from_the_query_number_a_service_receives() {
    let mut table = JumpTable::new();
    table.insert("src/lib.rs".to_string(), 1);
    let b = table.insert("src/main.rs".to_string(), 1);

    assert_eq!(table.resolve(LocationId::from(1)), table.resolve(b));
    assert_eq!(table.resolve(LocationId::from(usize::MAX)), None);
}

#[test]
fn node_at_finds_the_node_whose_targets_a_file_was_registered_under() {
    let mut table = JumpTable::new();
    let lib = table.insert("/ws/app/src/lib.rs".to_string(), 1);
    let manifest = table.insert("/ws/app/Cargo.toml".to_string(), 1);
    let module = table.insert("src/mod_a.rs".to_string(), 1);
    table.insert_node_files("0", &[lib, manifest]);
    table.insert_node_files("1", &[module, LocationId::from(9)]);

    assert_eq!(table.node_at("/ws/app/src/lib.rs"), Some("0"));
    assert_eq!(table.node_at("/ws/app/Cargo.toml"), Some("0"));
    assert_eq!(table.node_at("src/mod_a.rs"), Some("1"));
    assert_eq!(table.node_at("src/other.rs"), None);
}

#[test]
fn ids_at_lists_every_entry_on_a_line_in_insertion_order() {
    let mut table = JumpTable::new();
    let first = table.insert("src/lib.rs".to_string(), 3);
    table.insert("src/lib.rs".to_string(), 4);
    let third = table.insert("src/lib.rs".to_string(), 3);
    table.insert("src/main.rs".to_string(), 3);

    assert_eq!(table.ids_at("src/lib.rs", 3), vec![first, third]);
    assert_eq!(table.ids_at("src/lib.rs", 9), Vec::<LocationId>::new());
    assert_eq!(table.ids_at("src/nope.rs", 3), Vec::<LocationId>::new());
}

#[test]
fn a_resolved_id_gives_back_what_was_inserted() {
    let mut table = JumpTable::new();
    let id = table.insert("src/x.rs".to_string(), 42);
    let loc = table.resolve(id).expect("an inserted id resolves");
    assert_eq!(loc.file, "src/x.rs");
    assert_eq!(loc.line, 42);
}
