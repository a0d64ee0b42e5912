use kvs::files::{ascending_order, generation_name, generation_of, plan, Action};
use kvs::kv::KvStore;
use kvs::log::Generation;

fn text(s: &str) -> String {
    s.to_string()
}

fn lengths(store: &KvStore) -> Vec<(u64, u64)> {
    store.generations().iter().map(|g| (g.id, g.bytes.len() as u64)).collect()
}

#[test]
fn a_generation_file_is_named_by_its_number() {
    assert_eq!(generation_name(0), "0.log");
    assert_eq!(generation_name(7), "7.log");
    assert_eq!(generation_name(10), "10.log");
    assert_eq!(generation_name(1203), "1203.log");
    assert_eq!(generation_name(u64::MAX), "18446744073709551615.log");
}

#[test]
fn the_name_of_a_generation_file_gives_its_number() {
    assert_eq!(generation_of("0.log"), Some(0));
    assert_eq!(generation_of("7.log"), Some(7));
    assert_eq!(generation_of("1203.log"), Some(1203));
    assert_eq!(generation_of("18446744073709551615.log"), Some(u64::MAX));
}

#[test]
fn other_names_give_no_number() {
    assert_eq!(generation_of(""), None);
    assert_eq!(generation_of(".log"), None);
    assert_eq!(generation_of("log"), None);
    assert_eq!(generation_of("7"), None);
    assert_eq!(generation_of("7.txt"), None);
    assert_eq!(generation_of("7.LOG"), None);
    assert_eq!(generation_of("7.log.tmp"), None);
    assert_eq!(generation_of("7.logs"), None);
    assert_eq!(generation_of("07.log"), None);
    assert_eq!(generation_of("00.log"), None);
    assert_eq!(generation_of("+7.log"), None);
    assert_eq!(generation_of("-7.log"), None);
    assert_eq!(generation_of(" 7.log"), None);
    assert_eq!(generation_of("7 .log"), None);
    assert_eq!(generation_of("x.log"), None);
    assert_eq!(generation_of("7x.log"), None);
    assert_eq!(generation_of("\u{ff17}.log"), None);
    assert_eq!(generation_of("\u{e9}.log"), None);
    assert_eq!(generation_of("18446744073709551616.log"), None);
    assert_eq!(generation_of("99999999999999999999.log"), None);
    assert_eq!(generation_of("184467440737095516150.log"), None);
}

#[test]
fn names_and_numbers_go_back_and_forth() {
    for id in [0u64, 1, 9, 10, 11, 99, 100, 12345, 4294967296, u64::MAX - 1, u64::MAX] {
        assert_eq!(generation_of(&generation_name(id)), Some(id));
    }
    for name in ["0.log", "5.log", "60.log", "18446744073709551615.log"] {
        assert_eq!(generation_name(generation_of(name).unwrap()), name);
    }
}

#[test]
fn numbers_are_put_in_ascending_order() {
    assert_eq!(ascending_order(&Vec::new()), Vec::<u64>::new());
    assert_eq!(ascending_order(&vec![5]), vec![5]);
    assert_eq!(ascending_order(&vec![3, 1, 2]), vec![1, 2, 3]);
    assert_eq!(ascending_order(&vec![1, 2, 3]), vec![1, 2, 3]);
    assert_eq!(ascending_order(&vec![9, 7, 5, 3, 1]), vec![1, 3, 5, 7, 9]);
    assert_eq!(ascending_order(&vec![2, 1, 2, 0, 1]), vec![0, 1, 1, 2, 2]);
    assert_eq!(ascending_order(&vec![u64::MAX, 0, 10]), vec![0, 10, u64::MAX]);
}

#[test]
fn a_generation_without_a_file_is_created() {
    let generations = vec![Generation { id: 0, bytes: Vec::new() }];
    assert_eq!(plan(&Vec::new(), &generations), vec![Action::Create { generation: 0 }]);
}

#[test]
fn a_file_that_is_up_to_date_is_left_alone() {
    let generations = vec![Generation { id: 3, bytes: vec![2, 0, 0, 0, 0] }];
    assert_eq!(plan(&vec![(3, 5)], &generations), Vec::new());
    assert_eq!(plan(&vec![(3, 9)], &generations), Vec::new());
}

#[test]
fn a_file_that_is_short_gets_what_it_lacks() {
    let generations = vec![Generation { id: 3, bytes: vec![2, 0, 0, 0, 0] }];
    assert_eq!(plan(&vec![(3, 0)], &generations), vec![Action::Append { generation: 3, from: 0 }]);
    assert_eq!(plan(&vec![(3, 2)], &generations), vec![Action::Append { generation: 3, from: 2 }]);
}

#[test]
fn files_of_generations_not_held_are_taken_away_last() {
    let generations = vec![
        Generation { id: 4, bytes: vec![2, 0, 0, 0, 0] },
        Generation { id: 6, bytes: vec![2, 0, 0, 0, 0] },
    ];
    let files = vec![(1, 11), (4, 2), (2, 0), (5, 3)];
    assert_eq!(
        plan(&files, &generations),
        vec![
            Action::Append { generation: 4, from: 2 },
            Action::Create { generation: 6 },
            Action::Remove { generation: 1 },
            Action::Remove { generation: 2 },
            Action::Remove { generation: 5 },
        ]
    );
    assert_eq!(
        plan(&files, &Vec::new()),
        vec![
            Action::Remove { generation: 1 },
            Action::Remove { generation: 4 },
            Action::Remove { generation: 2 },
            Action::Remove { generation: 5 },
        ]
    );
}

#[test]
fn a_write_to_the_store_is_an_append_to_its_file() {
    let mut store = KvStore::open(Vec::new()).unwrap();
    assert_eq!(plan(&Vec::new(), store.generations()), vec![Action::Create { generation: 0 }]);
    let files = lengths(&store);
    store.set(text("a"), text("1")).unwrap();
    assert_eq!(plan(&files, store.generations()), vec![Action::Append { generation: 0, from: 0 }]);
    let files = lengths(&store);
    store.set(text("b"), text("2")).unwrap();
    assert_eq!(
        plan(&files, store.generations()),
        vec![Action::Append { generation: 0, from: 11 }]
    );
    assert_eq!(plan(&lengths(&store), store.generations()), Vec::new());
}

#[test]
fn a_compaction_is_a_new_file_and_then_the_end_of_the_old_ones() {
    let mut store = KvStore::open(vec![
        Generation { id: 2, bytes: Vec::new() },
        Generation { id: 5, bytes: Vec::new() },
    ]).unwrap();
    store.set(text("a"), text("1")).unwrap();
    store.set(text("a"), text("2")).unwrap();
    let files = lengths(&store);
    store.set(text("b"), text("3")).unwrap();
    store.compact().unwrap();
    assert_eq!(
        plan(&files, store.generations()),
        vec![
            Action::Create { generation: 6 },
            Action::Remove { generation: 2 },
            Action::Remove { generation: 5 },
        ]
    );
}
