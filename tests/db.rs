use std::collections::BTreeMap;

use rocksdb_table::access::{
    finish_lookup, plan_index_scan, plan_lookup, plan_scan, plan_write, Partitions, Target,
    WriteKind,
};
use rocksdb_table::config::{NamedTable, TableConfig};
use rocksdb_table::iter::{collect_entries, RawItem};
use rocksdb_table::mode::ModeType;
use rocksdb_table::table::Table;
use rocksdb_table::tables::{CountTable, ScoreTable};

/// An ordered byte store per partition, standing in for the engine.
struct Store {
    parts: BTreeMap<Option<String>, BTreeMap<Vec<u8>, Vec<u8>>>,
}

fn partition_of(target: &Target) -> Option<String> {
    match target {
        Target::Default => None,
        Target::Named(name) => Some(name.clone()),
    }
}

impl Store {
    fn new() -> Self {
        Store { parts: BTreeMap::new() }
    }

    fn apply<T: Table>(&mut self, write: rocksdb_table::access::Write) {
        let part = self.parts.entry(partition_of(&write.target)).or_default();
        match write.kind {
            WriteKind::Put => {
                part.insert(write.key, write.value);
            }
            WriteKind::Merge => {
                let existing = part.get(&write.key).cloned();
                let merged =
                    T::associative_merge(existing.as_deref(), &vec![write.value]).unwrap();
                part.insert(write.key, merged);
            }
        }
    }

    fn get(&self, target: &Target, key: &[u8]) -> Option<Vec<u8>> {
        self.parts.get(&partition_of(target)).and_then(|p| p.get(key).cloned())
    }

    /// The cursor after a seek to `from`: every stored item whose key is not below it.
    fn cursor(&self, target: &Target, from: &[u8]) -> Vec<RawItem> {
        match self.parts.get(&partition_of(target)) {
            None => vec![],
            Some(p) => p
                .range(from.to_vec()..)
                .map(|(k, v)| Ok((k.clone(), v.clone())))
                .collect(),
        }
    }
}

#[test]
fn db() {
    let table_foo = NamedTable::<CountTable>::new_cf("foo");
    let table_bar = NamedTable::<CountTable>::new_cf("bar");
    let config = TableConfig::new(&table_foo).with(&table_bar).unwrap();
    let settings = config.open_settings();
    let parts = Partitions::from_settings(&settings);
    let mut store = Store::new();

    let values: Vec<((u64, u32), u32)> = vec![
        ((123, 1693225042), 100),
        ((456, 1693222131), 200),
        ((456, 1693222131), 14),
        ((123, 1693226042), 100),
    ];
    let expected_values: Vec<((u64, u32), u32)> = vec![
        ((123, 1693225042), 100),
        ((123, 1693226042), 100),
        ((456, 1693222131), 214),
    ];

    for (key, count) in &values {
        let write = plan_write(
            ModeType::Writeable,
            &parts,
            &table_foo,
            WriteKind::Merge,
            key,
            count,
        )
        .unwrap();
        store.apply::<CountTable>(write);
    }

    let scan = plan_scan(&parts, &table_foo).unwrap();
    let read_values =
        collect_entries::<CountTable>(None, store.cursor(&scan.target, &[])).unwrap();

    let scan_123 = plan_index_scan::<8, CountTable>(&parts, &table_foo, &123).unwrap();
    let prefix = scan_123.prefix.clone().unwrap();
    let read_values_123 =
        collect_entries::<CountTable>(Some(&prefix), store.cursor(&scan_123.target, &prefix))
            .unwrap();

    let expected_values_123 = expected_values[0..2].to_vec();

    assert_eq!(read_values, expected_values);
    assert_eq!(read_values_123, expected_values_123);

    let scan_bar = plan_scan(&parts, &table_bar).unwrap();
    assert_eq!(
        collect_entries::<CountTable>(None, store.cursor(&scan_bar.target, &[])).unwrap(),
        vec![]
    );
}

#[test]
fn end_to_end_indexed_partition() {
    let scores = NamedTable::<ScoreTable>::new_cf("scores");
    let settings = TableConfig::new(&scores).open_settings();
    assert_eq!(settings.cf_descriptors.len(), 1);
    assert_eq!(settings.cf_descriptors[0].options.prefix_len, Some(2));
    let parts = Partitions::from_settings(&settings);
    let mut store = Store::new();

    let entries: Vec<((u16, u32), i64)> = vec![((2, 50), 67), ((1, 200), 66), ((1, 100), 65)];
    for (key, value) in &entries {
        let write = plan_write(
            ModeType::Writeable,
            &parts,
            &scores,
            WriteKind::Put,
            key,
            value,
        )
        .unwrap();
        store.apply::<ScoreTable>(write);
    }

    let scan = plan_scan(&parts, &scores).unwrap();
    let all = collect_entries::<ScoreTable>(None, store.cursor(&scan.target, &[])).unwrap();
    assert_eq!(all, vec![((1, 100), 65), ((1, 200), 66), ((2, 50), 67)]);

    let by_index = plan_index_scan::<2, ScoreTable>(&parts, &scores, &1).unwrap();
    let prefix = by_index.prefix.clone().unwrap();
    assert_eq!(prefix, vec![0, 1]);
    let ones =
        collect_entries::<ScoreTable>(Some(&prefix), store.cursor(&by_index.target, &prefix))
            .unwrap();
    assert_eq!(ones, vec![((1, 100), 65), ((1, 200), 66)]);
}

#[test]
fn last_write_wins() {
    let scores = NamedTable::<ScoreTable>::new();
    let settings = TableConfig::new(&scores).open_settings();
    let parts = Partitions::from_settings(&settings);
    let mut store = Store::new();

    for value in [5i64, -9, 7] {
        let write = plan_write(
            ModeType::Transactional,
            &parts,
            &scores,
            WriteKind::Put,
            &(3, 4),
            &value,
        )
        .unwrap();
        assert_eq!(write.target, Target::Default);
        store.apply::<ScoreTable>(write);
    }

    let lookup = plan_lookup(&parts, &scores, &(3, 4)).unwrap();
    let found = finish_lookup::<ScoreTable>(store.get(&lookup.target, &lookup.key)).unwrap();
    assert_eq!(found, Some(7));

    let scan = plan_scan(&parts, &scores).unwrap();
    let all = collect_entries::<ScoreTable>(None, store.cursor(&scan.target, &[])).unwrap();
    assert_eq!(all, vec![((3, 4), 7)]);
}

#[test]
fn index_scan_returns_exactly_matching_entries() {
    let counts = NamedTable::<CountTable>::new_cf("counts");
    let settings = TableConfig::new(&counts).open_settings();
    let parts = Partitions::from_settings(&settings);
    let mut store = Store::new();

    let keys: Vec<(u64, u32)> = vec![(7, 3), (6, 9), (7, 1), (8, 0), (7, u32::MAX), (256, 7)];
    for (n, key) in keys.iter().enumerate() {
        let write = plan_write(
            ModeType::Writeable,
            &parts,
            &counts,
            WriteKind::Put,
            key,
            &(n as u32),
        )
        .unwrap();
        store.apply::<CountTable>(write);
    }

    let scan = plan_index_scan::<8, CountTable>(&parts, &counts, &7).unwrap();
    let prefix = scan.prefix.clone().unwrap();
    let sevens =
        collect_entries::<CountTable>(Some(&prefix), store.cursor(&scan.target, &prefix)).unwrap();
    assert_eq!(sevens, vec![((7, 1), 2), ((7, 3), 0), ((7, u32::MAX), 4)]);

    let scan_none = plan_index_scan::<8, CountTable>(&parts, &counts, &5).unwrap();
    let prefix_none = scan_none.prefix.clone().unwrap();
    let none = collect_entries::<CountTable>(
        Some(&prefix_none),
        store.cursor(&scan_none.target, &prefix_none),
    )
    .unwrap();
    assert_eq!(none, vec![]);
}
