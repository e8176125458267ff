use either::Either;

use rocksdb_table::access::{
    finish_lookups, plan_lookups, plan_write, Partitions, WriteKind,
};
use rocksdb_table::codec::{decode_be, encode_be};
use rocksdb_table::config::{NamedTable, TableConfig};
use rocksdb_table::error::{Error, TableConfigError};
use rocksdb_table::iter::{collect_entries, collect_selected, RawItem};
use rocksdb_table::mode::ModeType;
use rocksdb_table::table::{Indexed, Table};
use rocksdb_table::tables::{CountTable, ScoreTable};

fn score_item(key: (u16, u32), value_bytes: Vec<u8>) -> RawItem {
    Ok((ScoreTable::key_to_bytes(&key).unwrap(), value_bytes))
}

#[test]
fn score_codec_round_trip() {
    for key in [(0u16, 0u32), (1, 100), (u16::MAX, u32::MAX), (258, 16909060)] {
        let bytes = ScoreTable::key_to_bytes(&key).unwrap();
        assert_eq!(bytes.len(), 6);
        assert_eq!(ScoreTable::bytes_to_key(&bytes).unwrap(), key);
    }
    for value in [0i64, 1, -1, i64::MIN, i64::MAX, 314] {
        let bytes = ScoreTable::value_to_bytes(&value).unwrap();
        assert_eq!(ScoreTable::bytes_to_value(&bytes).unwrap(), value);
    }
    assert_eq!(
        ScoreTable::key_to_bytes(&(258, 16909060)).unwrap(),
        vec![1, 2, 1, 2, 3, 4]
    );
    assert_eq!(
        ScoreTable::value_to_bytes(&-2).unwrap(),
        vec![255, 255, 255, 255, 255, 255, 255, 254]
    );
}

#[test]
fn count_codec_round_trip() {
    for key in [(0u64, 0u32), (123, 1693225042), (u64::MAX, u32::MAX)] {
        let bytes = CountTable::key_to_bytes(&key).unwrap();
        assert_eq!(bytes.len(), 12);
        assert_eq!(CountTable::bytes_to_key(&bytes).unwrap(), key);
    }
    for value in [0u32, 214, u32::MAX] {
        let bytes = CountTable::value_to_bytes(&value).unwrap();
        assert_eq!(CountTable::bytes_to_value(&bytes).unwrap(), value);
    }
    assert_eq!(CountTable::index_to_bytes(&123), vec![0, 0, 0, 0, 0, 0, 0, 123]);
}

#[test]
fn big_endian_helpers() {
    assert_eq!(encode_be(0x0102_0304, 4), vec![1, 2, 3, 4]);
    assert_eq!(encode_be(0x0102_0304, 2), vec![3, 4]);
    assert_eq!(encode_be(7, 0), Vec::<u8>::new());
    assert_eq!(decode_be(&[9, 1, 2, 3, 4], 1, 5), 0x0102_0304);
    assert_eq!(decode_be(&[255; 8], 0, 8), u64::MAX);
}

#[test]
fn key_order_is_byte_order() {
    let keys: Vec<(u16, u32)> = vec![(0, 5), (0, 256), (1, 0), (1, 1), (255, 0), (256, 0)];
    for pair in keys.windows(2) {
        let a = ScoreTable::key_to_bytes(&pair[0]).unwrap();
        let b = ScoreTable::key_to_bytes(&pair[1]).unwrap();
        assert!(a < b);
    }
    let a = CountTable::key_to_bytes(&(255, u32::MAX)).unwrap();
    let b = CountTable::key_to_bytes(&(256, 0)).unwrap();
    assert!(a < b);
}

#[test]
fn malformed_bytes_are_reported() {
    assert_eq!(
        ScoreTable::bytes_to_key(&[1, 2, 3]),
        Err(Error::InvalidKey(vec![1, 2, 3]))
    );
    assert_eq!(
        ScoreTable::bytes_to_value(&[1, 2, 3, 4, 5, 6, 7]),
        Err(Error::InvalidValue(vec![1, 2, 3, 4, 5, 6, 7]))
    );
    assert_eq!(CountTable::bytes_to_key(&[]), Err(Error::InvalidKey(vec![])));
    assert_eq!(
        CountTable::bytes_to_value(&[0, 0, 0, 0, 1]),
        Err(Error::InvalidValue(vec![0, 0, 0, 0, 1]))
    );
}

#[test]
fn scan_stops_at_first_error() {
    let items = vec![
        score_item((1, 1), vec![0; 8]),
        Ok((vec![1, 2], vec![0; 8])),
        score_item((1, 3), vec![0; 8]),
    ];
    assert_eq!(
        collect_entries::<ScoreTable>(None, items),
        Err(Error::InvalidKey(vec![1, 2]))
    );

    let items = vec![
        score_item((1, 1), vec![0; 8]),
        Err(Error::Db("io".to_string())),
        score_item((1, 3), vec![1]),
    ];
    assert_eq!(
        collect_entries::<ScoreTable>(None, items),
        Err(Error::Db("io".to_string()))
    );
}

#[test]
fn scan_bound_to_prefix_ignores_what_follows() {
    let items = vec![
        score_item((4, 1), vec![0, 0, 0, 0, 0, 0, 0, 1]),
        score_item((5, 1), vec![9]),
        Err(Error::Db("never read".to_string())),
    ];
    assert_eq!(
        collect_entries::<ScoreTable>(Some(&[0, 4]), items),
        Ok(vec![((4, 1), 1)])
    );
}

#[test]
fn selective_scan_skips_unselected_values() {
    let items = vec![
        score_item((1, 1), vec![0, 0, 0, 0, 0, 0, 0, 10]),
        score_item((2, 1), vec![1, 2, 3]),
        score_item((3, 1), vec![0, 0, 0, 0, 0, 0, 0, 30]),
    ];
    let skip_two = |k: &(u16, u32)| k.0 != 2;
    assert_eq!(
        collect_selected::<ScoreTable, _>(None, items.clone(), skip_two),
        Ok(vec![
            Either::Left(((1, 1), 10)),
            Either::Right((2, 1)),
            Either::Left(((3, 1), 30)),
        ])
    );
    let take_all = |_: &(u16, u32)| true;
    assert_eq!(
        collect_selected::<ScoreTable, _>(None, items.clone(), take_all),
        Err(Error::InvalidValue(vec![1, 2, 3]))
    );
    let take_none = |_: &(u16, u32)| false;
    assert_eq!(
        collect_selected::<ScoreTable, _>(Some(&[0, 2]), items, take_none),
        Ok(vec![])
    );
}

#[test]
fn additive_merge_in_any_grouping() {
    let a = CountTable::value_to_bytes(&100).unwrap();
    let b = CountTable::value_to_bytes(&200).unwrap();
    let c = CountTable::value_to_bytes(&14).unwrap();

    let at_once = CountTable::associative_merge(None, &vec![a.clone(), b.clone(), c.clone()]);
    let ab = CountTable::associative_merge(None, &vec![a.clone(), b.clone()]).unwrap();
    let ab_then_c = CountTable::associative_merge(Some(&ab), &vec![c.clone()]);
    let a_only = CountTable::associative_merge(None, &vec![a.clone()]).unwrap();
    let a_then_bc = CountTable::associative_merge(Some(&a_only), &vec![b.clone(), c.clone()]);

    assert_eq!(CountTable::bytes_to_value(&at_once.clone().unwrap()), Ok(314));
    assert_eq!(at_once, ab_then_c);
    assert_eq!(at_once, a_then_bc);

    let wraps = CountTable::associative_merge(
        Some(&CountTable::value_to_bytes(&u32::MAX).unwrap()),
        &vec![CountTable::value_to_bytes(&2).unwrap()],
    );
    assert_eq!(wraps, Some(vec![0, 0, 0, 1]));
    assert_eq!(CountTable::associative_merge(None, &vec![]), Some(vec![0, 0, 0, 0]));
    assert_eq!(CountTable::associative_merge(None, &vec![vec![1, 2]]), None);
    assert_eq!(CountTable::associative_merge(Some(&[1]), &vec![a]), None);
    assert_eq!(ScoreTable::associative_merge(None, &vec![b]), None);
    assert_eq!(CountTable::merge_name(), Some("addition".to_string()));
    assert_eq!(ScoreTable::merge_name(), None);
}

#[test]
fn read_only_handles_refuse_writes() {
    let table = NamedTable::<ScoreTable>::new_cf("scores");
    let parts = Partitions::from_settings(&TableConfig::new(&table).open_settings());
    let missing = NamedTable::<ScoreTable>::new_cf("missing");
    for mode in [ModeType::ReadOnly, ModeType::Secondary] {
        for kind in [WriteKind::Put, WriteKind::Merge] {
            assert!(matches!(
                plan_write(mode, &parts, &table, kind, &(1, 1), &1),
                Err(Error::NotWriteable(m)) if m == mode
            ));
            assert!(matches!(
                plan_write(mode, &parts, &missing, kind, &(1, 1), &1),
                Err(Error::NotWriteable(m)) if m == mode
            ));
        }
    }
    for mode in [ModeType::Writeable, ModeType::Transactional] {
        let write = plan_write(mode, &parts, &table, WriteKind::Merge, &(1, 2), &3).unwrap();
        assert_eq!(write.kind, WriteKind::Merge);
        assert_eq!(write.key, vec![0, 1, 0, 0, 0, 2]);
        assert_eq!(write.value, vec![0, 0, 0, 0, 0, 0, 0, 3]);
    }
}

#[test]
fn mode_capabilities() {
    assert!(!ModeType::ReadOnly.is_primary());
    assert!(!ModeType::Secondary.is_primary());
    assert!(ModeType::Writeable.is_primary());
    assert!(ModeType::Transactional.is_primary());
    assert!(ModeType::Secondary.can_catch_up());
    assert!(!ModeType::Writeable.can_catch_up());
    assert!(ModeType::ReadOnly.is_read_only());
    assert_eq!(ModeType::ReadOnly.check_writeable(), Err(Error::NotWriteable(ModeType::ReadOnly)));
    assert_eq!(ModeType::Writeable.check_writeable(), Ok(()));
}

#[test]
fn unknown_partition_is_an_error() {
    let known = NamedTable::<CountTable>::new_cf("known");
    let parts = Partitions::from_settings(&TableConfig::new(&known).open_settings());
    let unknown = NamedTable::<CountTable>::new_cf("unknown");
    assert!(matches!(
        plan_write(ModeType::Writeable, &parts, &unknown, WriteKind::Put, &(1, 1), &1),
        Err(Error::InvalidCfName(name)) if name == "unknown"
    ));
    assert!(matches!(
        plan_lookups(&parts, &unknown, &vec![(1, 1)]),
        Err(Error::InvalidCfName(name)) if name == "unknown"
    ));
    let default = NamedTable::<CountTable>::new();
    assert!(matches!(
        parts.resolve(&default),
        Ok(rocksdb_table::access::Target::Default)
    ));
    assert!(parts.contains(&"known".to_string()));
    assert!(!parts.contains(&"default".to_string()));
}

#[test]
fn batched_lookup_keeps_order_and_cardinality() {
    let table = NamedTable::<CountTable>::new_cf("counts");
    let parts = Partitions::from_settings(&TableConfig::new(&table).open_settings());
    let keys: Vec<(u64, u32)> = vec![(2, 2), (1, 1), (2, 2)];
    let plan = plan_lookups(&parts, &table, &keys).unwrap();
    assert_eq!(plan.keys.len(), 3);
    assert_eq!(plan.keys[0], plan.keys[2]);
    assert_eq!(plan.keys[1], CountTable::key_to_bytes(&(1, 1)).unwrap());

    let found = finish_lookups::<CountTable>(vec![
        Ok(Some(vec![0, 0, 0, 5])),
        Ok(None),
        Ok(Some(vec![0, 0, 0, 5])),
    ]);
    assert_eq!(found, Ok(vec![Some(5), None, Some(5)]));

    let faulty = finish_lookups::<CountTable>(vec![
        Ok(None),
        Ok(Some(vec![1])),
        Err(Error::Db("later".to_string())),
    ]);
    assert_eq!(faulty, Err(Error::InvalidValue(vec![1])));
    let engine = finish_lookups::<CountTable>(vec![Err(Error::Db("first".to_string()))]);
    assert_eq!(engine, Err(Error::Db("first".to_string())));
}

#[test]
fn table_config_rules() {
    let a = NamedTable::<CountTable>::new_cf("a");
    let b = NamedTable::<ScoreTable>::new_cf("b");
    let default = NamedTable::<ScoreTable>::new();

    let config = TableConfig::new(&a).with(&b).unwrap();
    let settings = config.open_settings();
    assert!(settings.create_if_missing);
    assert!(settings.create_missing_column_families);
    assert_eq!(settings.base.prefix_len, None);
    assert_eq!(settings.base.merge_operator, None);
    assert_eq!(settings.cf_descriptors.len(), 2);
    assert_eq!(settings.cf_descriptors[0].name, "a");
    assert_eq!(settings.cf_descriptors[0].options.prefix_len, Some(8));
    assert_eq!(
        settings.cf_descriptors[0].options.merge_operator,
        Some("addition".to_string())
    );
    assert_eq!(settings.cf_descriptors[1].name, "b");
    assert_eq!(settings.cf_descriptors[1].options.prefix_len, Some(2));
    assert_eq!(settings.cf_descriptors[1].options.merge_operator, None);

    assert!(matches!(
        TableConfig::new(&a).with(&default),
        Err(TableConfigError::ExpectedSingleTable)
    ));
    assert!(matches!(
        TableConfig::new(&default).with(&a),
        Err(TableConfigError::ExpectedNamedTable)
    ));
    let again = NamedTable::<ScoreTable>::new_cf("a");
    assert!(matches!(
        TableConfig::new(&a).with(&b).unwrap().with(&again),
        Err(TableConfigError::DuplicateCfName(name)) if name == "a"
    ));

    let single = TableConfig::new(&default).open_settings();
    assert!(single.create_if_missing);
    assert!(!single.create_missing_column_families);
    assert!(single.cf_descriptors.is_empty());
    assert_eq!(single.base.prefix_len, Some(2));
    assert_eq!(default.name(), None);
    assert_eq!(a.name(), Some("a"));
}
