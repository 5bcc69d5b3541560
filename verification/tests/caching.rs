use arrow::array::Array;
use indexmap::IndexMap;
use meta_cache::cache::{ColumnBatch, CreateMetaCacheArgs, MetaCache};
use meta_cache::config::{
    ColumnDefinition, ColumnType, ConfigError, ConfigMismatch, FieldType, MaxAge, MaxCardinality,
    TableDefinition,
};
use meta_cache::predicate::Predicate;
use meta_cache::row::{Field, FieldData, Row};

const HOUR_NS: i64 = 3_600_000_000_000;

fn table() -> TableDefinition {
    TableDefinition {
        columns: vec![
            ColumnDefinition { id: 0, name: "t1".to_string(), data_type: ColumnType::Tag },
            ColumnDefinition { id: 1, name: "t2".to_string(), data_type: ColumnType::Tag },
            ColumnDefinition {
                id: 2,
                name: "f1".to_string(),
                data_type: ColumnType::Field(FieldType::Integer),
            },
            ColumnDefinition {
                id: 3,
                name: "s1".to_string(),
                data_type: ColumnType::Field(FieldType::String),
            },
            ColumnDefinition { id: 4, name: "time".to_string(), data_type: ColumnType::Timestamp },
        ],
    }
}

fn cache_over(ids: Vec<u32>, max_cardinality: usize, max_age_secs: u64) -> MetaCache {
    MetaCache::new(CreateMetaCacheArgs {
        table_def: table(),
        max_cardinality: MaxCardinality::try_from(max_cardinality).unwrap(),
        max_age: MaxAge::from_secs(max_age_secs),
        column_ids: ids,
    })
    .unwrap()
}

fn two_tag_cache() -> MetaCache {
    cache_over(vec![0, 1], 10, 3600)
}

fn row(t1: &str, t2: &str, time: i64) -> Row {
    Row {
        time,
        fields: vec![
            Field { id: 0, value: FieldData::Tag(t1.to_string()) },
            Field { id: 1, value: FieldData::Tag(t2.to_string()) },
            Field { id: 2, value: FieldData::Integer(7) },
        ],
    }
}

fn rows_of(batch: &ColumnBatch) -> Vec<Vec<String>> {
    let n = batch.columns[0].len();
    for c in &batch.columns {
        assert_eq!(c.len(), n);
    }
    (0..n)
        .map(|r| batch.columns.iter().map(|c| c[r].as_str().to_string()).collect())
        .collect()
}

fn strings(rows: &[(&str, &str)]) -> Vec<Vec<String>> {
    rows.iter().map(|(a, b)| vec![a.to_string(), b.to_string()]).collect()
}

fn filled() -> MetaCache {
    let mut cache = two_tag_cache();
    cache.push(&row("a", "x", 1000));
    cache.push(&row("a", "y", 2000));
    cache.push(&row("b", "x", 3000));
    cache
}

#[test]
fn reads_rows_in_ascending_order() {
    let cache = filled();
    let batch = cache.to_record_batch(&IndexMap::new(), 4000);
    assert_eq!(rows_of(&batch), strings(&[("a", "x"), ("a", "y"), ("b", "x")]));
    assert_eq!(cache.cardinality(), 3);
}

#[test]
fn batch_carries_the_column_names_in_order() {
    let cache = filled();
    let batch = cache.to_record_batch(&IndexMap::new(), 4000);
    assert_eq!(batch.names, vec!["t1".to_string(), "t2".to_string()]);
    assert_eq!(cache.column_names(), &vec!["t1".to_string(), "t2".to_string()]);
    assert_eq!(batch.columns.len(), 2);
}

#[test]
fn in_predicate_on_first_column() {
    let cache = filled();
    let mut predicates = IndexMap::new();
    predicates.insert(0u32, Predicate::new_in(vec!["a".to_string()]));
    let batch = cache.to_record_batch(&predicates, 4000);
    assert_eq!(rows_of(&batch), strings(&[("a", "x"), ("a", "y")]));
}

#[test]
fn not_in_predicate_on_second_column() {
    let cache = filled();
    let mut predicates = IndexMap::new();
    predicates.insert(1u32, Predicate::new_not_in(vec!["x".to_string()]));
    let batch = cache.to_record_batch(&predicates, 4000);
    assert_eq!(rows_of(&batch), strings(&[("a", "y")]));
}

#[test]
fn predicate_for_an_unknown_column_is_passed_over() {
    let cache = filled();
    let mut predicates = IndexMap::new();
    predicates.insert(9u32, Predicate::new_in(vec!["nothing".to_string()]));
    let batch = cache.to_record_batch(&predicates, 4000);
    assert_eq!(rows_of(&batch).len(), 3);
}

#[test]
fn predicates_on_both_columns() {
    let cache = filled();
    let mut predicates = IndexMap::new();
    predicates.insert(1u32, Predicate::new_in(vec!["x".to_string()]));
    predicates.insert(0u32, Predicate::new_not_in(vec!["a".to_string()]));
    let batch = cache.to_record_batch(&predicates, 4000);
    assert_eq!(rows_of(&batch), strings(&[("b", "x")]));
}

#[test]
fn branch_without_rows_adds_nothing() {
    let cache = filled();
    let mut predicates = IndexMap::new();
    predicates.insert(1u32, Predicate::new_in(vec!["y".to_string()]));
    let batch = cache.to_record_batch(&predicates, 4000);
    assert_eq!(rows_of(&batch), strings(&[("a", "y")]));
}

#[test]
fn expired_entries_are_pruned() {
    let mut cache = filled();
    let now = 4000 + 2 * HOUR_NS;
    cache.push(&row("b", "x", now));
    assert_eq!(cache.cardinality(), 3);
    cache.prune(now);
    assert_eq!(cache.cardinality(), 1);
    let batch = cache.to_record_batch(&IndexMap::new(), now);
    assert_eq!(rows_of(&batch), strings(&[("b", "x")]));
    assert_eq!(cache.root().len(), 1);
    assert_eq!(cache.root().last_seen_at(0), now);
}

#[test]
fn expired_entries_are_not_read_before_pruning() {
    let mut cache = filled();
    let now = 4000 + 2 * HOUR_NS;
    cache.push(&row("b", "x", now));
    let batch = cache.to_record_batch(&IndexMap::new(), now);
    assert_eq!(rows_of(&batch), strings(&[("b", "x")]));
    assert_eq!(cache.cardinality(), 3);
}

#[test]
fn prune_trims_to_max_cardinality_oldest_first() {
    let mut cache = two_tag_cache();
    for i in 1..=12i64 {
        cache.push(&row(&format!("k{:02}", i), "v", i));
    }
    assert_eq!(cache.cardinality(), 12);
    cache.prune(100);
    assert_eq!(cache.cardinality(), 10);
    let batch = cache.to_record_batch(&IndexMap::new(), 100);
    let rows = rows_of(&batch);
    assert_eq!(rows.len(), 10);
    assert_eq!(rows[0], vec!["k03".to_string(), "v".to_string()]);
    assert_eq!(rows[9], vec!["k12".to_string(), "v".to_string()]);
    let root = cache.root();
    for i in 0..root.len() {
        assert!(root.last_seen_at(i) > 2);
    }
}

#[test]
fn prune_removes_all_that_tie_with_the_cutoff() {
    let mut cache = cache_over(vec![0, 1], 2, 3600);
    cache.push(&row("a", "p", 5));
    cache.push(&row("a", "q", 5));
    cache.push(&row("a", "r", 5));
    cache.push(&row("b", "s", 9));
    cache.prune(100);
    assert_eq!(cache.cardinality(), 1);
    let batch = cache.to_record_batch(&IndexMap::new(), 100);
    assert_eq!(rows_of(&batch), strings(&[("b", "s")]));
}

#[test]
fn prune_within_bounds_changes_nothing() {
    let mut cache = filled();
    cache.prune(4000);
    assert_eq!(cache.cardinality(), 3);
    let batch = cache.to_record_batch(&IndexMap::new(), 4000);
    assert_eq!(rows_of(&batch).len(), 3);
}

#[test]
fn construction_over_a_numeric_column_fails() {
    let res = MetaCache::new(CreateMetaCacheArgs {
        table_def: table(),
        max_cardinality: MaxCardinality::default(),
        max_age: MaxAge::default(),
        column_ids: vec![0, 2],
    });
    assert_eq!(
        res.err(),
        Some(ConfigError::UnsupportedColumnType(ColumnType::Field(FieldType::Integer)))
    );
}

#[test]
fn construction_over_the_time_column_fails() {
    let res = MetaCache::new(CreateMetaCacheArgs {
        table_def: table(),
        max_cardinality: MaxCardinality::default(),
        max_age: MaxAge::default(),
        column_ids: vec![4],
    });
    assert_eq!(res.err(), Some(ConfigError::UnsupportedColumnType(ColumnType::Timestamp)));
}

#[test]
fn construction_without_columns_fails() {
    let res = MetaCache::new(CreateMetaCacheArgs {
        table_def: table(),
        max_cardinality: MaxCardinality::default(),
        max_age: MaxAge::default(),
        column_ids: vec![],
    });
    assert_eq!(res.err(), Some(ConfigError::EmptyColumns));
}

#[test]
fn construction_over_an_unknown_column_fails() {
    let res = MetaCache::new(CreateMetaCacheArgs {
        table_def: table(),
        max_cardinality: MaxCardinality::default(),
        max_age: MaxAge::default(),
        column_ids: vec![1, 42, 2],
    });
    assert_eq!(res.err(), Some(ConfigError::InvalidColumnId(42)));
}

#[test]
fn construction_over_tag_and_string_field() {
    let cache = cache_over(vec![3, 0], 5, 60);
    assert_eq!(cache.column_ids(), &vec![3, 0]);
    assert_eq!(cache.column_names(), &vec!["s1".to_string(), "t1".to_string()]);
    assert_eq!(cache.cardinality(), 0);
    assert_eq!(cache.max_cardinality(), 5);
    assert_eq!(cache.max_age().as_seconds(), 60);
    assert_eq!(cache.root().len(), 0);
}

#[test]
fn zero_cardinality_is_refused() {
    assert_eq!(MaxCardinality::try_from(0).err(), Some(ConfigError::ZeroCardinality));
    assert_eq!(MaxCardinality::try_from(3).unwrap().get(), 3);
}

#[test]
fn default_bounds() {
    assert_eq!(MaxCardinality::default().get(), 100_000);
    assert_eq!(MaxAge::default().as_seconds(), 24 * 60 * 60);
    assert_eq!(MaxAge::default().subsec_nanos(), 0);
    assert_eq!(MaxAge::default().as_nanos(), 86_400_000_000_000);
}

#[test]
fn max_age_carries_full_seconds() {
    let age = MaxAge::new(2, 1_500_000_000);
    assert_eq!(age.as_seconds(), 3);
    assert_eq!(age.subsec_nanos(), 500_000_000);
    assert_eq!(age.as_nanos(), 3_500_000_000);
    assert!(age.same(&MaxAge::new(3, 500_000_000)));
    assert!(!age.same(&MaxAge::from_secs(3)));
}

#[test]
fn expiry_time_is_now_less_max_age() {
    let cache = two_tag_cache();
    assert_eq!(cache.expired_time_ns(2 * HOUR_NS + 5), HOUR_NS + 5);
    assert_eq!(cache.expired_time_ns(0), -HOUR_NS);
}

#[test]
fn row_without_a_cached_column_is_passed_over() {
    let mut cache = two_tag_cache();
    cache.push(&Row {
        time: 10,
        fields: vec![Field { id: 0, value: FieldData::Tag("a".to_string()) }],
    });
    assert_eq!(cache.cardinality(), 0);
    assert_eq!(cache.root().len(), 0);
}

#[test]
fn row_with_a_number_for_a_cached_column_is_passed_over() {
    let mut cache = two_tag_cache();
    cache.push(&Row {
        time: 10,
        fields: vec![
            Field { id: 0, value: FieldData::Tag("a".to_string()) },
            Field { id: 1, value: FieldData::UInteger(4) },
        ],
    });
    assert_eq!(cache.cardinality(), 0);
    assert_eq!(cache.root().len(), 0);
}

#[test]
fn first_field_of_a_column_counts() {
    let mut cache = cache_over(vec![3], 10, 3600);
    cache.push(&Row {
        time: 10,
        fields: vec![
            Field { id: 3, value: FieldData::String("first".to_string()) },
            Field { id: 3, value: FieldData::String("second".to_string()) },
            Field { id: 0, value: FieldData::Key("key".to_string()) },
        ],
    });
    assert_eq!(cache.cardinality(), 1);
    assert_eq!(cache.root().value_at(0).as_str(), "first");
    assert!(cache.root().child_at(0).is_none());
}

#[test]
fn same_tuple_twice_keeps_cardinality_and_takes_the_later_time() {
    let mut cache = two_tag_cache();
    cache.push(&row("a", "x", 1000));
    cache.push(&row("a", "x", 2500));
    assert_eq!(cache.cardinality(), 1);
    let root = cache.root();
    assert_eq!(root.len(), 1);
    assert_eq!(root.last_seen_at(0), 2500);
    let below = root.child_at(0).unwrap();
    assert_eq!(below.len(), 1);
    assert_eq!(below.last_seen_at(0), 2500);
}

#[test]
fn cardinality_counts_the_leaves() {
    let cache = filled();
    assert_eq!(cache.cardinality(), cache.root().cardinality());
    assert_eq!(cache.root().cardinality(), 3);
}

#[test]
fn compare_config_of_equal_caches() {
    let a = two_tag_cache();
    let b = filled();
    assert_eq!(a.compare_config(&b), Ok(()));
}

#[test]
fn compare_config_tells_a_different_cardinality() {
    let a = two_tag_cache();
    let b = cache_over(vec![0, 1], 11, 3600);
    assert_eq!(
        a.compare_config(&b),
        Err(ConfigMismatch::MaxCardinality { expected: 10, got: 11 })
    );
}

#[test]
fn compare_config_tells_a_different_age() {
    let a = two_tag_cache();
    let b = cache_over(vec![0, 1], 10, 7200);
    assert_eq!(a.compare_config(&b), Err(ConfigMismatch::MaxAge { expected: 3600, got: 7200 }));
}

#[test]
fn compare_config_tells_different_columns() {
    let a = two_tag_cache();
    let b = cache_over(vec![1, 0], 10, 3600);
    assert_eq!(
        a.compare_config(&b),
        Err(ConfigMismatch::ColumnIds { expected: vec![0, 1], got: vec![1, 0] })
    );
}

#[test]
fn wider_in_set_reads_more_rows() {
    let cache = filled();
    let mut narrow = IndexMap::new();
    narrow.insert(1u32, Predicate::new_in(vec!["y".to_string()]));
    let mut wide = IndexMap::new();
    wide.insert(1u32, Predicate::new_in(vec!["y".to_string(), "x".to_string()]));
    let few = rows_of(&cache.to_record_batch(&narrow, 4000));
    let many = rows_of(&cache.to_record_batch(&wide, 4000));
    assert_eq!(few, strings(&[("a", "y")]));
    assert_eq!(many, strings(&[("a", "x"), ("a", "y"), ("b", "x")]));
    for r in &few {
        assert!(many.contains(r));
    }
}

#[test]
fn wider_not_in_set_reads_fewer_rows() {
    let cache = filled();
    let mut narrow = IndexMap::new();
    narrow.insert(0u32, Predicate::new_not_in(vec!["b".to_string()]));
    let mut wide = IndexMap::new();
    wide.insert(0u32, Predicate::new_not_in(vec!["b".to_string(), "a".to_string()]));
    let many = rows_of(&cache.to_record_batch(&narrow, 4000));
    let few = rows_of(&cache.to_record_batch(&wide, 4000));
    assert_eq!(many, strings(&[("a", "x"), ("a", "y")]));
    assert!(few.is_empty());
}

#[test]
fn reading_twice_gives_the_same_batch() {
    let cache = filled();
    let first = rows_of(&cache.to_record_batch(&IndexMap::new(), 4000));
    let second = rows_of(&cache.to_record_batch(&IndexMap::new(), 4000));
    assert_eq!(first, second);
}

#[test]
fn columns_become_arrow_arrays() {
    let mut cache = filled();
    cache.push(&row("a-value-longer-than-twelve-bytes", "z", 3500));
    let batch = cache.to_record_batch(&IndexMap::new(), 4000);
    let arrays = batch.to_arrays().unwrap();
    assert_eq!(arrays.len(), 2);
    let first: Vec<&str> = (0..arrays[0].array.len()).map(|i| arrays[0].array.value(i)).collect();
    let second: Vec<&str> = (0..arrays[1].array.len()).map(|i| arrays[1].array.value(i)).collect();
    assert_eq!(first, vec!["a", "a", "a-value-longer-than-twelve-bytes", "b"]);
    assert_eq!(second, vec!["x", "y", "z", "x"]);
    assert_eq!(arrays[0].array.null_count(), 0);
}

#[test]
fn empty_columns_become_empty_arrays() {
    let cache = two_tag_cache();
    let batch = cache.to_record_batch(&IndexMap::new(), 4000);
    let arrays = batch.to_arrays().unwrap();
    assert_eq!(arrays.len(), 2);
    assert_eq!(arrays[0].array.len(), 0);
    assert_eq!(arrays[1].array.len(), 0);
}

#[test]
fn max_age_and_durations_convert_both_ways() {
    let age = MaxAge::from(std::time::Duration::new(90, 250));
    assert_eq!(age.as_seconds(), 90);
    assert_eq!(age.subsec_nanos(), 250);
    assert_eq!(age.to_duration(), std::time::Duration::new(90, 250));
    assert_eq!(MaxAge::default().to_duration(), std::time::Duration::from_secs(86_400));
    assert_eq!(usize::from(MaxCardinality::try_from(12).unwrap()), 12);
}
