//! The cache itself: a tree of the value combinations seen on its columns,
//! with the bounds that pruning enforces.

use indexmap::IndexMap;
use vstd::prelude::*;
use crate::config::{
    holds_text, ColumnDefinition, ColumnType, ConfigError, ConfigMismatch, FieldType, MaxAge, MaxCardinality,
    TableDefinition,
};
use crate::laws::{
    leaves_all_after, lemma_inserted_leaf_count, lemma_inserted_max_kept, lemma_inserted_well_formed,
    lemma_prune_oldest_removes, lemma_pruned_leaf_count, lemma_pruned_leaves_all_after, lemma_pruned_max_kept,
    lemma_pruned_well_formed, max_kept, newest_leaf,
};
use crate::node::{filter_of, filters_of, tuple_of, Node};
use crate::predicate::Predicate;
use crate::row::{field_text, row_tuple, Row};
use crate::tree::{column, has_path, inserted, leaf_count, oldest, pruned, rows, well_formed, Branch, Filter};
use crate::value::Value;

verus! {

/// `indexmap::IndexMap`, of which nothing is known here but what
/// `predicate_entries` names.
#[verifier::external_type_specification]
#[verifier::external_body]
#[verifier::reject_recursive_types(K)]
#[verifier::reject_recursive_types(V)]
#[verifier::reject_recursive_types(S)]
pub struct ExIndexMap<K, V, S>(IndexMap<K, V, S>);

/// The predicates that an `IndexMap` holds, each under its column
/// identifier: what its `get` finds.
pub uninterp spec fn predicate_entries(m: IndexMap<u32, Predicate>) -> Map<u32, Predicate>;

/// `IndexMap::get`: a reference to the predicate stored for `id`, if the
/// map holds one, else nothing. This is believed of the map, not proved.
#[verifier::external_body]
fn lookup<'a>(predicates: &'a IndexMap<u32, Predicate>, id: u32) -> (res: Option<&'a Predicate>)
    ensures
        predicate_entries(*predicates).contains_key(id) ==> res == Some(&predicate_entries(*predicates)[id]),
        !predicate_entries(*predicates).contains_key(id) ==> res.is_none(),
{
    predicates.get(&id)
}

/// The filter that the map holds for the column `id`.
pub open spec fn aligned(predicates: IndexMap<u32, Predicate>, id: u32) -> Option<Filter> {
    if predicate_entries(predicates).contains_key(id) {
        filter_of(Some(&predicate_entries(predicates)[id]))
    } else {
        None
    }
}

/// What is needed to make a cache.
#[derive(Debug)]
pub struct CreateMetaCacheArgs {
    pub table_def: TableDefinition,
    pub max_cardinality: MaxCardinality,
    pub max_age: MaxAge,
    pub column_ids: Vec<u32>,
}

/// The index of the first column from `i` on with the identifier `id`.
pub open spec fn first_column(columns: Seq<ColumnDefinition>, id: u32, i: int) -> Option<int>
    decreases columns.len() - i,
{
    if i < 0 || i >= columns.len() {
        None
    } else if columns[i].id == id {
        Some(i)
    } else {
        first_column(columns, id, i + 1)
    }
}

/// Whether `name` is the name of the column `id` of the table.
pub open spec fn named(columns: Seq<ColumnDefinition>, id: u32, name: Seq<char>) -> bool {
    &&& first_column(columns, id, 0).is_some()
    &&& columns[first_column(columns, id, 0).unwrap()].name@ == name
}

/// What is wrong with the first of the selected columns from position `k`
/// on that the table lacks or that holds no strings.
pub open spec fn first_fault(columns: Seq<ColumnDefinition>, ids: Seq<u32>, k: int) -> Option<ConfigError>
    decreases ids.len() - k,
{
    if k < 0 || k >= ids.len() {
        None
    } else {
        match first_column(columns, ids[k], 0) {
            None => Some(ConfigError::InvalidColumnId(ids[k])),
            Some(i) => if holds_text(columns[i].data_type) {
                first_fault(columns, ids, k + 1)
            } else {
                Some(ConfigError::UnsupportedColumnType(columns[i].data_type))
            },
        }
    }
}

/// Why no cache can be made for the selected columns, if so.
pub open spec fn selection_fault(columns: Seq<ColumnDefinition>, ids: Seq<u32>) -> Option<ConfigError> {
    if ids.len() == 0 {
        Some(ConfigError::EmptyColumns)
    } else {
        first_fault(columns, ids, 0)
    }
}

/// The columns read from a cache: their names, and for each the values of
/// the rows, in the order of the rows.
#[derive(Debug)]
pub struct ColumnBatch {
    pub names: Vec<String>,
    pub columns: Vec<Vec<Value>>,
}

/// A cache of the distinct value combinations of a list of columns.
#[derive(Debug)]
pub struct MetaCache {
    max_cardinality: usize,
    max_age: MaxAge,
    column_names: Vec<String>,
    cardinality: usize,
    column_ids: Vec<u32>,
    data: Node,
}

/// The index of the column `id` of the table.
fn find_column(table: &TableDefinition, id: u32) -> (res: Option<usize>)
    ensures
        match res {
            Some(i) => first_column(table.columns@, id, 0) == Some(i as int) && i < table.columns@.len(),
            None => first_column(table.columns@, id, 0).is_none(),
        },
{
    let mut i: usize = 0;
    while i < table.columns.len()
        invariant
            i <= table.columns.len(),
            first_column(table.columns@, id, 0) == first_column(table.columns@, id, i as int),
        decreases table.columns.len() - i,
    {
        if table.columns[i].id == id {
            return Some(i);
        }
        i += 1;
    }
    None
}

/// Whether a column of this type holds strings.
fn is_text_type(ty: ColumnType) -> (res: bool)
    ensures
        res == holds_text(ty),
{
    match ty {
        ColumnType::Tag => true,
        ColumnType::Field(FieldType::String) => true,
        _ => false,
    }
}

/// Whether both lists hold the same identifiers in the same order.
fn same_ids(a: &Vec<u32>, b: &Vec<u32>) -> (res: bool)
    ensures
        res == (a@ == b@),
{
    if a.len() != b.len() {
        return false;
    }
    let mut i: usize = 0;
    while i < a.len()
        invariant
            i <= a.len(),
            a.len() == b.len(),
            forall|k: int| 0 <= k < i ==> a@[k] == b@[k],
        decreases a.len() - i,
    {
        if a[i] != b[i] {
            return false;
        }
        i += 1;
    }
    assert(a@ =~= b@);
    true
}

/// A copy of the list.
fn copy_ids(a: &Vec<u32>) -> (res: Vec<u32>)
    ensures
        res@ == a@,
{
    let mut out: Vec<u32> = Vec::new();
    let mut i: usize = 0;
    while i < a.len()
        invariant
            i <= a.len(),
            out@ == a@.subrange(0, i as int),
        decreases a.len() - i,
    {
        out.push(a[i]);
        assert(out@ =~= a@.subrange(0, i as int + 1));
        i += 1;
    }
    assert(a@.subrange(0, i as int) =~= a@);
    out
}

impl MetaCache {
    /// The tree of the cache.
    pub closed spec fn tree(&self) -> Seq<Branch> {
        self.data@
    }

    /// The number of value combinations that the cache counts.
    pub closed spec fn counted(&self) -> usize {
        self.cardinality
    }

    /// The identifiers of the columns, in their order.
    pub closed spec fn ids(&self) -> Seq<u32> {
        self.column_ids@
    }

    /// The names of the columns, in their order.
    pub closed spec fn names(&self) -> Seq<String> {
        self.column_names@
    }

    /// The greatest number of value combinations kept by pruning.
    pub closed spec fn bound(&self) -> usize {
        self.max_cardinality
    }

    /// The age beyond which an entry is expired.
    pub closed spec fn age(&self) -> MaxAge {
        self.max_age
    }

    /// The cache has a column, a name for each, a tree of one level per
    /// column with every level in ascending order, and counts the leaves
    /// of its tree.
    pub open spec fn wf(&self) -> bool {
        &&& self.ids().len() >= 1
        &&& self.names().len() == self.ids().len()
        &&& well_formed(self.tree(), self.ids().len())
        &&& self.counted() == leaf_count(self.tree())
        &&& self.bound() > 0
    }

    /// Both caches have the same columns and bounds.
    pub open spec fn same_config(&self, other: &MetaCache) -> bool {
        &&& self.ids() == other.ids()
        &&& self.names() == other.names()
        &&& self.bound() == other.bound()
        &&& self.age() == other.age()
    }

    /// The time at or before which an entry is expired when it is `now_ns`.
    pub open spec fn expired(&self, now_ns: i64) -> int {
        now_ns - self.age().nanos()
    }

    /// The filters of the levels that a map of predicates stands for.
    pub open spec fn filters(&self, predicates: IndexMap<u32, Predicate>) -> Seq<Option<Filter>> {
        Seq::new(self.ids().len(), |d: int| aligned(predicates, self.ids()[d]))
    }

    /// What is read from a cache depends on its tree, its columns, its age,
    /// the predicates and the time of the reading, and on nothing else.
    pub proof fn lemma_reading_is_a_function(
        &self,
        other: &MetaCache,
        predicates: IndexMap<u32, Predicate>,
        now_ns: i64,
    )
        requires
            self.tree() == other.tree(),
            self.ids() == other.ids(),
            self.age() == other.age(),
        ensures
            rows(self.tree(), self.expired(now_ns) as i64, self.filters(predicates)) == rows(
                other.tree(),
                other.expired(now_ns) as i64,
                other.filters(predicates),
            ),
    {
        assert(self.filters(predicates) =~= other.filters(predicates));
    }

    /// Makes an empty cache for the selected columns of a table, each of
    /// which must be a tag or a string field of the table.
    pub fn new(args: CreateMetaCacheArgs) -> (res: Result<MetaCache, ConfigError>)
        ensures
            match res {
                Ok(cache) => {
                    &&& selection_fault(args.table_def.columns@, args.column_ids@).is_none()
                    &&& cache.wf()
                    &&& cache.tree() == Seq::<Branch>::empty()
                    &&& cache.ids() == args.column_ids@
                    &&& cache.bound() == args.max_cardinality@
                    &&& cache.age() == args.max_age
                    &&& forall|k: int|
                        0 <= k < cache.ids().len() ==> named(
                            args.table_def.columns@,
                            cache.ids()[k],
                            (#[trigger] cache.names()[k])@,
                        )
                },
                Err(e) => selection_fault(args.table_def.columns@, args.column_ids@) == Some(e),
            },
    {
        let CreateMetaCacheArgs { table_def, max_cardinality, max_age, column_ids } = args;
        if column_ids.len() == 0 {
            return Err(ConfigError::EmptyColumns);
        }
        let mut names: Vec<String> = Vec::new();
        let mut k: usize = 0;
        while k < column_ids.len()
            invariant
                k <= column_ids.len(),
                names@.len() == k,
                table_def == args.table_def,
                column_ids == args.column_ids,
                column_ids.len() > 0,
                first_fault(table_def.columns@, column_ids@, 0) == first_fault(
                    table_def.columns@,
                    column_ids@,
                    k as int,
                ),
                forall|j: int| 0 <= j < k ==> named(table_def.columns@, column_ids@[j], (#[trigger] names@[j])@),
            decreases column_ids.len() - k,
        {
            match find_column(&table_def, column_ids[k]) {
                None => {
                    return Err(ConfigError::InvalidColumnId(column_ids[k]));
                },
                Some(i) => {
                    let col = &table_def.columns[i];
                    if !is_text_type(col.data_type) {
                        return Err(ConfigError::UnsupportedColumnType(col.data_type));
                    }
                    let ghost before = names@;
                    names.push(col.name.clone());
                    proof {
                        assert(first_column(table_def.columns@, column_ids@[k as int], 0) == Some(i as int));
                        assert(names@[k as int]@ == table_def.columns@[i as int].name@);
                        assert(forall|j: int| 0 <= j < k ==> names@[j] == before[j]);
                    }
                },
            }
            k += 1;
        }
        let data = Node::new();
        let cache = MetaCache {
            max_cardinality: max_cardinality.get(),
            max_age,
            column_names: names,
            cardinality: 0,
            column_ids,
            data,
        };
        assert(leaf_count(cache.tree()) == 0);
        Ok(cache)
    }

    /// The number of value combinations in the cache, expired ones included.
    pub fn cardinality(&self) -> (res: usize)
        ensures
            res == self.counted(),
    {
        self.cardinality
    }

    /// The greatest number of value combinations kept by pruning.
    pub fn max_cardinality(&self) -> (res: usize)
        ensures
            res == self.bound(),
    {
        self.max_cardinality
    }

    /// The age beyond which an entry is expired.
    pub fn max_age(&self) -> (res: MaxAge)
        ensures
            res == self.age(),
    {
        self.max_age
    }

    /// The identifiers of the columns, in their order.
    pub fn column_ids(&self) -> (res: &Vec<u32>)
        ensures
            res@ == self.ids(),
    {
        &self.column_ids
    }

    /// The root of the tree.
    pub fn root(&self) -> (res: &Node)
        ensures
            res@ == self.tree(),
    {
        &self.data
    }

    /// The names of the columns of every batch read from this cache, in
    /// their order.
    pub fn column_names(&self) -> (res: &Vec<String>)
        ensures
            res@ == self.names(),
    {
        &self.column_names
    }

    /// Takes a row in, if it holds a string for each column of the cache:
    /// its tuple is then seen at the time of the row. Any other row is
    /// passed over.
    pub fn push(&mut self, row: &Row)
        requires
            old(self).wf(),
            old(self).counted() < usize::MAX,
        ensures
            final(self).wf(),
            final(self).same_config(old(self)),
            match row_tuple(row.fields@, old(self).ids()) {
                Some(tuple) => {
                    &&& final(self).tree() == inserted(old(self).tree(), tuple, row.time)
                    &&& final(self).counted() == old(self).counted() + if has_path(old(self).tree(), tuple) {
                        0int
                    } else {
                        1int
                    }
                },
                None => final(self).tree() == old(self).tree() && final(self).counted() == old(self).counted(),
            },
            max_kept(old(self).tree()) && row.time >= newest_leaf(old(self).tree()) ==> max_kept(
                final(self).tree(),
            ),
    {
        let mut values: Vec<Value> = Vec::new();
        let mut k: usize = 0;
        while k < self.column_ids.len()
            invariant
                k <= self.column_ids.len(),
                values@.len() == k,
                *self == *old(self),
                self.wf(),
                forall|j: int|
                    0 <= j < k ==> {
                        let text = #[trigger] field_text(row.fields@, self.column_ids@[j]);
                        text.is_some() && values@[j]@ == vstd::utf8::encode_utf8(text.unwrap())
                    },
            decreases self.column_ids.len() - k,
        {
            match row.find(self.column_ids[k]) {
                Some(field) => {
                    if !field.value.is_text() {
                        assert(field_text(row.fields@, self.column_ids@[k as int]).is_none());
                        return ;
                    }
                    values.push(Value::from_field(&field.value));
                },
                None => {
                    assert(field_text(row.fields@, self.column_ids@[k as int]).is_none());
                    return ;
                },
            }
            k += 1;
        }
        let ghost tuple = row_tuple(row.fields@, self.ids()).unwrap();
        proof {
            assert(row_tuple(row.fields@, self.ids()).is_some());
            assert(tuple_of(values@) =~= tuple);
            lemma_inserted_well_formed(self.tree(), tuple, 0, row.time);
            lemma_inserted_leaf_count(self.tree(), tuple, 0, row.time);
            if max_kept(self.tree()) && row.time >= newest_leaf(self.tree()) {
                lemma_inserted_max_kept(self.tree(), tuple, 0, row.time);
            }
        }
        let is_new = self.data.insert(&values, 0, row.time);
        if is_new {
            self.cardinality += 1;
        }
    }

    /// The time at or before which an entry is expired when it is `now_ns`.
    pub fn expired_time_ns(&self, now_ns: i64) -> (res: i64)
        requires
            self.expired(now_ns) >= i64::MIN,
        ensures
            res == self.expired(now_ns),
    {
        let age: u128 = self.max_age.as_nanos();
        let span: i128 = age as i128;
        let now: i128 = now_ns as i128;
        (now - span) as i64
    }

    /// Reads the cache: one row for every path to a leaf on which each
    /// entry was seen after the expiry time and passes the predicate of its
    /// column, in ascending order, given column by column. A predicate for
    /// a column that the cache does not have is passed over.
    pub fn to_record_batch(&self, predicates: &IndexMap<u32, Predicate>, now_ns: i64) -> (res: ColumnBatch)
        requires
            self.wf(),
            self.expired(now_ns) >= i64::MIN,
        ensures
            res.names@.len() == self.names().len(),
            forall|d: int| 0 <= d < self.names().len() ==> (#[trigger] res.names@[d])@ == self.names()[d]@,
            res.columns@.len() == self.ids().len(),
            forall|d: int|
                0 <= d < self.ids().len() ==> tuple_of(#[trigger] res.columns@[d]@) == column(
                    rows(self.tree(), self.expired(now_ns) as i64, self.filters(*predicates)),
                    d,
                ),
    {
        let mut picked: Vec<Option<&Predicate>> = Vec::new();
        let mut builders: Vec<Vec<Value>> = Vec::new();
        let mut names: Vec<String> = Vec::new();
        let mut k: usize = 0;
        while k < self.column_ids.len()
            invariant
                k <= self.column_ids.len(),
                self.wf(),
                picked@.len() == k,
                builders@.len() == k,
                names@.len() == k,
                forall|d: int|
                    0 <= d < k ==> filter_of(#[trigger] picked@[d]) == aligned(*predicates, self.column_ids@[d]),
                forall|d: int| 0 <= d < k ==> (#[trigger] builders@[d])@ == Seq::<Value>::empty(),
                forall|d: int| 0 <= d < k ==> (#[trigger] names@[d])@ == self.column_names@[d]@,
            decreases self.column_ids.len() - k,
        {
            picked.push(lookup(predicates, self.column_ids[k]));
            builders.push(Vec::new());
            names.push(self.column_names[k].clone());
            k += 1;
        }
        let expired_time_ns = self.expired_time_ns(now_ns);
        proof {
            assert(filters_of(picked@) =~= self.filters(*predicates));
        }
        let ghost all = rows(self.tree(), expired_time_ns, self.filters(*predicates));
        let _ = self.data.evaluate_predicates(expired_time_ns, &picked, 0, &mut builders);
        proof {
            assert forall|d: int| 0 <= d < self.ids().len() implies tuple_of(#[trigger] builders@[d]@) == column(
                all,
                d,
            ) by {
                assert(tuple_of(Seq::<Value>::empty()) =~= Seq::<Seq<u8>>::empty());
                assert(Seq::<Seq<u8>>::empty() + column(all, d) =~= column(all, d));
            }
        }
        ColumnBatch { names, columns: builders }
    }

    /// Removes what is expired when it is `now_ns`; and where the cache
    /// then still holds more than its bound, the oldest of what is left,
    /// down to the newest time among as many of the oldest leaves as are
    /// too many.
    pub fn prune(&mut self, now_ns: i64)
        requires
            old(self).wf(),
            old(self).expired(now_ns) >= i64::MIN,
        ensures
            final(self).wf(),
            final(self).same_config(old(self)),
            final(self).tree() == ({
                let left = pruned(old(self).tree(), old(self).expired(now_ns) as i64);
                if leaf_count(left) > old(self).bound() {
                    pruned(
                        left,
                        oldest(left, (leaf_count(left) - old(self).bound()) as nat, Seq::empty()).last(),
                    )
                } else {
                    left
                }
            }),
            final(self).counted() <= final(self).bound(),
            leaves_all_after(final(self).tree(), old(self).expired(now_ns) as i64),
            max_kept(old(self).tree()) ==> max_kept(final(self).tree()),
    {
        let before_time_ns = self.expired_time_ns(now_ns);
        proof {
            lemma_pruned_well_formed(self.tree(), before_time_ns, self.ids().len());
            lemma_pruned_leaf_count(self.tree(), before_time_ns);
            lemma_pruned_leaves_all_after(self.tree(), before_time_ns, before_time_ns);
            if max_kept(self.tree()) {
                lemma_pruned_max_kept(self.tree(), before_time_ns);
            }
        }
        let _ = self.data.remove_before(before_time_ns);
        self.cardinality = self.data.cardinality();
        if self.cardinality > self.max_cardinality {
            let n_to_remove = self.cardinality - self.max_cardinality;
            let ghost left = self.tree();
            proof {
                lemma_prune_oldest_removes(left, n_to_remove as nat);
                let cutoff = oldest(left, n_to_remove as nat, Seq::empty()).last();
                lemma_pruned_well_formed(left, cutoff, self.ids().len());
                lemma_pruned_leaves_all_after(left, cutoff, before_time_ns);
                if max_kept(left) {
                    lemma_pruned_max_kept(left, cutoff);
                }
            }
            self.data.remove_n_oldest(n_to_remove);
            self.cardinality = self.data.cardinality();
        }
    }

    /// Compares the configuration of this cache with that of `other`, and
    /// tells the first difference: in the bound, in the age, or in the
    /// columns.
    pub fn compare_config(&self, other: &MetaCache) -> (res: Result<(), ConfigMismatch>)
        ensures
            match res {
                Ok(_) => self.bound() == other.bound() && self.age() == other.age() && self.ids() == other.ids(),
                Err(ConfigMismatch::MaxCardinality { expected, got }) => {
                    &&& self.bound() != other.bound()
                    &&& expected == self.bound()
                    &&& got == other.bound()
                },
                Err(ConfigMismatch::MaxAge { expected, got }) => {
                    &&& self.bound() == other.bound()
                    &&& self.age() != other.age()
                    &&& expected == self.age().seconds()
                    &&& got == other.age().seconds()
                },
                Err(ConfigMismatch::ColumnIds { expected, got }) => {
                    &&& self.bound() == other.bound()
                    &&& self.age() == other.age()
                    &&& self.ids() != other.ids()
                    &&& expected@ == self.ids()
                    &&& got@ == other.ids()
                },
            },
    {
        proof {
            self.max_age.lemma_same(other.max_age);
        }
        if self.max_cardinality != other.max_cardinality {
            return Err(
                ConfigMismatch::MaxCardinality { expected: self.max_cardinality, got: other.max_cardinality },
            );
        }
        if !self.max_age.same(&other.max_age) {
            return Err(
                ConfigMismatch::MaxAge {
                    expected: self.max_age.as_seconds(),
                    got: other.max_age.as_seconds(),
                },
            );
        }
        if !same_ids(&self.column_ids, &other.column_ids) {
            return Err(
                ConfigMismatch::ColumnIds {
                    expected: copy_ids(&self.column_ids),
                    got: copy_ids(&other.column_ids),
                },
            );
        }
        Ok(())
    }
}

} // verus!
