use crate::db::b_tree::{lemma_inserted, BTree};
use crate::db::codec::{put_store, take_store};
use crate::db::image::{
    dec_store, enc_store, lemma_store_round, lemma_truncated, store_fits, StoreModel,
};
use crate::db::name_map::NameMap;
use crate::db::schema::{keys_in, Row, Table};
use crate::db::sql_enums::SQLOperator;
use vstd::prelude::*;

verus! {

/// Why an operation of the storage engine did not do its work.
#[derive(Debug, PartialEq, Eq, Clone, Copy)]
pub enum StorageError {
    /// The table that the operation names does not exist.
    TableNotFound,
    /// The bytes are not the image of a store.
    InvalidData,
}

/// The minimum degree of every column index.
pub const INDEX_DEGREE: usize = 5;

/// The names of `columns` in the order in which each is first mentioned.
pub open spec fn first_mentions(columns: Seq<String>) -> Seq<Seq<char>>
    decreases columns.len(),
{
    if columns.len() == 0 {
        Seq::empty()
    } else {
        let before = first_mentions(columns.drop_last());
        if before.contains(columns.last()@) {
            before
        } else {
            before.push(columns.last()@)
        }
    }
}

/// `table` is a new table with the columns `columns`: it has no rows, and
/// for each column, once, an empty index of minimum degree `INDEX_DEGREE`.
pub open spec fn fresh_table(table: Table, columns: Seq<String>) -> bool {
    &&& table.columns@ == columns
    &&& table.rows@.len() == 0
    &&& table.indexes.names_view() == first_mentions(columns)
    &&& table.indexes.values.len() == table.indexes.names.len()
    &&& forall|j: int|
        0 <= j < table.indexes.values.len() ==> {
            &&& (#[trigger] table.indexes.values[j]).t == INDEX_DEGREE
            &&& table.indexes.values[j].root is None
        }
}

/// The store: its tables by name, and the name of the database.
#[derive(Debug, PartialEq, Eq, Clone)]
pub struct StorageEngine {
    pub tables: NameMap<Table>,
    pub database_name: String,
}

impl StorageEngine {
    /// The invariant of the store: no two tables have one name, and every
    /// table is well formed.
    pub open spec fn wf(&self) -> bool {
        &&& self.tables.wf()
        &&& forall|j: int|
            0 <= j < self.tables.values.len() ==> (#[trigger] self.tables.values[j]).wf()
    }

    /// Whether in every table the indexes are those of the rows.
    pub open spec fn indexed(&self) -> bool {
        forall|j: int|
            0 <= j < self.tables.values.len() ==> (#[trigger] self.tables.values[j]).indexed()
    }

    /// What the store is, apart from the layout of its indexes.
    pub open spec fn model(&self) -> StoreModel {
        StoreModel {
            name: self.database_name@,
            tables: Seq::new(
                self.tables.names.len() as nat,
                |i: int| (self.tables.names[i]@, self.tables.values[i].model()),
            ),
        }
    }

    /// The layout that a store has whatever it holds: every table has its
    /// name, every index its column and every value its column, and every
    /// index is tidy.
    pub open spec fn tidy(&self) -> bool {
        &&& self.tables.names.len() == self.tables.values.len()
        &&& forall|j: int|
            0 <= j < self.tables.values.len() ==> {
                let table = #[trigger] self.tables.values[j];
                &&& table.tidy()
                &&& table.indexes.names.len() == table.indexes.values.len()
                &&& forall|i: int|
                    0 <= i < table.rows.len() ==> (#[trigger] table.rows[i]).data.names.len()
                        == table.rows[i].data.values.len()
            }
    }

    /// A tidy store that is, apart from layout, the same as a well-formed
    /// one is well formed.
    pub proof fn lemma_model_wf(&self, other: StorageEngine)
        requires
            self.tidy(),
            other.wf(),
            self.model() == other.model(),
        ensures
            self.wf(),
    {
        let m = self.model();
        let o = other.model();
        assert(m.tables.len() == o.tables.len());
        assert forall|i: int, j: int| 0 <= i < j < self.tables.names.len() implies self.tables.names[i]@
            != self.tables.names[j]@ by {
            assert(m.tables[i] == o.tables[i]);
            assert(m.tables[j] == o.tables[j]);
        }
        assert forall|j: int| 0 <= j < self.tables.values.len() implies (
        #[trigger] self.tables.values[j]).wf() by {
            assert(m.tables[j] == o.tables[j]);
            self.tables.values[j].lemma_model_wf(other.tables.values[j]);
        }
    }

    /// Whether the store is well formed.
    pub fn is_wf(&self) -> (ok: bool)
        ensures
            ok == self.wf(),
    {
        if !self.tables.is_wf() {
            return false;
        }
        let mut j: usize = 0;
        while j < self.tables.values.len()
            invariant
                j <= self.tables.values.len(),
                forall|x: int| 0 <= x < j ==> (#[trigger] self.tables.values[x]).wf(),
            decreases self.tables.values.len() - j,
        {
            if !self.tables.values[j].is_wf() {
                return false;
            }
            j += 1;
        }
        true
    }

    /// The rows that an indexed search finds: those that the table named
    /// `table_name` finds, and none where there is no such table.
    pub open spec fn lookup(&self, table_name: Seq<char>, column: Seq<char>, value: u16) -> Seq<
        Row,
    > {
        if self.tables.has(table_name) {
            self.tables.values[self.tables.place(table_name)].lookup(column, value)
        } else {
            Seq::empty()
        }
    }

    /// A store without tables.
    pub fn new(database_name: String) -> (engine: Self)
        ensures
            engine.wf(),
            engine.indexed(),
            engine.database_name == database_name,
            engine.tables.names@.len() == 0,
            engine.tables.values@.len() == 0,
    {
        StorageEngine { tables: NameMap::new(), database_name }
    }

    /// Gives the database another name.
    pub fn set_database_name(&mut self, database_name: String)
        ensures
            final(self).database_name == database_name,
            final(self).tables == old(self).tables,
    {
        self.database_name = database_name;
    }

    /// Makes the table `name` with the columns `columns`, no rows and an
    /// empty index for each column. A table that had the name is replaced,
    /// in its place; a new name comes last.
    pub fn create_table(&mut self, name: &str, columns: Vec<String>)
        requires
            old(self).wf(),
        ensures
            final(self).wf(),
            old(self).indexed() ==> final(self).indexed(),
            final(self).database_name == old(self).database_name,
            final(self).tables.has(name@),
            fresh_table(final(self).tables.values[final(self).tables.place(name@)], columns@),
            final(self).tables.names.len() == final(self).tables.values.len(),
            forall|j: int|
                0 <= j < final(self).tables.names.len() && j != final(self).tables.place(name@)
                    ==> j < old(self).tables.names.len() && final(self).tables.names[j] == old(self).tables.names[j] && final(self).tables.values[j] == old(self).tables.values[j],
            old(self).tables.has(name@) ==> final(self).tables.names@ == old(self).tables.names@,
            !old(self).tables.has(name@) ==> final(self).tables.names.len() == old(self).tables.names.len() + 1 && final(self).tables.place(name@) == old(self).tables.names.len(),
    {
        let mut indexes: NameMap<BTree> = NameMap::new();
        let mut i: usize = 0;
        assert(columns@.take(0) =~= Seq::<String>::empty());
        assert(indexes.names_view() =~= first_mentions(columns@.take(0)));
        while i < columns.len()
            invariant
                i <= columns.len(),
                indexes.wf(),
                indexes.names_view() == first_mentions(columns@.take(i as int)),
                forall|j: int|
                    0 <= j < indexes.values.len() ==> {
                        &&& (#[trigger] indexes.values[j]).t == INDEX_DEGREE
                        &&& indexes.values[j].root is None
                    },
            decreases columns.len() - i,
        {
            let ghost before = indexes;
            let column = columns[i].clone();
            proof {
                let longer = columns@.take(i + 1);
                assert(longer.drop_last() =~= columns@.take(i as int));
                assert(longer.last() == columns[i as int]);
                let seen = before.names_view();
                if seen.contains(column@) {
                    let x = choose|x: int| 0 <= x < seen.len() && seen[x] == column@;
                    assert(before.names[x]@ == column@);
                    assert(before.has(column@));
                }
                if before.has(column@) {
                    let x = before.place(column@);
                    assert(seen[x] == column@);
                }
            }
            indexes.insert(column, BTree::new(INDEX_DEGREE));
            proof {
                if before.has(column@) {
                    assert(indexes.names_view() =~= before.names_view());
                } else {
                    assert(indexes.names_view() =~= before.names_view().push(column@));
                }
            }
            i += 1;
        }
        assert(columns@.take(i as int) =~= columns@);
        let table = Table { columns, rows: Vec::new(), indexes };
        assert(table.wf());
        assert(table.indexed()) by {
            assert forall|j: int| 0 <= j < table.indexes.values.len() implies (
            #[trigger] table.indexes.values[j]).contents() == keys_in(
                table.rows@,
                table.indexes.names[j]@,
            ) by {
                lemma_inserted(table.indexes.values[j]@);
            }
        }
        let ghost before = self.tables;
        self.tables.insert(name.to_owned(), table);
        proof {
            if before.has(name@) {
                let p = before.place(name@);
                assert(self.tables.names[p]@ == name@);
                self.tables.lemma_place(p);
            } else {
                let p = before.names.len() as int;
                assert(self.tables.names[p]@ == name@);
                self.tables.lemma_place(p);
            }
        }
    }

    /// Adds `row` to the table `table_name` and returns its identifier, the
    /// number of rows that the table had. Each index of the table gains the
    /// row's key in its column, where the row has one there: a value that is
    /// no numeral of at most 65535 is left out of the index.
    ///
    /// Fails with `TableNotFound`, and changes nothing, where the store has
    /// no table of that name.
    pub fn insert_row(&mut self, table_name: &str, row: Row) -> (done: Result<usize, StorageError>)
        requires
            old(self).wf(),
            row.wf(),
        ensures
            final(self).wf(),
            old(self).indexed() ==> final(self).indexed(),
            final(self).database_name == old(self).database_name,
            final(self).tables.names == old(self).tables.names,
            final(self).tables.values.len() == old(self).tables.values.len(),
            match done {
                Ok(id) => {
                    let p = old(self).tables.place(table_name@);
                    &&& old(self).tables.has(table_name@)
                    &&& id == old(self).tables.values[p].rows.len()
                    &&& old(self).tables.values[p].gains_row(final(self).tables.values[p], row)
                    &&& forall|j: int|
                        0 <= j < old(self).tables.values.len() && j != p ==> final(self).tables.values[j] == old(self).tables.values[j]
                },
                Err(why) => {
                    &&& why == StorageError::TableNotFound
                    &&& !old(self).tables.has(table_name@)
                    &&& final(self).tables == old(self).tables
                },
            },
    {
        match self.tables.position(table_name) {
            None => Err(StorageError::TableNotFound),
            Some(p) => {
                proof {
                    self.tables.lemma_place(p as int);
                }
                let table = &mut self.tables.values[p];
                let id = table.add_row(row);
                Ok(id)
            },
        }
    }

    /// The rows of the table `table_name` whose value in `column` is the
    /// numeral `value`, in the order of their identifiers: found where the
    /// column has an index and the index holds `value`.
    ///
    /// The search is for equality whatever `operator` is given.
    pub fn search_by_index(
        &self,
        table_name: &str,
        operator: SQLOperator,
        column: &str,
        value: u16,
    ) -> (out: Vec<&Row>)
        requires
            self.wf(),
        ensures
            out@.map_values(|r: &Row| *r) == self.lookup(table_name@, column@, value),
    {
        match self.tables.get(table_name) {
            Some(table) => table.search(column, value),
            None => {
                let out: Vec<&Row> = Vec::new();
                assert(out@.map_values(|r: &Row| *r) =~= Seq::<Row>::empty());
                out
            },
        }
    }

    /// Writes the image of the store into `buffer`, in place of what it held.
    pub fn serialize(&self, buffer: &mut Vec<u8>) -> (done: Result<(), StorageError>)
        requires
            self.wf(),
        ensures
            done is Ok,
            final(buffer)@ == enc_store(self.model()),
            store_fits(self.model()),
    {
        buffer.clear();
        put_store(buffer, self);
        Ok(())
    }

    /// Reads a store from its image.
    ///
    /// Fails with `InvalidData` where `buffer` is not the image of a
    /// well-formed store: where the magic number or the version is another,
    /// where the bytes end early or go on behind the last table, where a
    /// text is not UTF-8, or where what is read breaks the invariant of the
    /// store.
    pub fn deserialize(buffer: &[u8]) -> (loaded: Result<StorageEngine, StorageError>)
        ensures
            match loaded {
                Ok(store) => store.wf() && dec_store(buffer@) == Some(store.model()),
                Err(why) => why == StorageError::InvalidData && forall|other: StorageEngine|
                    other.wf() && store_fits(other.model()) ==> #[trigger] enc_store(other.model())
                        != buffer@,
            },
    {
        match take_store(buffer) {
            None => {
                proof {
                    assert forall|other: StorageEngine|
                        other.wf() && store_fits(other.model()) implies #[trigger] enc_store(
                        other.model(),
                    ) != buffer@ by {
                        lemma_store_round(other.model());
                    }
                }
                Err(StorageError::InvalidData)
            },
            Some(store) => {
                if store.is_wf() {
                    Ok(store)
                } else {
                    proof {
                        assert forall|other: StorageEngine|
                            other.wf() && store_fits(other.model()) implies #[trigger] enc_store(
                            other.model(),
                        ) != buffer@ by {
                            lemma_store_round(other.model());
                            if enc_store(other.model()) == buffer@ {
                                store.lemma_model_wf(other);
                            }
                        }
                    }
                    Err(StorageError::InvalidData)
                }
            },
        }
    }

    /// Round trip: the image of a well-formed store is read back as that
    /// store, with the same name, tables, rows and indexes.
    pub proof fn lemma_round_trip(&self)
        requires
            self.wf(),
            store_fits(self.model()),
        ensures
            dec_store(enc_store(self.model())) == Some(self.model()),
    {
        lemma_store_round(self.model());
    }

    /// Truncation: nothing is read from an image of the store that ends
    /// early, so `deserialize` fails on it.
    pub proof fn lemma_truncated(&self, k: int)
        requires
            self.wf(),
            store_fits(self.model()),
            0 <= k < enc_store(self.model()).len(),
        ensures
            dec_store(enc_store(self.model()).take(k)) is None,
    {
        lemma_truncated(self.model(), k);
    }

    /// Whether the stores hold the same: the same name, and the same
    /// tables under the same names.
    pub open spec fn same_as(&self, other: StorageEngine) -> bool {
        &&& self.database_name@ == other.database_name@
        &&& self.tables.names.len() == other.tables.names.len()
        &&& forall|j: int|
            0 <= j < self.tables.names.len() ==> (#[trigger] self.tables.names[j])@
                == other.tables.names[j]@
        &&& forall|j: int|
            0 <= j < self.tables.names.len() ==> (#[trigger] self.tables.values[j]).same_as(
                other.tables.values[j],
            )
    }

    /// Well-formed stores that are the same apart from the layout of their
    /// indexes hold the same.
    pub proof fn lemma_same_model(&self, other: StorageEngine)
        requires
            self.wf(),
            other.wf(),
            self.model() == other.model(),
        ensures
            self.same_as(other),
    {
        let m = self.model();
        let o = other.model();
        assert(m.tables.len() == o.tables.len());
        assert forall|j: int| 0 <= j < self.tables.names.len() implies (
        #[trigger] self.tables.names[j])@ == other.tables.names[j]@ by {
            assert(m.tables[j] == o.tables[j]);
        }
        assert forall|j: int| 0 <= j < self.tables.names.len() implies (
        #[trigger] self.tables.values[j]).same_as(other.tables.values[j]) by {
            assert(m.tables[j] == o.tables[j]);
            self.tables.values[j].lemma_same_model(other.tables.values[j]);
        }
    }
}

} // verus!
