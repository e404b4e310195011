use crate::db::b_tree::{BTree, TreeModel};
use crate::db::image::{RowModel, TableModel};
use crate::db::shape::tree_insert_model;
use crate::db::name_map::NameMap;
use crate::db::text::{key_of, parse_key, text_views};
use vstd::multiset::Multiset;
use vstd::prelude::*;

verus! {

/// A row: the textual value of each of its columns.
#[derive(Debug, PartialEq, Eq, Clone)]
pub struct Row {
    pub data: NameMap<String>,
}

impl Row {
    /// The invariant of the row: no column occurs twice.
    pub open spec fn wf(&self) -> bool {
        self.data.wf()
    }

    /// What the row is: its columns with their values, in order.
    pub open spec fn model(&self) -> RowModel {
        Seq::new(self.data.names.len() as nat, |i: int| (self.data.names[i]@, self.data.values[i]@))
    }

    /// Whether the row is well formed.
    pub fn is_wf(&self) -> (ok: bool)
        ensures
            ok == self.wf(),
    {
        self.data.is_wf()
    }

    /// The text that the row holds in `column`.
    pub open spec fn value_of(&self, column: Seq<char>) -> Option<Seq<char>> {
        if self.data.has(column) {
            Some(self.data.values[self.data.place(column)]@)
        } else {
            None
        }
    }

    /// The index key of the row in `column`: that of its value there, where
    /// it has a value and the value is a numeral of at most 65535.
    pub open spec fn key_in(&self, column: Seq<char>) -> Option<u16> {
        match self.value_of(column) {
            Some(text) => key_of(text),
            None => None,
        }
    }

    /// Computes the index key of the row in `column`.
    pub fn key_for(&self, column: &str) -> (key: Option<u16>)
        requires
            self.wf(),
        ensures
            key == self.key_in(column@),
    {
        match self.data.get(column) {
            Some(text) => parse_key(text.as_str()),
            None => None,
        }
    }
}

/// The rows of `rows` whose index key in `column` is `value`, in their order.
pub open spec fn select(rows: Seq<Row>, column: Seq<char>, value: u16) -> Seq<Row>
    decreases rows.len(),
{
    if rows.len() == 0 {
        Seq::empty()
    } else if rows.last().key_in(column) == Some(value) {
        select(rows.drop_last(), column, value).push(rows.last())
    } else {
        select(rows.drop_last(), column, value)
    }
}

/// The index keys that the rows have in `column`, each as often as a row
/// has it.
pub open spec fn keys_in(rows: Seq<Row>, column: Seq<char>) -> Multiset<u16>
    decreases rows.len(),
{
    if rows.len() == 0 {
        Multiset::empty()
    } else {
        match rows.last().key_in(column) {
            Some(key) => keys_in(rows.drop_last(), column).insert(key),
            None => keys_in(rows.drop_last(), column),
        }
    }
}

/// As many rows have the key `value` in `column` as the search for it finds.
pub proof fn lemma_select_count(rows: Seq<Row>, column: Seq<char>, value: u16)
    ensures
        select(rows, column, value).len() == keys_in(rows, column).count(value),
    decreases rows.len(),
{
    if rows.len() > 0 {
        lemma_select_count(rows.drop_last(), column, value);
    }
}

/// A table: its declared columns, its rows, and one index for each column
/// that was declared when the table was made. The identifier of a row is its
/// place in `rows`.
#[derive(Debug, PartialEq, Eq, Clone)]
pub struct Table {
    pub columns: Vec<String>,
    pub rows: Vec<Row>,
    pub indexes: NameMap<BTree>,
}

impl Table {
    /// The invariant of the table: no column has two indexes, and every
    /// index and every row is well formed.
    pub open spec fn wf(&self) -> bool {
        &&& self.indexes.wf()
        &&& forall|j: int|
            0 <= j < self.indexes.values.len() ==> (#[trigger] self.indexes.values[j]).wf()
        &&& forall|j: int| 0 <= j < self.rows.len() ==> (#[trigger] self.rows[j]).wf()
    }

    /// What the table is, apart from the layout of its indexes.
    pub open spec fn model(&self) -> TableModel {
        TableModel {
            columns: text_views(self.columns@),
            rows: Seq::new(self.rows.len() as nat, |i: int| self.rows[i].model()),
            indexes: Seq::new(
                self.indexes.names.len() as nat,
                |i: int| (self.indexes.names[i]@, self.indexes.values[i].model()),
            ),
        }
    }

    /// Whether every index is tidy.
    pub open spec fn tidy(&self) -> bool {
        forall|j: int|
            0 <= j < self.indexes.values.len() ==> (#[trigger] self.indexes.values[j]).tidy()
    }

    /// A table with tidy indexes and as many index names as indexes that
    /// is, apart from layout, the same as a well-formed one is well formed.
    pub proof fn lemma_model_wf(&self, other: Table)
        requires
            self.tidy(),
            self.indexes.names.len() == self.indexes.values.len(),
            forall|j: int|
                0 <= j < self.rows.len() ==> (#[trigger] self.rows[j]).data.names.len()
                    == self.rows[j].data.values.len(),
            other.wf(),
            self.model() == other.model(),
        ensures
            self.wf(),
    {
        let m = self.model();
        let o = other.model();
        assert(m.indexes.len() == o.indexes.len());
        assert(m.rows.len() == o.rows.len());
        assert forall|i: int, j: int| 0 <= i < j < self.indexes.names.len() implies self.indexes.names[i]@
            != self.indexes.names[j]@ by {
            assert(m.indexes[i] == o.indexes[i]);
            assert(m.indexes[j] == o.indexes[j]);
        }
        assert forall|j: int| 0 <= j < self.indexes.values.len() implies (
        #[trigger] self.indexes.values[j]).wf() by {
            assert(m.indexes[j] == o.indexes[j]);
            self.indexes.values[j].lemma_model_wf(other.indexes.values[j]);
        }
        assert forall|j: int| 0 <= j < self.rows.len() implies (#[trigger] self.rows[j]).wf() by {
            assert(m.rows[j] == o.rows[j]);
            let mine = self.rows[j];
            let twin = other.rows[j];
            assert(twin.wf());
            assert(mine.model().len() == twin.model().len());
            assert forall|x: int, y: int| 0 <= x < y < mine.data.names.len() implies mine.data.names[x]@
                != mine.data.names[y]@ by {
                assert(mine.model()[x] == twin.model()[x]);
                assert(mine.model()[y] == twin.model()[y]);
            }
        }
    }

    /// Whether the tables hold the same: the same columns, the same rows,
    /// and for the same columns indexes with the same traversal.
    pub open spec fn same_as(&self, other: Table) -> bool {
        &&& text_views(self.columns@) == text_views(other.columns@)
        &&& self.rows.len() == other.rows.len()
        &&& forall|i: int|
            0 <= i < self.rows.len() ==> (#[trigger] self.rows[i]).model() == other.rows[i].model()
        &&& self.indexes.names.len() == other.indexes.names.len()
        &&& forall|i: int|
            0 <= i < self.indexes.names.len() ==> (#[trigger] self.indexes.names[i])@
                == other.indexes.names[i]@
        &&& forall|i: int|
            0 <= i < self.indexes.names.len() ==> (#[trigger] self.indexes.values[i])@
                == other.indexes.values[i]@
    }

    /// Well-formed tables that are the same apart from the layout of their
    /// indexes hold the same.
    pub proof fn lemma_same_model(&self, other: Table)
        requires
            self.wf(),
            other.wf(),
            self.model() == other.model(),
        ensures
            self.same_as(other),
    {
        let m = self.model();
        let o = other.model();
        assert(m.rows.len() == o.rows.len());
        assert(m.indexes.len() == o.indexes.len());
        assert forall|i: int| 0 <= i < self.rows.len() implies (#[trigger] self.rows[i]).model()
            == other.rows[i].model() by {
            assert(m.rows[i] == o.rows[i]);
        }
        assert forall|i: int| 0 <= i < self.indexes.names.len() implies (
        #[trigger] self.indexes.names[i])@ == other.indexes.names[i]@ by {
            assert(m.indexes[i] == o.indexes[i]);
        }
        assert forall|i: int| 0 <= i < self.indexes.names.len() implies (
        #[trigger] self.indexes.values[i])@ == other.indexes.values[i]@ by {
            assert(m.indexes[i] == o.indexes[i]);
            self.indexes.values[i].lemma_wf_tidy();
            self.indexes.values[i].lemma_model_wf(other.indexes.values[i]);
        }
    }

    /// Whether the table is well formed.
    pub fn is_wf(&self) -> (ok: bool)
        ensures
            ok == self.wf(),
    {
        if !self.indexes.is_wf() {
            return false;
        }
        let mut j: usize = 0;
        while j < self.indexes.values.len()
            invariant
                j <= self.indexes.values.len(),
                forall|x: int| 0 <= x < j ==> (#[trigger] self.indexes.values[x]).wf(),
            decreases self.indexes.values.len() - j,
        {
            if !self.indexes.values[j].is_wf() {
                return false;
            }
            j += 1;
        }
        let mut i: usize = 0;
        while i < self.rows.len()
            invariant
                i <= self.rows.len(),
                forall|x: int| 0 <= x < i ==> (#[trigger] self.rows[x]).wf(),
            decreases self.rows.len() - i,
        {
            if !self.rows[i].is_wf() {
                return false;
            }
            i += 1;
        }
        true
    }

    /// What index `j` holds once `row` has been added: one key more where
    /// the row has an index key in the index's column, else what it held.
    pub open spec fn index_after(&self, j: int, row: Row) -> Multiset<u16> {
        match row.key_in(self.indexes.names[j]@) {
            Some(key) => self.indexes.values[j].contents().insert(key),
            None => self.indexes.values[j].contents(),
        }
    }

    /// What index `j` is once `row` has been added: the tree with the row's
    /// index key in the index's column inserted, and the tree as it was
    /// where the row has no index key there.
    pub open spec fn index_model_after(&self, j: int, row: Row) -> TreeModel {
        match row.key_in(self.indexes.names[j]@) {
            Some(key) => tree_insert_model(self.indexes.values[j].model(), key),
            None => self.indexes.values[j].model(),
        }
    }

    /// `after` is this table with `row` added: the row is the last one, and
    /// each index has gained the row's key in its column.
    pub open spec fn gains_row(&self, after: Table, row: Row) -> bool {
        &&& after.columns == self.columns
        &&& after.rows@ == self.rows@.push(row)
        &&& after.indexes.names == self.indexes.names
        &&& after.indexes.values.len() == self.indexes.values.len()
        &&& forall|j: int|
            0 <= j < self.indexes.values.len() ==> {
                &&& (#[trigger] after.indexes.values[j]).model() == self.index_model_after(j, row)
                &&& after.indexes.values[j].contents() == self.index_after(j, row)
            }
    }

    /// Whether the indexes are those of the rows: every index holds the keys
    /// that the rows have in its column, each as often as a row has it.
    pub open spec fn indexed(&self) -> bool {
        forall|j: int|
            0 <= j < self.indexes.values.len() ==> (#[trigger] self.indexes.values[j]).contents()
                == keys_in(self.rows@, self.indexes.names[j]@)
    }

    /// Index maintenance: a table whose indexes are those of its rows is
    /// such a table again once it has gained a row.
    pub proof fn lemma_gains_row_indexed(&self, after: Table, row: Row)
        requires
            self.indexed(),
            self.gains_row(after, row),
        ensures
            after.indexed(),
    {
        assert forall|j: int| 0 <= j < after.indexes.values.len() implies (
        #[trigger] after.indexes.values[j]).contents() == keys_in(
            after.rows@,
            after.indexes.names[j]@,
        ) by {
            assert(self.indexes.values[j].contents() == keys_in(self.rows@, self.indexes.names[j]@));
            assert(after.rows@.drop_last() =~= self.rows@);
            assert(after.rows@.last() == row);
        }
    }

    /// In a table whose indexes are those of its rows, an indexed search
    /// in a column that has an index finds every row with that key there.
    pub proof fn lemma_indexed_lookup(&self, column: Seq<char>, value: u16)
        requires
            self.wf(),
            self.indexed(),
            self.indexes.has(column),
        ensures
            self.lookup(column, value) == select(self.rows@, column, value),
    {
        let j = self.indexes.place(column);
        let index = self.indexes.values[j];
        assert(index.contents() == keys_in(self.rows@, self.indexes.names[j]@));
        vstd::seq_lib::to_multiset_contains(index@, value);
        lemma_select_count(self.rows@, column, value);
        if !index@.contains(value) {
            assert(select(self.rows@, column, value) =~= Seq::<Row>::empty());
        }
    }

    /// The rows that an indexed search for `value` in `column` finds: where
    /// the column has an index and the index holds `value`, the rows whose
    /// key in the column is `value`; else none.
    pub open spec fn lookup(&self, column: Seq<char>, value: u16) -> Seq<Row> {
        if self.indexes.has(column) && self.indexes.values[self.indexes.place(column)]@.contains(
            value,
        ) {
            select(self.rows@, column, value)
        } else {
            Seq::empty()
        }
    }

    /// A table of the given parts.
    pub fn new(columns: Vec<String>, rows: Vec<Row>, indexes: NameMap<BTree>) -> (table: Self)
        ensures
            table.columns == columns,
            table.rows == rows,
            table.indexes == indexes,
    {
        Table { columns, rows, indexes }
    }

    /// Adds `row` as the last row and puts its index keys into the indexes.
    /// Returns the identifier of the row.
    pub fn add_row(&mut self, row: Row) -> (id: usize)
        requires
            old(self).wf(),
            row.wf(),
        ensures
            final(self).wf(),
            old(self).gains_row(*final(self), row),
            old(self).indexed() ==> final(self).indexed(),
            id == old(self).rows.len(),
    {
        let ghost before = *self;
        let id = self.rows.len();
        let mut j: usize = 0;
        while j < self.indexes.names.len()
            invariant
                j <= self.indexes.names.len(),
                row.wf(),
                before.wf(),
                self.columns == before.columns,
                self.rows == before.rows,
                self.indexes.names == before.indexes.names,
                self.indexes.values.len() == before.indexes.values.len(),
                forall|x: int|
                    0 <= x < self.indexes.values.len() ==> (#[trigger] self.indexes.values[x]).wf(),
                forall|x: int|
                    0 <= x < j ==> {
                        &&& (#[trigger] self.indexes.values[x]).model()
                            == before.index_model_after(x, row)
                        &&& self.indexes.values[x].contents() == before.index_after(x, row)
                    },
                forall|x: int|
                    j <= x < self.indexes.values.len() ==> self.indexes.values[x]
                        == before.indexes.values[x],
            decreases self.indexes.names.len() - j,
        {
            match row.key_for(self.indexes.names[j].as_str()) {
                Some(key) => {
                    let index = &mut self.indexes.values[j];
                    index.insert(key);
                },
                None => {},
            }
            j += 1;
        }
        self.rows.push(row);
        proof {
            if before.indexed() {
                before.lemma_gains_row_indexed(*self, row);
            }
        }
        id
    }

    /// The rows that an indexed search for `value` in `column` finds.
    pub fn search(&self, column: &str, value: u16) -> (out: Vec<&Row>)
        requires
            self.wf(),
        ensures
            out@.map_values(|r: &Row| *r) == self.lookup(column@, value),
    {
        let mut out: Vec<&Row> = Vec::new();
        let hit = match self.indexes.get(column) {
            Some(index) => {
                proof {
                    index.lemma_wf_ordered();
                }
                index.search(value)
            },
            None => false,
        };
        if !hit {
            assert(out@.map_values(|r: &Row| *r) =~= Seq::<Row>::empty());
            return out;
        }
        let mut i: usize = 0;
        assert(self.rows@.take(0) =~= Seq::<Row>::empty());
        assert(out@.map_values(|r: &Row| *r) =~= Seq::<Row>::empty());
        while i < self.rows.len()
            invariant
                i <= self.rows.len(),
                self.wf(),
                out@.map_values(|r: &Row| *r) == select(self.rows@.take(i as int), column@, value),
            decreases self.rows.len() - i,
        {
            let row = &self.rows[i];
            let ghost found = out@.map_values(|r: &Row| *r);
            proof {
                let longer = self.rows@.take(i + 1);
                assert(longer.drop_last() =~= self.rows@.take(i as int));
                assert(longer.last() == self.rows[i as int]);
            }
            if row.key_for(column) == Some(value) {
                out.push(row);
                assert(out@.map_values(|r: &Row| *r) =~= found.push(*row));
            }
            i += 1;
        }
        assert(self.rows@.take(i as int) =~= self.rows@);
        out
    }
}

} // verus!
