use crate::db::b_tree::{NodeModel, TreeModel};
use crate::db::wire::{
    dec_count, dec_text, dec_u16, dec_u64, dec_u8, enc_text, enc_u16, enc_u64, lemma_count_more,
    lemma_count_round, lemma_text_more, lemma_text_round, lemma_u16_more, lemma_u16_round,
    lemma_u64_more, lemma_u64_round, lemma_u8_more,
};
use vstd::prelude::*;
use vstd::utf8::encode_utf8;

verus! {

/// The first eight bytes of every image, as a number.
pub const MAGIC: u64 = 0x4244_4e41_4452_4f4a;

/// The version of the layout that this library writes and reads.
pub const VERSION: u16 = 1;

/// What a row is: its columns with their values, in order.
pub type RowModel = Seq<(Seq<char>, Seq<char>)>;

/// What a table is: its columns, its rows by identifier, and its indexes
/// with the columns that they are for.
pub struct TableModel {
    pub columns: Seq<Seq<char>>,
    pub rows: Seq<RowModel>,
    pub indexes: Seq<(Seq<char>, TreeModel)>,
}

/// What a store is: the name of the database and the tables with their names.
pub struct StoreModel {
    pub name: Seq<char>,
    pub tables: Seq<(Seq<char>, TableModel)>,
}

/// The parts one after the other.
pub open spec fn join(parts: Seq<Seq<u8>>) -> Seq<u8>
    decreases parts.len(),
{
    if parts.len() == 0 {
        Seq::empty()
    } else {
        parts.first() + join(parts.drop_first())
    }
}

/// The images of the keys, in order.
pub open spec fn key_parts(keys: Seq<u16>) -> Seq<Seq<u8>> {
    keys.map_values(|k: u16| enc_u16(k))
}

/// The images of the texts, in order.
pub open spec fn text_parts(texts: Seq<Seq<char>>) -> Seq<Seq<u8>> {
    texts.map_values(|c: Seq<char>| enc_text(c))
}

/// The byte that stands for a flag.
pub open spec fn enc_flag(flag: bool) -> Seq<u8> {
    seq![if flag { 1u8 } else { 0u8 }]
}

/// The images of the children of `m`, in order.
pub open spec fn child_parts(m: NodeModel) -> Seq<Seq<u8>>
    decreases m, 0nat,
{
    Seq::new(
        m.children.len(),
        |j: int|
            if 0 <= j < m.children.len() {
                enc_node(m.children[j])
            } else {
                Seq::empty()
            },
    )
}

/// The image of a node: the leaf flag, the number of keys, the keys, and
/// for a node that is no leaf the number of children and their images.
pub open spec fn enc_node(m: NodeModel) -> Seq<u8>
    decreases m, 1nat,
{
    enc_flag(m.leaf) + enc_u64(m.keys.len() as u64) + join(key_parts(m.keys))
        + if m.leaf {
        Seq::empty()
    } else {
        enc_u64(m.children.len() as u64) + join(child_parts(m))
    }
}

/// The image of a tree: the minimum degree, whether there is a root, and
/// the image of the root.
pub open spec fn enc_tree(m: TreeModel) -> Seq<u8> {
    enc_u64(m.t as u64) + match m.root {
        None => enc_flag(false),
        Some(root) => enc_flag(true) + enc_node(root),
    }
}

/// The image of a column with its value.
pub open spec fn enc_pair(p: (Seq<char>, Seq<char>)) -> Seq<u8> {
    enc_text(p.0) + enc_text(p.1)
}

/// The images of the columns of a row with their values, in order.
pub open spec fn pair_parts(m: RowModel) -> Seq<Seq<u8>> {
    m.map_values(|p: (Seq<char>, Seq<char>)| enc_pair(p))
}

/// The image of a row: the number of its columns, then each with its value.
pub open spec fn enc_row(m: RowModel) -> Seq<u8> {
    enc_u64(m.len() as u64) + join(pair_parts(m))
}

/// The images of the rows, each behind its identifier.
pub open spec fn row_parts(rows: Seq<RowModel>) -> Seq<Seq<u8>> {
    rows.map(|i: int, r: RowModel| enc_u64(i as u64) + enc_row(r))
}

/// The images of the indexes with their columns, in order.
pub open spec fn index_parts(indexes: Seq<(Seq<char>, TreeModel)>) -> Seq<Seq<u8>> {
    indexes.map_values(|p: (Seq<char>, TreeModel)| enc_index(p))
}

/// The image of an index with the column that it is for.
pub open spec fn enc_index(p: (Seq<char>, TreeModel)) -> Seq<u8> {
    enc_text(p.0) + enc_tree(p.1)
}

/// The image of a table: the columns, the rows, each behind its
/// identifier, and the indexes, each list behind its length.
pub open spec fn enc_table(m: TableModel) -> Seq<u8> {
    enc_u64(m.columns.len() as u64) + join(text_parts(m.columns)) + enc_u64(m.rows.len() as u64)
        + join(row_parts(m.rows)) + enc_u64(m.indexes.len() as u64) + join(index_parts(m.indexes))
}

/// The images of the tables with their names, in order.
pub open spec fn table_parts(tables: Seq<(Seq<char>, TableModel)>) -> Seq<Seq<u8>> {
    tables.map_values(|p: (Seq<char>, TableModel)| enc_named_table(p))
}

/// The image of a table with its name.
pub open spec fn enc_named_table(p: (Seq<char>, TableModel)) -> Seq<u8> {
    enc_text(p.0) + enc_table(p.1)
}

/// The image of a store: the magic number, the version, the name of the
/// database, the number of tables, and each table behind its name.
pub open spec fn enc_store(m: StoreModel) -> Seq<u8> {
    enc_u64(MAGIC) + enc_u16(VERSION) + enc_text(m.name) + enc_u64(m.tables.len() as u64) + join(
        table_parts(m.tables),
    )
}

/// Reads `n` more items, the next of which has the index `acc.len()`, and
/// returns them behind the items `acc`, with the bytes that follow.
pub open spec fn dec_many<T>(
    b: Seq<u8>,
    n: nat,
    item: spec_fn(int, Seq<u8>) -> Option<(T, Seq<u8>)>,
    acc: Seq<T>,
) -> Option<(Seq<T>, Seq<u8>)>
    decreases n,
{
    if n == 0 {
        Some((acc, b))
    } else {
        match item(acc.len() as int, b) {
            Some((x, rest)) => dec_many(rest, (n - 1) as nat, item, acc.push(x)),
            None => None,
        }
    }
}

/// Reads a key, whatever its index.
pub open spec fn key_item() -> spec_fn(int, Seq<u8>) -> Option<(u16, Seq<u8>)> {
    |i: int, x: Seq<u8>| dec_u16(x)
}

/// Reads a text, whatever its index.
pub open spec fn text_item() -> spec_fn(int, Seq<u8>) -> Option<(Seq<char>, Seq<u8>)> {
    |i: int, x: Seq<u8>| dec_text(x)
}

/// Reads a column with its value, whatever its index.
pub open spec fn pair_item() -> spec_fn(int, Seq<u8>) -> Option<((Seq<char>, Seq<char>), Seq<u8>)> {
    |i: int, x: Seq<u8>| dec_pair(x)
}

/// Reads the row whose identifier is its index.
pub open spec fn row_item() -> spec_fn(int, Seq<u8>) -> Option<(RowModel, Seq<u8>)> {
    |i: int, x: Seq<u8>| dec_row_at(i, x)
}

/// Reads an index with its column, whatever its index.
pub open spec fn index_item() -> spec_fn(int, Seq<u8>) -> Option<((Seq<char>, TreeModel), Seq<u8>)> {
    |i: int, x: Seq<u8>| dec_index(x)
}

/// Reads a table with its name, whatever its index.
pub open spec fn table_item() -> spec_fn(int, Seq<u8>) -> Option<((Seq<char>, TableModel), Seq<u8>)> {
    |i: int, x: Seq<u8>| dec_named_table(x)
}

/// Reads a flag: a byte that is 0 or 1.
pub open spec fn dec_flag(b: Seq<u8>) -> Option<(bool, Seq<u8>)> {
    match dec_u8(b) {
        Some((x, rest)) => if x == 0 {
            Some((false, rest))
        } else if x == 1 {
            Some((true, rest))
        } else {
            None
        },
        None => None,
    }
}

/// Reads a node.
pub open spec fn dec_node(b: Seq<u8>) -> Option<(NodeModel, Seq<u8>)>
    decreases b.len(), 0nat,
{
    match dec_flag(b) {
        None => None,
        Some((leaf, b1)) => match dec_count(b1) {
            None => None,
            Some((n, b2)) => match dec_many(b2, n as nat, key_item(), Seq::empty()) {
                None => None,
                Some((keys, b3)) => if leaf {
                    Some((NodeModel { leaf, keys, children: Seq::empty() }, b3))
                } else {
                    match dec_count(b3) {
                        None => None,
                        Some((c, b4)) => if b4.len() < b.len() {
                            match dec_nodes(b4, c as nat, Seq::empty()) {
                                None => None,
                                Some((children, b5)) => Some((NodeModel { leaf, keys, children }, b5)),
                            }
                        } else {
                            None
                        },
                    }
                },
            },
        },
    }
}

/// Reads `n` more nodes and returns them behind the nodes `acc`.
pub open spec fn dec_nodes(b: Seq<u8>, n: nat, acc: Seq<NodeModel>) -> Option<
    (Seq<NodeModel>, Seq<u8>),
>
    decreases b.len(), n + 1,
{
    if n == 0 {
        Some((acc, b))
    } else {
        match dec_node(b) {
            None => None,
            Some((x, rest)) => if rest.len() < b.len() {
                dec_nodes(rest, (n - 1) as nat, acc.push(x))
            } else {
                None
            },
        }
    }
}

/// Reads a tree.
pub open spec fn dec_tree(b: Seq<u8>) -> Option<(TreeModel, Seq<u8>)> {
    match dec_count(b) {
        None => None,
        Some((t, b1)) => match dec_flag(b1) {
            None => None,
            Some((rooted, b2)) => if rooted {
                match dec_node(b2) {
                    None => None,
                    Some((root, b3)) => Some((TreeModel { t, root: Some(root) }, b3)),
                }
            } else {
                Some((TreeModel { t, root: None }, b2))
            },
        },
    }
}

/// Reads a column with its value.
pub open spec fn dec_pair(b: Seq<u8>) -> Option<((Seq<char>, Seq<char>), Seq<u8>)> {
    match dec_text(b) {
        None => None,
        Some((column, b1)) => match dec_text(b1) {
            None => None,
            Some((value, b2)) => Some(((column, value), b2)),
        },
    }
}

/// Reads a row.
pub open spec fn dec_row(b: Seq<u8>) -> Option<(RowModel, Seq<u8>)> {
    match dec_count(b) {
        None => None,
        Some((n, b1)) => dec_many(b1, n as nat, pair_item(), Seq::empty()),
    }
}

/// Reads the row with the identifier `id`: the identifier, then the row.
pub open spec fn dec_row_at(id: int, b: Seq<u8>) -> Option<(RowModel, Seq<u8>)> {
    match dec_u64(b) {
        None => None,
        Some((x, b1)) => if x == id {
            dec_row(b1)
        } else {
            None
        },
    }
}

/// Reads an index with the column that it is for.
pub open spec fn dec_index(b: Seq<u8>) -> Option<((Seq<char>, TreeModel), Seq<u8>)> {
    match dec_text(b) {
        None => None,
        Some((column, b1)) => match dec_tree(b1) {
            None => None,
            Some((tree, b2)) => Some(((column, tree), b2)),
        },
    }
}

/// Reads a table.
pub open spec fn dec_table(b: Seq<u8>) -> Option<(TableModel, Seq<u8>)> {
    match dec_count(b) {
        None => None,
        Some((nc, b1)) => match dec_many(b1, nc as nat, text_item(), Seq::empty()) {
            None => None,
            Some((columns, b2)) => match dec_count(b2) {
                None => None,
                Some((nr, b3)) => match dec_many(b3, nr as nat, row_item(), Seq::empty()) {
                    None => None,
                    Some((rows, b4)) => match dec_count(b4) {
                        None => None,
                        Some((ni, b5)) => match dec_many(b5, ni as nat, index_item(), Seq::empty()) {
                            None => None,
                            Some((indexes, b6)) => Some((TableModel { columns, rows, indexes }, b6)),
                        },
                    },
                },
            },
        },
    }
}

/// Reads a table with its name.
pub open spec fn dec_named_table(b: Seq<u8>) -> Option<((Seq<char>, TableModel), Seq<u8>)> {
    match dec_text(b) {
        None => None,
        Some((name, b1)) => match dec_table(b1) {
            None => None,
            Some((table, b2)) => Some(((name, table), b2)),
        },
    }
}

/// Reads a store: the magic number and the version must be those of this
/// layout, and nothing may follow the last table.
pub open spec fn dec_store(b: Seq<u8>) -> Option<StoreModel> {
    match dec_u64(b) {
        None => None,
        Some((magic, b1)) => match dec_u16(b1) {
            None => None,
            Some((version, b2)) => if magic != MAGIC || version != VERSION {
                None
            } else {
                match dec_text(b2) {
                    None => None,
                    Some((name, b3)) => match dec_count(b3) {
                        None => None,
                        Some((n, b4)) => match dec_many(b4, n as nat, table_item(), Seq::empty()) {
                            None => None,
                            Some((tables, b5)) => if b5.len() == 0 {
                                Some(StoreModel { name, tables })
                            } else {
                                None
                            },
                        },
                    },
                }
            },
        },
    }
}

/// Whether the text can be written: the length of its UTF-8 form fits in
/// 64 bits.
pub open spec fn text_fits(s: Seq<char>) -> bool {
    encode_utf8(s).len() <= u64::MAX
}

/// Whether the node can be written and read back: a leaf has no children,
/// and the counts fit in a `usize`.
pub open spec fn node_fits(m: NodeModel) -> bool
    decreases m,
{
    &&& m.keys.len() <= usize::MAX
    &&& m.children.len() <= usize::MAX
    &&& m.leaf ==> m.children.len() == 0
    &&& forall|j: int| 0 <= j < m.children.len() ==> node_fits(#[trigger] m.children[j])
}

/// Whether the tree can be written and read back.
pub open spec fn tree_fits(m: TreeModel) -> bool {
    match m.root {
        None => true,
        Some(root) => node_fits(root),
    }
}

/// Whether the row can be written and read back.
pub open spec fn row_fits(m: RowModel) -> bool {
    &&& m.len() <= usize::MAX
    &&& forall|j: int| 0 <= j < m.len() ==> text_fits((#[trigger] m[j]).0) && text_fits(m[j].1)
}

/// Whether the table can be written and read back.
pub open spec fn table_fits(m: TableModel) -> bool {
    &&& m.columns.len() <= usize::MAX
    &&& m.rows.len() <= usize::MAX
    &&& m.indexes.len() <= usize::MAX
    &&& forall|j: int| 0 <= j < m.columns.len() ==> text_fits(#[trigger] m.columns[j])
    &&& forall|j: int| 0 <= j < m.rows.len() ==> row_fits(#[trigger] m.rows[j])
    &&& forall|j: int|
        0 <= j < m.indexes.len() ==> text_fits((#[trigger] m.indexes[j]).0) && tree_fits(
            m.indexes[j].1,
        )
}

/// Whether the store can be written and read back: every count fits in a
/// `usize`, the length of every text in 64 bits, and no leaf has children.
pub open spec fn store_fits(m: StoreModel) -> bool {
    &&& text_fits(m.name)
    &&& m.tables.len() <= usize::MAX
    &&& forall|j: int|
        0 <= j < m.tables.len() ==> text_fits((#[trigger] m.tables[j]).0) && table_fits(
            m.tables[j].1,
        )
}

/// Joining after one more part adds the part at the end.
pub proof fn lemma_join_push(parts: Seq<Seq<u8>>, last: Seq<u8>)
    ensures
        join(parts.push(last)) == join(parts) + last,
    decreases parts.len(),
{
    let all = parts.push(last);
    if parts.len() == 0 {
        assert(all.drop_first() =~= Seq::<Seq<u8>>::empty());
        assert(join(all.drop_first()) =~= Seq::<u8>::empty());
        assert(join(parts) =~= Seq::<u8>::empty());
        assert(join(all) =~= join(parts) + last);
    } else {
        lemma_join_push(parts.drop_first(), last);
        assert(all.drop_first() =~= parts.drop_first().push(last));
        assert(all.first() == parts.first());
        assert(join(all) =~= join(parts) + last);
    }
}

/// Items that are each read back from their part are read back, all of
/// them, from the parts joined.
pub proof fn lemma_many_round<T>(
    items: Seq<T>,
    parts: Seq<Seq<u8>>,
    item: spec_fn(int, Seq<u8>) -> Option<(T, Seq<u8>)>,
    tail: Seq<u8>,
    k: int,
)
    requires
        parts.len() == items.len(),
        0 <= k <= items.len(),
        forall|j: int|
            0 <= j < items.len() ==> item(j, parts[j] + (join(parts.skip(j + 1)) + tail)) == Some(
                (#[trigger] items[j], join(parts.skip(j + 1)) + tail),
            ),
    ensures
        dec_many(join(parts.skip(k)) + tail, (items.len() - k) as nat, item, items.take(k)) == Some(
            (items, tail),
        ),
    decreases items.len() - k,
{
    if k == items.len() {
        assert(parts.skip(k) =~= Seq::<Seq<u8>>::empty());
        assert(join(parts.skip(k)) + tail =~= tail);
        assert(items.take(k) =~= items);
    } else {
        lemma_many_round(items, parts, item, tail, k + 1);
        let here = parts.skip(k);
        assert(here.first() == parts[k]);
        assert(here.drop_first() =~= parts.skip(k + 1));
        assert(join(here) + tail =~= parts[k] + (join(parts.skip(k + 1)) + tail));
        assert(items.take(k).push(items[k]) =~= items.take(k + 1));
        assert(items.take(k).len() == k);
    }
}

/// A node is read back from its image.
pub proof fn lemma_node_round(m: NodeModel, tail: Seq<u8>)
    requires
        node_fits(m),
    ensures
        dec_node(enc_node(m) + tail) == Some((m, tail)),
        enc_node(m).len() > 0,
    decreases m, 2nat, 0nat,
{
    let key_parts = key_parts(m.keys);
    let count = enc_u64(m.keys.len() as u64);
    let kids = if m.leaf {
        Seq::<u8>::empty()
    } else {
        enc_u64(m.children.len() as u64) + join(child_parts(m))
    };
    let b = enc_node(m) + tail;
    let b1 = count + join(key_parts) + kids + tail;
    let b2 = join(key_parts) + kids + tail;
    let b3 = kids + tail;
    assert(b =~= enc_flag(m.leaf) + b1);
    assert(b.skip(1) =~= b1);
    assert(dec_flag(b) == Some((m.leaf, b1)));
    lemma_count_round(m.keys.len() as usize, b2);
    assert(b1 =~= count + b2);
    assert forall|j: int| 0 <= j < m.keys.len() implies key_item()(
        j,
        key_parts[j] + (join(key_parts.skip(j + 1)) + b3),
    ) == Some((#[trigger] m.keys[j], join(key_parts.skip(j + 1)) + b3)) by {
        lemma_u16_round(m.keys[j], join(key_parts.skip(j + 1)) + b3);
    }
    lemma_many_round(m.keys, key_parts, key_item(), b3, 0);
    assert(key_parts.skip(0) =~= key_parts);
    assert(m.keys.take(0) =~= Seq::<u16>::empty());
    assert(b2 =~= join(key_parts) + b3);
    if !m.leaf {
        let b4 = join(child_parts(m)) + tail;
        lemma_count_round(m.children.len() as usize, b4);
        assert(b3 =~= enc_u64(m.children.len() as u64) + b4);
        lemma_u64_round(m.keys.len() as u64, b2);
        lemma_u64_round(m.children.len() as u64, b4);
        assert(b4.len() < b.len());
        lemma_nodes_round(m, tail, 0);
        assert(child_parts(m).skip(0) =~= child_parts(m));
        assert(m.children.take(0) =~= Seq::<NodeModel>::empty());
    } else {
        assert(m.children =~= Seq::<NodeModel>::empty());
        assert(b3 =~= tail);
    }
}

/// The children of a node, from the `k`th on, are read back from their
/// images joined.
pub proof fn lemma_nodes_round(m: NodeModel, tail: Seq<u8>, k: int)
    requires
        node_fits(m),
        0 <= k <= m.children.len(),
    ensures
        dec_nodes(
            join(child_parts(m).skip(k)) + tail,
            (m.children.len() - k) as nat,
            m.children.take(k),
        ) == Some((m.children, tail)),
    decreases m, 1nat, m.children.len() - k,
{
    let parts = child_parts(m);
    if k == m.children.len() {
        assert(parts.skip(k) =~= Seq::<Seq<u8>>::empty());
        assert(join(parts.skip(k)) + tail =~= tail);
        assert(m.children.take(k) =~= m.children);
    } else {
        lemma_nodes_round(m, tail, k + 1);
        let here = parts.skip(k);
        let rest = join(parts.skip(k + 1)) + tail;
        assert(here.first() == parts[k]);
        assert(here.drop_first() =~= parts.skip(k + 1));
        assert(join(here) + tail =~= parts[k] + rest);
        lemma_node_round(m.children[k], rest);
        assert(parts[k] == enc_node(m.children[k]));
        assert(rest.len() < (parts[k] + rest).len());
        assert(m.children.take(k).push(m.children[k]) =~= m.children.take(k + 1));
    }
}

/// A tree is read back from its image.
pub proof fn lemma_tree_round(m: TreeModel, tail: Seq<u8>)
    requires
        tree_fits(m),
    ensures
        dec_tree(enc_tree(m) + tail) == Some((m, tail)),
{
    let b = enc_tree(m) + tail;
    match m.root {
        None => {
            let b1 = enc_flag(false) + tail;
            lemma_count_round(m.t, b1);
            assert(b =~= enc_u64(m.t as u64) + b1);
            assert(b1.skip(1) =~= tail);
        },
        Some(root) => {
            let b2 = enc_node(root) + tail;
            let b1 = enc_flag(true) + b2;
            lemma_count_round(m.t, b1);
            assert(b =~= enc_u64(m.t as u64) + b1);
            assert(b1.skip(1) =~= b2);
            lemma_node_round(root, tail);
        },
    }
}

/// A column with its value is read back from its image.
pub proof fn lemma_pair_round(p: (Seq<char>, Seq<char>), tail: Seq<u8>)
    requires
        text_fits(p.0),
        text_fits(p.1),
    ensures
        dec_pair(enc_pair(p) + tail) == Some((p, tail)),
{
    lemma_text_round(p.0, enc_text(p.1) + tail);
    lemma_text_round(p.1, tail);
    assert(enc_pair(p) + tail =~= enc_text(p.0) + (enc_text(p.1) + tail));
}

/// The columns of a row with their values are read back from their images.
pub proof fn lemma_pairs_round(m: RowModel, tail: Seq<u8>)
    requires
        row_fits(m),
    ensures
        dec_many(join(pair_parts(m)) + tail, m.len(), pair_item(), Seq::empty()) == Some((m, tail)),
{
    let parts = pair_parts(m);
    assert forall|j: int| 0 <= j < m.len() implies pair_item()(
        j,
        parts[j] + (join(parts.skip(j + 1)) + tail),
    ) == Some((#[trigger] m[j], join(parts.skip(j + 1)) + tail)) by {
        lemma_pair_round(m[j], join(parts.skip(j + 1)) + tail);
    }
    lemma_many_round(m, parts, pair_item(), tail, 0);
    assert(parts.skip(0) =~= parts);
    assert(m.take(0) =~= Seq::<(Seq<char>, Seq<char>)>::empty());
}

/// A row is read back from its image.
pub proof fn lemma_row_round(m: RowModel, tail: Seq<u8>)
    requires
        row_fits(m),
    ensures
        dec_row(enc_row(m) + tail) == Some((m, tail)),
{
    let b1 = join(pair_parts(m)) + tail;
    lemma_count_round(m.len() as usize, b1);
    assert(enc_row(m) + tail =~= enc_u64(m.len() as u64) + b1);
    lemma_pairs_round(m, tail);
}

/// An index with its column is read back from its image.
pub proof fn lemma_index_round(p: (Seq<char>, TreeModel), tail: Seq<u8>)
    requires
        text_fits(p.0),
        tree_fits(p.1),
    ensures
        dec_index(enc_index(p) + tail) == Some((p, tail)),
{
    lemma_text_round(p.0, enc_tree(p.1) + tail);
    lemma_tree_round(p.1, tail);
    assert(enc_index(p) + tail =~= enc_text(p.0) + (enc_tree(p.1) + tail));
}

/// Texts are read back from their images.
pub proof fn lemma_texts_round(texts: Seq<Seq<char>>, tail: Seq<u8>)
    requires
        forall|j: int| 0 <= j < texts.len() ==> text_fits(#[trigger] texts[j]),
    ensures
        dec_many(join(text_parts(texts)) + tail, texts.len(), text_item(), Seq::empty()) == Some(
            (texts, tail),
        ),
{
    let parts = text_parts(texts);
    assert forall|j: int| 0 <= j < texts.len() implies text_item()(
        j,
        parts[j] + (join(parts.skip(j + 1)) + tail),
    ) == Some((#[trigger] texts[j], join(parts.skip(j + 1)) + tail)) by {
        lemma_text_round(texts[j], join(parts.skip(j + 1)) + tail);
    }
    lemma_many_round(texts, parts, text_item(), tail, 0);
    assert(parts.skip(0) =~= parts);
    assert(texts.take(0) =~= Seq::<Seq<char>>::empty());
}

/// Rows are read back from their images, each behind its identifier.
pub proof fn lemma_rows_round(rows: Seq<RowModel>, tail: Seq<u8>)
    requires
        rows.len() <= usize::MAX,
        forall|j: int| 0 <= j < rows.len() ==> row_fits(#[trigger] rows[j]),
    ensures
        dec_many(join(row_parts(rows)) + tail, rows.len(), row_item(), Seq::empty()) == Some(
            (rows, tail),
        ),
{
    let parts = row_parts(rows);
    assert forall|j: int| 0 <= j < rows.len() implies row_item()(
        j,
        parts[j] + (join(parts.skip(j + 1)) + tail),
    ) == Some((#[trigger] rows[j], join(parts.skip(j + 1)) + tail)) by {
        let rest = join(parts.skip(j + 1)) + tail;
        lemma_u64_round(j as u64, enc_row(rows[j]) + rest);
        lemma_row_round(rows[j], rest);
        assert(parts[j] + rest =~= enc_u64(j as u64) + (enc_row(rows[j]) + rest));
    }
    lemma_many_round(rows, parts, row_item(), tail, 0);
    assert(parts.skip(0) =~= parts);
    assert(rows.take(0) =~= Seq::<RowModel>::empty());
}

/// Indexes with their columns are read back from their images.
pub proof fn lemma_indexes_round(indexes: Seq<(Seq<char>, TreeModel)>, tail: Seq<u8>)
    requires
        forall|j: int|
            0 <= j < indexes.len() ==> text_fits((#[trigger] indexes[j]).0) && tree_fits(
                indexes[j].1,
            ),
    ensures
        dec_many(join(index_parts(indexes)) + tail, indexes.len(), index_item(), Seq::empty())
            == Some((indexes, tail)),
{
    let parts = index_parts(indexes);
    assert forall|j: int| 0 <= j < indexes.len() implies index_item()(
        j,
        parts[j] + (join(parts.skip(j + 1)) + tail),
    ) == Some((#[trigger] indexes[j], join(parts.skip(j + 1)) + tail)) by {
        lemma_index_round(indexes[j], join(parts.skip(j + 1)) + tail);
    }
    lemma_many_round(indexes, parts, index_item(), tail, 0);
    assert(parts.skip(0) =~= parts);
    assert(indexes.take(0) =~= Seq::<(Seq<char>, TreeModel)>::empty());
}

/// A table is read back from its image.
pub proof fn lemma_table_round(m: TableModel, tail: Seq<u8>)
    requires
        table_fits(m),
    ensures
        dec_table(enc_table(m) + tail) == Some((m, tail)),
{
    let b6 = tail;
    let b5 = join(index_parts(m.indexes)) + b6;
    let b4 = enc_u64(m.indexes.len() as u64) + b5;
    let b3 = join(row_parts(m.rows)) + b4;
    let b2 = enc_u64(m.rows.len() as u64) + b3;
    let b1 = join(text_parts(m.columns)) + b2;
    let b = enc_u64(m.columns.len() as u64) + b1;
    assert(enc_table(m) + tail =~= b);
    lemma_count_round(m.columns.len() as usize, b1);
    lemma_texts_round(m.columns, b2);
    lemma_count_round(m.rows.len() as usize, b3);
    lemma_rows_round(m.rows, b4);
    lemma_count_round(m.indexes.len() as usize, b5);
    lemma_indexes_round(m.indexes, b6);
}

/// A table with its name is read back from its image.
pub proof fn lemma_named_table_round(p: (Seq<char>, TableModel), tail: Seq<u8>)
    requires
        text_fits(p.0),
        table_fits(p.1),
    ensures
        dec_named_table(enc_named_table(p) + tail) == Some((p, tail)),
{
    lemma_text_round(p.0, enc_table(p.1) + tail);
    lemma_table_round(p.1, tail);
    assert(enc_named_table(p) + tail =~= enc_text(p.0) + (enc_table(p.1) + tail));
}

/// Tables with their names are read back from their images.
pub proof fn lemma_tables_round(tables: Seq<(Seq<char>, TableModel)>, tail: Seq<u8>)
    requires
        forall|j: int|
            0 <= j < tables.len() ==> text_fits((#[trigger] tables[j]).0) && table_fits(
                tables[j].1,
            ),
    ensures
        dec_many(join(table_parts(tables)) + tail, tables.len(), table_item(), Seq::empty())
            == Some((tables, tail)),
{
    let parts = table_parts(tables);
    assert forall|j: int| 0 <= j < tables.len() implies table_item()(
        j,
        parts[j] + (join(parts.skip(j + 1)) + tail),
    ) == Some((#[trigger] tables[j], join(parts.skip(j + 1)) + tail)) by {
        lemma_named_table_round(tables[j], join(parts.skip(j + 1)) + tail);
    }
    lemma_many_round(tables, parts, table_item(), tail, 0);
    assert(parts.skip(0) =~= parts);
    assert(tables.take(0) =~= Seq::<(Seq<char>, TableModel)>::empty());
}

/// Round trip: a store is read back from its image.
pub proof fn lemma_store_round(m: StoreModel)
    requires
        store_fits(m),
    ensures
        dec_store(enc_store(m)) == Some(m),
{
    let b5 = Seq::<u8>::empty();
    let b4 = join(table_parts(m.tables)) + b5;
    let b3 = enc_u64(m.tables.len() as u64) + b4;
    let b2 = enc_text(m.name) + b3;
    let b1 = enc_u16(VERSION) + b2;
    let b = enc_u64(MAGIC) + b1;
    assert(enc_store(m) =~= b);
    lemma_u64_round(MAGIC, b1);
    lemma_u16_round(VERSION, b2);
    lemma_text_round(m.name, b3);
    lemma_count_round(m.tables.len() as usize, b4);
    lemma_tables_round(m.tables, b5);
}

/// Whether what `item` reads from bytes it reads from them whatever
/// follows them, and leaves what follows behind what it left.
pub open spec fn grows<T>(item: spec_fn(int, Seq<u8>) -> Option<(T, Seq<u8>)>) -> bool {
    forall|i: int, b: Seq<u8>, ext: Seq<u8>|
        item(i, b) is Some ==> #[trigger] item(i, b + ext) == Some(
            (item(i, b).unwrap().0, item(i, b).unwrap().1 + ext),
        )
}

/// Items that are read from bytes are read from them whatever follows them.
pub proof fn lemma_many_more<T>(
    b: Seq<u8>,
    n: nat,
    item: spec_fn(int, Seq<u8>) -> Option<(T, Seq<u8>)>,
    acc: Seq<T>,
    ext: Seq<u8>,
)
    requires
        grows(item),
        dec_many(b, n, item, acc) is Some,
    ensures
        dec_many(b + ext, n, item, acc) == Some(
            (dec_many(b, n, item, acc).unwrap().0, dec_many(b, n, item, acc).unwrap().1 + ext),
        ),
    decreases n,
{
    if n > 0 {
        let (x, rest) = item(acc.len() as int, b)->0;
        assert(item(acc.len() as int, b + ext) == Some((x, rest + ext)));
        lemma_many_more(rest, (n - 1) as nat, item, acc.push(x), ext);
    }
}

/// A flag that is read from bytes is read from them whatever follows them.
pub proof fn lemma_flag_more(b: Seq<u8>, ext: Seq<u8>)
    requires
        dec_flag(b) is Some,
    ensures
        dec_flag(b + ext) == Some((dec_flag(b).unwrap().0, dec_flag(b).unwrap().1 + ext)),
{
    lemma_u8_more(b, ext);
}

/// Keys are read whatever follows them.
pub proof fn lemma_key_item_grows()
    ensures
        grows(key_item()),
{
    assert forall|i: int, b: Seq<u8>, ext: Seq<u8>| key_item()(i, b) is Some implies #[trigger] key_item()(
        i,
        b + ext,
    ) == Some((key_item()(i, b).unwrap().0, key_item()(i, b).unwrap().1 + ext)) by {
        lemma_u16_more(b, ext);
    }
}

/// Texts are read whatever follows them.
pub proof fn lemma_text_item_grows()
    ensures
        grows(text_item()),
{
    assert forall|i: int, b: Seq<u8>, ext: Seq<u8>| text_item()(i, b) is Some implies #[trigger] text_item()(
        i,
        b + ext,
    ) == Some((text_item()(i, b).unwrap().0, text_item()(i, b).unwrap().1 + ext)) by {
        lemma_text_more(b, ext);
    }
}

/// A node that is read from bytes is read from them whatever follows them.
pub proof fn lemma_node_more(b: Seq<u8>, ext: Seq<u8>)
    requires
        dec_node(b) is Some,
    ensures
        dec_node(b + ext) == Some((dec_node(b).unwrap().0, dec_node(b).unwrap().1 + ext)),
    decreases b.len(), 0nat,
{
    lemma_flag_more(b, ext);
    let (leaf, b1) = dec_flag(b)->0;
    lemma_count_more(b1, ext);
    let (n, b2) = dec_count(b1)->0;
    lemma_key_item_grows();
    lemma_many_more(b2, n as nat, key_item(), Seq::empty(), ext);
    let (keys, b3) = dec_many(b2, n as nat, key_item(), Seq::empty())->0;
    if !leaf {
        lemma_count_more(b3, ext);
        let (c, b4) = dec_count(b3)->0;
        lemma_nodes_more(b4, c as nat, Seq::empty(), ext);
    }
}

/// Nodes that are read from bytes are read from them whatever follows them.
pub proof fn lemma_nodes_more(b: Seq<u8>, n: nat, acc: Seq<NodeModel>, ext: Seq<u8>)
    requires
        dec_nodes(b, n, acc) is Some,
    ensures
        dec_nodes(b + ext, n, acc) == Some(
            (dec_nodes(b, n, acc).unwrap().0, dec_nodes(b, n, acc).unwrap().1 + ext),
        ),
    decreases b.len(), n + 1,
{
    if n > 0 {
        lemma_node_more(b, ext);
        let (x, rest) = dec_node(b)->0;
        lemma_nodes_more(rest, (n - 1) as nat, acc.push(x), ext);
    }
}

/// A tree that is read from bytes is read from them whatever follows them.
pub proof fn lemma_tree_more(b: Seq<u8>, ext: Seq<u8>)
    requires
        dec_tree(b) is Some,
    ensures
        dec_tree(b + ext) == Some((dec_tree(b).unwrap().0, dec_tree(b).unwrap().1 + ext)),
{
    lemma_count_more(b, ext);
    let (t, b1) = dec_count(b)->0;
    lemma_flag_more(b1, ext);
    let (rooted, b2) = dec_flag(b1)->0;
    if rooted {
        lemma_node_more(b2, ext);
    }
}

/// A column with its value that is read from bytes is read from them
/// whatever follows them.
pub proof fn lemma_pair_more(b: Seq<u8>, ext: Seq<u8>)
    requires
        dec_pair(b) is Some,
    ensures
        dec_pair(b + ext) == Some((dec_pair(b).unwrap().0, dec_pair(b).unwrap().1 + ext)),
{
    lemma_text_more(b, ext);
    let (column, b1) = dec_text(b)->0;
    lemma_text_more(b1, ext);
}

/// Columns with their values are read whatever follows them.
pub proof fn lemma_pair_item_grows()
    ensures
        grows(pair_item()),
{
    assert forall|i: int, b: Seq<u8>, ext: Seq<u8>| pair_item()(i, b) is Some implies #[trigger] pair_item()(
        i,
        b + ext,
    ) == Some((pair_item()(i, b).unwrap().0, pair_item()(i, b).unwrap().1 + ext)) by {
        lemma_pair_more(b, ext);
    }
}

/// A row that is read from bytes is read from them whatever follows them.
pub proof fn lemma_row_more(b: Seq<u8>, ext: Seq<u8>)
    requires
        dec_row(b) is Some,
    ensures
        dec_row(b + ext) == Some((dec_row(b).unwrap().0, dec_row(b).unwrap().1 + ext)),
{
    lemma_count_more(b, ext);
    let (n, b1) = dec_count(b)->0;
    lemma_pair_item_grows();
    lemma_many_more(b1, n as nat, pair_item(), Seq::empty(), ext);
}

/// Rows behind their identifiers are read whatever follows them.
pub proof fn lemma_row_item_grows()
    ensures
        grows(row_item()),
{
    assert forall|i: int, b: Seq<u8>, ext: Seq<u8>| row_item()(i, b) is Some implies #[trigger] row_item()(
        i,
        b + ext,
    ) == Some((row_item()(i, b).unwrap().0, row_item()(i, b).unwrap().1 + ext)) by {
        lemma_u64_more(b, ext);
        lemma_row_more(dec_u64(b).unwrap().1, ext);
    }
}

/// An index with its column that is read from bytes is read from them
/// whatever follows them.
pub proof fn lemma_index_more(b: Seq<u8>, ext: Seq<u8>)
    requires
        dec_index(b) is Some,
    ensures
        dec_index(b + ext) == Some((dec_index(b).unwrap().0, dec_index(b).unwrap().1 + ext)),
{
    lemma_text_more(b, ext);
    let (column, b1) = dec_text(b)->0;
    lemma_tree_more(b1, ext);
}

/// Indexes with their columns are read whatever follows them.
pub proof fn lemma_index_item_grows()
    ensures
        grows(index_item()),
{
    assert forall|i: int, b: Seq<u8>, ext: Seq<u8>| index_item()(i, b) is Some implies #[trigger] index_item()(
        i,
        b + ext,
    ) == Some((index_item()(i, b).unwrap().0, index_item()(i, b).unwrap().1 + ext)) by {
        lemma_index_more(b, ext);
    }
}

/// A table that is read from bytes is read from them whatever follows them.
pub proof fn lemma_table_more(b: Seq<u8>, ext: Seq<u8>)
    requires
        dec_table(b) is Some,
    ensures
        dec_table(b + ext) == Some((dec_table(b).unwrap().0, dec_table(b).unwrap().1 + ext)),
{
    lemma_count_more(b, ext);
    let (nc, b1) = dec_count(b)->0;
    lemma_text_item_grows();
    lemma_many_more(b1, nc as nat, text_item(), Seq::empty(), ext);
    let (columns, b2) = dec_many(b1, nc as nat, text_item(), Seq::empty())->0;
    lemma_count_more(b2, ext);
    let (nr, b3) = dec_count(b2)->0;
    lemma_row_item_grows();
    lemma_many_more(b3, nr as nat, row_item(), Seq::empty(), ext);
    let (rows, b4) = dec_many(b3, nr as nat, row_item(), Seq::empty())->0;
    lemma_count_more(b4, ext);
    let (ni, b5) = dec_count(b4)->0;
    lemma_index_item_grows();
    lemma_many_more(b5, ni as nat, index_item(), Seq::empty(), ext);
}

/// Tables with their names are read whatever follows them.
pub proof fn lemma_table_item_grows()
    ensures
        grows(table_item()),
{
    assert forall|i: int, b: Seq<u8>, ext: Seq<u8>| table_item()(i, b) is Some implies #[trigger] table_item()(
        i,
        b + ext,
    ) == Some((table_item()(i, b).unwrap().0, table_item()(i, b).unwrap().1 + ext)) by {
        lemma_text_more(b, ext);
        lemma_table_more(dec_text(b).unwrap().1, ext);
    }
}

/// Bytes that are the image of a store are no such image once more bytes
/// follow them.
pub proof fn lemma_store_trailing(b: Seq<u8>, ext: Seq<u8>)
    requires
        dec_store(b) is Some,
        ext.len() > 0,
    ensures
        dec_store(b + ext) is None,
{
    lemma_u64_more(b, ext);
    let (magic, b1) = dec_u64(b)->0;
    lemma_u16_more(b1, ext);
    let (version, b2) = dec_u16(b1)->0;
    lemma_text_more(b2, ext);
    let (name, b3) = dec_text(b2)->0;
    lemma_count_more(b3, ext);
    let (n, b4) = dec_count(b3)->0;
    lemma_table_item_grows();
    lemma_many_more(b4, n as nat, table_item(), Seq::empty(), ext);
}

/// Truncation: no proper prefix of the image of a store is the image of a
/// store. Nothing is read from it, and no store is written as it.
pub proof fn lemma_truncated(m: StoreModel, k: int)
    requires
        store_fits(m),
        0 <= k < enc_store(m).len(),
    ensures
        dec_store(enc_store(m).take(k)) is None,
        forall|other: StoreModel|
            store_fits(other) ==> #[trigger] enc_store(other) != enc_store(m).take(k),
{
    let full = enc_store(m);
    let prefix = full.take(k);
    let ext = full.skip(k);
    assert(full =~= prefix + ext);
    lemma_store_round(m);
    if dec_store(prefix) is Some {
        lemma_store_trailing(prefix, ext);
    }
    assert forall|other: StoreModel| store_fits(other) implies #[trigger] enc_store(other)
        != prefix by {
        lemma_store_round(other);
    }
}

} // verus!
