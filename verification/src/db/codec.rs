use crate::db::b_tree::{BTree, Node, NodeModel, TreeModel};
use crate::db::image::{
    child_parts, dec_flag, dec_many, dec_node, dec_nodes, dec_row, dec_store, dec_table, dec_tree,
    enc_index, enc_named_table, enc_node, enc_pair, enc_row, enc_store, enc_table, enc_tree,
    index_item, index_parts, join, key_item, key_parts, lemma_join_push, node_fits, pair_item,
    pair_parts, row_fits, row_item, row_parts, store_fits, table_fits, table_item, table_parts,
    text_fits, text_item, text_parts, tree_fits, RowModel, TableModel, MAGIC, VERSION,
};
use crate::db::name_map::NameMap;
use crate::db::schema::{Row, Table};
use crate::db::storage_engine::StorageEngine;
use crate::db::text::text_views;
use crate::db::wire::{
    enc_text, enc_u64, put_count, put_text, put_u16, put_u64, take_count, take_text, take_u16,
    take_u64, take_u8,
};
use vstd::prelude::*;
use vstd::string::StringSliceAdditionalSpecFns;

verus! {

/// Appends the image of the text `s` to `out`, and finds that it fits.
pub fn put_name(out: &mut Vec<u8>, s: &str)
    ensures
        final(out)@ == old(out)@ + enc_text(s@),
        text_fits(s@),
{
    let length = s.as_bytes().len();
    put_text(out, s);
}

/// Appends the image of the subtree of `node` to `out`.
pub fn put_node(out: &mut Vec<u8>, node: &Node)
    requires
        node.wf(node.t, 0),
    ensures
        final(out)@ == old(out)@ + enc_node(node.model()),
        node_fits(node.model()),
    decreases node,
{
    let ghost start = out@;
    let ghost m = node.model();
    proof {
        node.lemma_wf_shape(node.t, 0);
    }
    out.push(if node.leaf { 1u8 } else { 0u8 });
    put_count(out, node.n);
    let ghost head = out@;
    let ghost keys = key_parts(m.keys);
    let mut i: usize = 0;
    proof {
        assert(keys.take(0) =~= Seq::<Seq<u8>>::empty());
        assert(out@ =~= head + join(keys.take(0)));
    }
    while i < node.n
        invariant
            i <= node.n <= node.keys.len(),
            m == node.model(),
            keys == key_parts(m.keys),
            out@ == head + join(keys.take(i as int)),
        decreases node.n - i,
    {
        put_u16(out, node.keys[i]);
        proof {
            lemma_join_push(keys.take(i as int), keys[i as int]);
            assert(keys.take(i + 1) =~= keys.take(i as int).push(keys[i as int]));
            assert(out@ =~= head + join(keys.take(i + 1)));
        }
        i += 1;
    }
    proof {
        assert(keys.take(i as int) =~= keys);
    }
    if !node.leaf {
        put_count(out, node.children.len());
        let ghost head2 = out@;
        let ghost parts = child_parts(m);
        let mut j: usize = 0;
        proof {
            assert(parts.take(0) =~= Seq::<Seq<u8>>::empty());
            assert(out@ =~= head2 + join(parts.take(0)));
        }
        while j < node.children.len()
            invariant
                j <= node.children.len(),
                node.wf(node.t, 0),
                m == node.model(),
                parts == child_parts(m),
                out@ == head2 + join(parts.take(j as int)),
                forall|x: int| 0 <= x < j ==> node_fits(#[trigger] m.children[x]),
            decreases node.children.len() - j,
        {
            proof {
                node.lemma_wf_child(node.t, 0, j as int);
            }
            put_node(out, &node.children[j]);
            proof {
                assert(m.children[j as int] == node.children[j as int].model());
                lemma_join_push(parts.take(j as int), parts[j as int]);
                assert(parts.take(j + 1) =~= parts.take(j as int).push(parts[j as int]));
                assert(out@ =~= head2 + join(parts.take(j + 1)));
            }
            j += 1;
        }
        proof {
            assert(parts.take(j as int) =~= parts);
            assert(out@ =~= start + enc_node(m));
        }
    } else {
        proof {
            assert(out@ =~= start + enc_node(m));
        }
    }
}

/// Appends the image of `tree` to `out`.
pub fn put_tree(out: &mut Vec<u8>, tree: &BTree)
    requires
        tree.wf(),
    ensures
        final(out)@ == old(out)@ + enc_tree(tree.model()),
        tree_fits(tree.model()),
{
    let ghost start = out@;
    put_count(out, tree.t);
    match &tree.root {
        None => {
            out.push(0u8);
            assert(out@ =~= start + enc_tree(tree.model()));
        },
        Some(root) => {
            out.push(1u8);
            proof {
                root.lemma_wf_relax(tree.t, if root.leaf { 0nat } else { 1nat }, 0);
            }
            put_node(out, root);
            assert(out@ =~= start + enc_tree(tree.model()));
        },
    }
}

/// Appends the image of `row` to `out`.
pub fn put_row(out: &mut Vec<u8>, row: &Row)
    requires
        row.wf(),
    ensures
        final(out)@ == old(out)@ + enc_row(row.model()),
        row_fits(row.model()),
{
    let ghost start = out@;
    let ghost m = row.model();
    put_count(out, row.data.names.len());
    let ghost head = out@;
    let ghost parts = pair_parts(m);
    let mut i: usize = 0;
    proof {
        assert(parts.take(0) =~= Seq::<Seq<u8>>::empty());
        assert(out@ =~= head + join(parts.take(0)));
    }
    while i < row.data.names.len()
        invariant
            i <= row.data.names.len(),
            row.data.names.len() == row.data.values.len(),
            m == row.model(),
            parts == pair_parts(m),
            out@ == head + join(parts.take(i as int)),
            forall|x: int| 0 <= x < i ==> text_fits((#[trigger] m[x]).0) && text_fits(m[x].1),
        decreases row.data.names.len() - i,
    {
        let ghost before = out@;
        put_name(out, row.data.names[i].as_str());
        put_name(out, row.data.values[i].as_str());
        proof {
            assert(parts[i as int] == enc_pair(m[i as int]));
            assert(out@ =~= before + parts[i as int]);
            lemma_join_push(parts.take(i as int), parts[i as int]);
            assert(parts.take(i + 1) =~= parts.take(i as int).push(parts[i as int]));
            assert(out@ =~= head + join(parts.take(i + 1)));
        }
        i += 1;
    }
    proof {
        assert(parts.take(i as int) =~= parts);
        assert(out@ =~= start + enc_row(m));
    }
}

/// Appends the image of `table` to `out`.
pub fn put_table(out: &mut Vec<u8>, table: &Table)
    requires
        table.wf(),
    ensures
        final(out)@ == old(out)@ + enc_table(table.model()),
        table_fits(table.model()),
{
    let ghost start = out@;
    let ghost m = table.model();
    put_count(out, table.columns.len());
    let ghost head = out@;
    let ghost columns = text_parts(m.columns);
    let mut i: usize = 0;
    proof {
        assert(columns.take(0) =~= Seq::<Seq<u8>>::empty());
        assert(out@ =~= head + join(columns.take(0)));
    }
    while i < table.columns.len()
        invariant
            i <= table.columns.len(),
            m == table.model(),
            columns == text_parts(m.columns),
            out@ == head + join(columns.take(i as int)),
            forall|x: int| 0 <= x < i ==> text_fits(#[trigger] m.columns[x]),
        decreases table.columns.len() - i,
    {
        put_name(out, table.columns[i].as_str());
        proof {
            assert(m.columns[i as int] == table.columns[i as int]@);
            lemma_join_push(columns.take(i as int), columns[i as int]);
            assert(columns.take(i + 1) =~= columns.take(i as int).push(columns[i as int]));
            assert(out@ =~= head + join(columns.take(i + 1)));
        }
        i += 1;
    }
    proof {
        assert(columns.take(i as int) =~= columns);
    }
    put_count(out, table.rows.len());
    let ghost head2 = out@;
    let ghost rows = row_parts(m.rows);
    let mut r: usize = 0;
    proof {
        assert(rows.take(0) =~= Seq::<Seq<u8>>::empty());
        assert(out@ =~= head2 + join(rows.take(0)));
    }
    while r < table.rows.len()
        invariant
            r <= table.rows.len(),
            table.wf(),
            m == table.model(),
            rows == row_parts(m.rows),
            out@ == head2 + join(rows.take(r as int)),
            forall|x: int| 0 <= x < r ==> row_fits(#[trigger] m.rows[x]),
        decreases table.rows.len() - r,
    {
        let ghost before = out@;
        put_count(out, r);
        put_row(out, &table.rows[r]);
        proof {
            assert(m.rows[r as int] == table.rows[r as int].model());
            assert(rows[r as int] == enc_u64(r as u64) + enc_row(m.rows[r as int]));
            assert(out@ =~= before + rows[r as int]);
            lemma_join_push(rows.take(r as int), rows[r as int]);
            assert(rows.take(r + 1) =~= rows.take(r as int).push(rows[r as int]));
            assert(out@ =~= head2 + join(rows.take(r + 1)));
        }
        r += 1;
    }
    proof {
        assert(rows.take(r as int) =~= rows);
    }
    put_count(out, table.indexes.names.len());
    let ghost head3 = out@;
    let ghost indexes = index_parts(m.indexes);
    let mut j: usize = 0;
    proof {
        assert(indexes.take(0) =~= Seq::<Seq<u8>>::empty());
        assert(out@ =~= head3 + join(indexes.take(0)));
    }
    while j < table.indexes.names.len()
        invariant
            j <= table.indexes.names.len(),
            table.wf(),
            m == table.model(),
            indexes == index_parts(m.indexes),
            out@ == head3 + join(indexes.take(j as int)),
            forall|x: int|
                0 <= x < j ==> text_fits((#[trigger] m.indexes[x]).0) && tree_fits(m.indexes[x].1),
        decreases table.indexes.names.len() - j,
    {
        let ghost before = out@;
        put_name(out, table.indexes.names[j].as_str());
        put_tree(out, &table.indexes.values[j]);
        proof {
            assert(indexes[j as int] == enc_index(m.indexes[j as int]));
            assert(out@ =~= before + indexes[j as int]);
            lemma_join_push(indexes.take(j as int), indexes[j as int]);
            assert(indexes.take(j + 1) =~= indexes.take(j as int).push(indexes[j as int]));
            assert(out@ =~= head3 + join(indexes.take(j + 1)));
        }
        j += 1;
    }
    proof {
        assert(indexes.take(j as int) =~= indexes);
        assert(out@ =~= start + enc_table(m));
    }
}

/// Appends the image of `store` to `out`.
pub fn put_store(out: &mut Vec<u8>, store: &StorageEngine)
    requires
        store.wf(),
    ensures
        final(out)@ == old(out)@ + enc_store(store.model()),
        store_fits(store.model()),
{
    let ghost start = out@;
    let ghost m = store.model();
    put_u64(out, MAGIC);
    put_u16(out, VERSION);
    put_name(out, store.database_name.as_str());
    put_count(out, store.tables.names.len());
    let ghost head = out@;
    let ghost parts = table_parts(m.tables);
    let mut j: usize = 0;
    proof {
        assert(parts.take(0) =~= Seq::<Seq<u8>>::empty());
        assert(out@ =~= head + join(parts.take(0)));
    }
    while j < store.tables.names.len()
        invariant
            j <= store.tables.names.len(),
            store.wf(),
            m == store.model(),
            parts == table_parts(m.tables),
            out@ == head + join(parts.take(j as int)),
            forall|x: int|
                0 <= x < j ==> text_fits((#[trigger] m.tables[x]).0) && table_fits(m.tables[x].1),
        decreases store.tables.names.len() - j,
    {
        let ghost before = out@;
        put_name(out, store.tables.names[j].as_str());
        put_table(out, &store.tables.values[j]);
        proof {
            assert(parts[j as int] == enc_named_table(m.tables[j as int]));
            assert(out@ =~= before + parts[j as int]);
            lemma_join_push(parts.take(j as int), parts[j as int]);
            assert(parts.take(j + 1) =~= parts.take(j as int).push(parts[j as int]));
            assert(out@ =~= head + join(parts.take(j + 1)));
        }
        j += 1;
    }
    proof {
        assert(parts.take(j as int) =~= parts);
        assert(out@ =~= start + enc_store(m));
    }
}

/// Reads a flag at `pos`: a byte that is 0 or 1.
pub fn take_flag(bytes: &[u8], pos: usize) -> (out: Option<(bool, usize)>)
    requires
        pos <= bytes.len(),
    ensures
        match out {
            Some((flag, next)) => pos < next <= bytes.len() && dec_flag(bytes@.skip(pos as int))
                == Some((flag, bytes@.skip(next as int))),
            None => dec_flag(bytes@.skip(pos as int)) is None,
        },
{
    match take_u8(bytes, pos) {
        None => None,
        Some((x, next)) => {
            if x == 0 {
                Some((false, next))
            } else if x == 1 {
                Some((true, next))
            } else {
                None
            }
        },
    }
}

/// Reads `n` keys at `pos`.
fn take_keys(bytes: &[u8], pos: usize, n: usize) -> (out: Option<(Vec<u16>, usize)>)
    requires
        pos <= bytes.len(),
    ensures
        match out {
            Some((keys, next)) => pos <= next <= bytes.len() && keys.len() == n && dec_many(
                bytes@.skip(pos as int),
                n as nat,
                key_item(),
                Seq::empty(),
            ) == Some((keys@, bytes@.skip(next as int))),
            None => dec_many(bytes@.skip(pos as int), n as nat, key_item(), Seq::empty()) is None,
        },
{
    let mut keys: Vec<u16> = Vec::new();
    let mut p: usize = pos;
    let mut i: usize = 0;
    let ghost goal = dec_many(bytes@.skip(pos as int), n as nat, key_item(), Seq::empty());
    while i < n
        invariant
            i <= n,
            pos <= p <= bytes.len(),
            keys.len() == i,
            goal == dec_many(bytes@.skip(pos as int), n as nat, key_item(), Seq::empty()),
            goal == dec_many(bytes@.skip(p as int), (n - i) as nat, key_item(), keys@),
        decreases n - i,
    {
        match take_u16(bytes, p) {
            None => {
                return None;
            },
            Some((key, next)) => {
                keys.push(key);
                p = next;
                i += 1;
            },
        }
    }
    Some((keys, p))
}

/// Reads a subtree of a tree of minimum degree `t` at `pos`. The node that
/// is returned is tidy, with its unused key slots zeroed.
pub fn take_node(bytes: &[u8], pos: usize, t: usize) -> (out: Option<(Node, usize)>)
    requires
        pos <= bytes.len(),
    ensures
        match out {
            Some((node, next)) => pos < next <= bytes.len() && node.tidy(t) && dec_node(
                bytes@.skip(pos as int),
            ) == Some((node.model(), bytes@.skip(next as int))),
            None => dec_node(bytes@.skip(pos as int)) is None,
        },
    decreases bytes.len() - pos,
{
    let (leaf, p1) = match take_flag(bytes, pos) {
        None => {
            return None;
        },
        Some(found) => found,
    };
    let (n, p2) = match take_count(bytes, p1) {
        None => {
            return None;
        },
        Some(found) => found,
    };
    let (mut keys, p3) = match take_keys(bytes, p2, n) {
        None => {
            return None;
        },
        Some(found) => found,
    };
    let ghost read_keys = keys@;
    if t >= 2 && t <= usize::MAX / 2 && n <= 2 * t - 1 {
        let slots: usize = 2 * t - 1;
        while keys.len() < slots
            invariant
                n <= keys.len() <= slots,
                keys@.take(n as int) == read_keys,
                forall|x: int| n <= x < keys.len() ==> keys[x] == 0,
            decreases slots - keys.len(),
        {
            let ghost before = keys@;
            keys.push(0);
            assert(keys@.take(n as int) =~= before.take(n as int));
        }
    } else {
        assert(keys@.take(n as int) =~= read_keys);
    }
    let mut children: Vec<Box<Node>> = Vec::new();
    let mut p: usize = p3;
    let ghost mut kids: Seq<NodeModel> = Seq::empty();
    if !leaf {
        let (c, p4) = match take_count(bytes, p3) {
            None => {
                return None;
            },
            Some(found) => found,
        };
        let ghost goal = dec_nodes(bytes@.skip(p4 as int), c as nat, Seq::empty());
        let mut j: usize = 0;
        p = p4;
        assert(bytes@.skip(p4 as int).len() < bytes@.skip(pos as int).len());
        while j < c
            invariant
                j <= c,
                dec_node(bytes@.skip(pos as int)) == match goal {
                    None => None::<(NodeModel, Seq<u8>)>,
                    Some((found, rest)) => Some(
                        (NodeModel { leaf, keys: read_keys, children: found }, rest),
                    ),
                },
                pos < p4 <= p <= bytes.len(),
                children.len() == j,
                kids.len() == j,
                forall|x: int| 0 <= x < j ==> kids[x] == (#[trigger] children[x]).model(),
                forall|x: int| 0 <= x < j ==> (#[trigger] children[x]).tidy(t),
                goal == dec_nodes(bytes@.skip(p4 as int), c as nat, Seq::empty()),
            goal == dec_nodes(bytes@.skip(p as int), (c - j) as nat, kids),
            decreases c - j,
        {
            match take_node(bytes, p, t) {
                None => {
                    return None;
                },
                Some((child, next)) => {
                    proof {
                        kids = kids.push(child.model());
                    }
                    children.push(Box::new(child));
                    p = next;
                    j += 1;
                },
            }
        }
    }
    let node = Node { keys, children, n, leaf, t };
    proof {
        assert(node.used_keys() == read_keys);
        assert(node.model().children =~= kids);
    }
    Some((node, p))
}

/// Reads a tree at `pos`.
pub fn take_tree(bytes: &[u8], pos: usize) -> (out: Option<(BTree, usize)>)
    requires
        pos <= bytes.len(),
    ensures
        match out {
            Some((tree, next)) => pos < next <= bytes.len() && tree.tidy() && dec_tree(
                bytes@.skip(pos as int),
            ) == Some((tree.model(), bytes@.skip(next as int))),
            None => dec_tree(bytes@.skip(pos as int)) is None,
        },
{
    let (t, p1) = match take_count(bytes, pos) {
        None => {
            return None;
        },
        Some(found) => found,
    };
    let (rooted, p2) = match take_flag(bytes, p1) {
        None => {
            return None;
        },
        Some(found) => found,
    };
    if rooted {
        match take_node(bytes, p2, t) {
            None => None,
            Some((root, next)) => Some((BTree { root: Some(Box::new(root)), t }, next)),
        }
    } else {
        Some((BTree { root: None, t }, p2))
    }
}

/// Reads a row at `pos`.
pub fn take_row(bytes: &[u8], pos: usize) -> (out: Option<(Row, usize)>)
    requires
        pos <= bytes.len(),
    ensures
        match out {
            Some((row, next)) => pos <= next <= bytes.len() && row.data.names.len()
                == row.data.values.len() && dec_row(bytes@.skip(pos as int)) == Some(
                (row.model(), bytes@.skip(next as int)),
            ),
            None => dec_row(bytes@.skip(pos as int)) is None,
        },
{
    let (n, p1) = match take_count(bytes, pos) {
        None => {
            return None;
        },
        Some(found) => found,
    };
    let mut names: Vec<String> = Vec::new();
    let mut values: Vec<String> = Vec::new();
    let mut p: usize = p1;
    let mut i: usize = 0;
    let ghost goal = dec_many(bytes@.skip(p1 as int), n as nat, pair_item(), Seq::empty());
    let ghost mut read: RowModel = Seq::empty();
    while i < n
        invariant
            i <= n,
            p1 <= p <= bytes.len(),
            names.len() == i,
            values.len() == i,
            read.len() == i,
            forall|x: int| 0 <= x < i ==> read[x] == (names[x]@, values[x]@),
            dec_row(bytes@.skip(pos as int)) == goal,
            goal == dec_many(bytes@.skip(p1 as int), n as nat, pair_item(), Seq::empty()),
            goal == dec_many(bytes@.skip(p as int), (n - i) as nat, pair_item(), read),
        decreases n - i,
    {
        let (name, q) = match take_text(bytes, p) {
            None => {
                return None;
            },
            Some(found) => found,
        };
        let (value, next) = match take_text(bytes, q) {
            None => {
                return None;
            },
            Some(found) => found,
        };
        proof {
            read = read.push((name@, value@));
        }
        names.push(name);
        values.push(value);
        p = next;
        i += 1;
    }
    let row = Row { data: NameMap { names, values } };
    proof {
        assert(row.model() =~= read);
    }
    Some((row, p))
}

/// Reads `n` texts at `pos`.
fn take_texts(bytes: &[u8], pos: usize, n: usize) -> (out: Option<(Vec<String>, usize)>)
    requires
        pos <= bytes.len(),
    ensures
        match out {
            Some((texts, next)) => pos <= next <= bytes.len() && dec_many(
                bytes@.skip(pos as int),
                n as nat,
                text_item(),
                Seq::empty(),
            ) == Some((text_views(texts@), bytes@.skip(next as int))),
            None => dec_many(bytes@.skip(pos as int), n as nat, text_item(), Seq::empty()) is None,
        },
{
    let mut texts: Vec<String> = Vec::new();
    let mut p: usize = pos;
    let mut i: usize = 0;
    let ghost goal = dec_many(bytes@.skip(pos as int), n as nat, text_item(), Seq::empty());
    proof {
        assert(text_views(texts@) =~= Seq::<Seq<char>>::empty());
    }
    while i < n
        invariant
            i <= n,
            pos <= p <= bytes.len(),
            texts.len() == i,
            goal == dec_many(bytes@.skip(pos as int), n as nat, text_item(), Seq::empty()),
            goal == dec_many(bytes@.skip(p as int), (n - i) as nat, text_item(), text_views(texts@)),
        decreases n - i,
    {
        match take_text(bytes, p) {
            None => {
                return None;
            },
            Some((text, next)) => {
                let ghost before = text_views(texts@);
                texts.push(text);
                proof {
                    assert(text_views(texts@) =~= before.push(text@));
                }
                p = next;
                i += 1;
            },
        }
    }
    Some((texts, p))
}

/// Reads `n` rows at `pos`, each behind its identifier, which must be its
/// place among them.
fn take_rows(bytes: &[u8], pos: usize, n: usize) -> (out: Option<(Vec<Row>, usize)>)
    requires
        pos <= bytes.len(),
    ensures
        match out {
            Some((rows, next)) => pos <= next <= bytes.len() && (forall|x: int|
                0 <= x < rows.len() ==> (#[trigger] rows[x]).data.names.len()
                    == rows[x].data.values.len()) && dec_many(
                bytes@.skip(pos as int),
                n as nat,
                row_item(),
                Seq::empty(),
            ) == Some((Seq::new(rows.len() as nat, |x: int| rows[x].model()), bytes@.skip(next as int))),
            None => dec_many(bytes@.skip(pos as int), n as nat, row_item(), Seq::empty()) is None,
        },
{
    let mut rows: Vec<Row> = Vec::new();
    let mut p: usize = pos;
    let mut i: usize = 0;
    let ghost goal = dec_many(bytes@.skip(pos as int), n as nat, row_item(), Seq::empty());
    let ghost mut read: Seq<RowModel> = Seq::empty();
    while i < n
        invariant
            i <= n,
            pos <= p <= bytes.len(),
            rows.len() == i,
            read.len() == i,
            forall|x: int| 0 <= x < i ==> read[x] == (#[trigger] rows[x]).model(),
            forall|x: int|
                0 <= x < i ==> (#[trigger] rows[x]).data.names.len() == rows[x].data.values.len(),
            goal == dec_many(bytes@.skip(pos as int), n as nat, row_item(), Seq::empty()),
            goal == dec_many(bytes@.skip(p as int), (n - i) as nat, row_item(), read),
        decreases n - i,
    {
        let (id, q) = match take_u64(bytes, p) {
            None => {
                return None;
            },
            Some(found) => found,
        };
        if id != i as u64 {
            return None;
        }
        let (row, next) = match take_row(bytes, q) {
            None => {
                return None;
            },
            Some(found) => found,
        };
        proof {
            read = read.push(row.model());
        }
        rows.push(row);
        p = next;
        i += 1;
    }
    proof {
        assert(Seq::new(rows.len() as nat, |x: int| rows[x].model()) =~= read);
    }
    Some((rows, p))
}

/// Reads `n` indexes with their columns at `pos`.
fn take_indexes(bytes: &[u8], pos: usize, n: usize) -> (out: Option<(NameMap<BTree>, usize)>)
    requires
        pos <= bytes.len(),
    ensures
        match out {
            Some((indexes, next)) => pos <= next <= bytes.len() && indexes.names.len()
                == indexes.values.len() && (forall|x: int|
                0 <= x < indexes.values.len() ==> (#[trigger] indexes.values[x]).tidy()) && dec_many(
                bytes@.skip(pos as int),
                n as nat,
                index_item(),
                Seq::empty(),
            ) == Some(
                (
                    Seq::new(
                        indexes.names.len() as nat,
                        |x: int| (indexes.names[x]@, indexes.values[x].model()),
                    ),
                    bytes@.skip(next as int),
                ),
            ),
            None => dec_many(bytes@.skip(pos as int), n as nat, index_item(), Seq::empty()) is None,
        },
{
    let mut names: Vec<String> = Vec::new();
    let mut values: Vec<BTree> = Vec::new();
    let mut p: usize = pos;
    let mut i: usize = 0;
    let ghost goal = dec_many(bytes@.skip(pos as int), n as nat, index_item(), Seq::empty());
    let ghost mut read: Seq<(Seq<char>, TreeModel)> = Seq::empty();
    while i < n
        invariant
            i <= n,
            pos <= p <= bytes.len(),
            names.len() == i,
            values.len() == i,
            read.len() == i,
            forall|x: int| 0 <= x < i ==> read[x] == (names[x]@, (#[trigger] values[x]).model()),
            forall|x: int| 0 <= x < i ==> (#[trigger] values[x]).tidy(),
            goal == dec_many(bytes@.skip(pos as int), n as nat, index_item(), Seq::empty()),
            goal == dec_many(bytes@.skip(p as int), (n - i) as nat, index_item(), read),
        decreases n - i,
    {
        let (name, q) = match take_text(bytes, p) {
            None => {
                return None;
            },
            Some(found) => found,
        };
        let (tree, next) = match take_tree(bytes, q) {
            None => {
                return None;
            },
            Some(found) => found,
        };
        proof {
            read = read.push((name@, tree.model()));
        }
        names.push(name);
        values.push(tree);
        p = next;
        i += 1;
    }
    let indexes = NameMap { names, values };
    proof {
        assert(Seq::new(
            indexes.names.len() as nat,
            |x: int| (indexes.names[x]@, indexes.values[x].model()),
        ) =~= read);
    }
    Some((indexes, p))
}

/// Reads a table at `pos`.
pub fn take_table(bytes: &[u8], pos: usize) -> (out: Option<(Table, usize)>)
    requires
        pos <= bytes.len(),
    ensures
        match out {
            Some((table, next)) => pos <= next <= bytes.len() && table.tidy()
                && table.indexes.names.len() == table.indexes.values.len() && (forall|x: int|
                0 <= x < table.rows.len() ==> (#[trigger] table.rows[x]).data.names.len()
                    == table.rows[x].data.values.len()) && dec_table(bytes@.skip(pos as int))
                == Some((table.model(), bytes@.skip(next as int))),
            None => dec_table(bytes@.skip(pos as int)) is None,
        },
{
    let (nc, p1) = match take_count(bytes, pos) {
        None => {
            return None;
        },
        Some(found) => found,
    };
    let (columns, p2) = match take_texts(bytes, p1, nc) {
        None => {
            return None;
        },
        Some(found) => found,
    };
    let (nr, p3) = match take_count(bytes, p2) {
        None => {
            return None;
        },
        Some(found) => found,
    };
    let (rows, p4) = match take_rows(bytes, p3, nr) {
        None => {
            return None;
        },
        Some(found) => found,
    };
    let (ni, p5) = match take_count(bytes, p4) {
        None => {
            return None;
        },
        Some(found) => found,
    };
    let (indexes, p6) = match take_indexes(bytes, p5, ni) {
        None => {
            return None;
        },
        Some(found) => found,
    };
    Some((Table { columns, rows, indexes }, p6))
}

/// Reads `n` tables with their names at `pos`.
fn take_tables(bytes: &[u8], pos: usize, n: usize) -> (out: Option<(NameMap<Table>, usize)>)
    requires
        pos <= bytes.len(),
    ensures
        match out {
            Some((tables, next)) => pos <= next <= bytes.len() && tables.names.len()
                == tables.values.len() && (forall|x: int|
                0 <= x < tables.values.len() ==> {
                    let table = #[trigger] tables.values[x];
                    &&& table.tidy()
                    &&& table.indexes.names.len() == table.indexes.values.len()
                    &&& forall|y: int|
                        0 <= y < table.rows.len() ==> (#[trigger] table.rows[y]).data.names.len()
                            == table.rows[y].data.values.len()
                }) && dec_many(bytes@.skip(pos as int), n as nat, table_item(), Seq::empty())
                == Some(
                (
                    Seq::new(
                        tables.names.len() as nat,
                        |x: int| (tables.names[x]@, tables.values[x].model()),
                    ),
                    bytes@.skip(next as int),
                ),
            ),
            None => dec_many(bytes@.skip(pos as int), n as nat, table_item(), Seq::empty()) is None,
        },
{
    let mut names: Vec<String> = Vec::new();
    let mut values: Vec<Table> = Vec::new();
    let mut p: usize = pos;
    let mut i: usize = 0;
    let ghost goal = dec_many(bytes@.skip(pos as int), n as nat, table_item(), Seq::empty());
    let ghost mut read: Seq<(Seq<char>, TableModel)> = Seq::empty();
    while i < n
        invariant
            i <= n,
            pos <= p <= bytes.len(),
            names.len() == i,
            values.len() == i,
            read.len() == i,
            forall|x: int| 0 <= x < i ==> read[x] == (names[x]@, (#[trigger] values[x]).model()),
            forall|x: int|
                0 <= x < i ==> {
                    let table = #[trigger] values[x];
                    &&& table.tidy()
                    &&& table.indexes.names.len() == table.indexes.values.len()
                    &&& forall|y: int|
                        0 <= y < table.rows.len() ==> (#[trigger] table.rows[y]).data.names.len()
                            == table.rows[y].data.values.len()
                },
            goal == dec_many(bytes@.skip(pos as int), n as nat, table_item(), Seq::empty()),
            goal == dec_many(bytes@.skip(p as int), (n - i) as nat, table_item(), read),
        decreases n - i,
    {
        let (name, q) = match take_text(bytes, p) {
            None => {
                return None;
            },
            Some(found) => found,
        };
        let (table, next) = match take_table(bytes, q) {
            None => {
                return None;
            },
            Some(found) => found,
        };
        proof {
            read = read.push((name@, table.model()));
        }
        names.push(name);
        values.push(table);
        p = next;
        i += 1;
    }
    let tables = NameMap { names, values };
    proof {
        assert(Seq::new(
            tables.names.len() as nat,
            |x: int| (tables.names[x]@, tables.values[x].model()),
        ) =~= read);
    }
    Some((tables, p))
}

/// Reads a store from `bytes`, all of them. The store that is returned is
/// tidy; whether it is well formed is for the caller to find out.
pub fn take_store(bytes: &[u8]) -> (out: Option<StorageEngine>)
    ensures
        match out {
            Some(store) => store.tidy() && dec_store(bytes@) == Some(store.model()),
            None => dec_store(bytes@) is None,
        },
{
    assert(bytes@.skip(0) =~= bytes@);
    let (magic, p1) = match take_u64(bytes, 0) {
        None => {
            return None;
        },
        Some(found) => found,
    };
    let (version, p2) = match take_u16(bytes, p1) {
        None => {
            return None;
        },
        Some(found) => found,
    };
    if magic != MAGIC || version != VERSION {
        return None;
    }
    let (database_name, p3) = match take_text(bytes, p2) {
        None => {
            return None;
        },
        Some(found) => found,
    };
    let (n, p4) = match take_count(bytes, p3) {
        None => {
            return None;
        },
        Some(found) => found,
    };
    let (tables, p5) = match take_tables(bytes, p4, n) {
        None => {
            return None;
        },
        Some(found) => found,
    };
    if p5 != bytes.len() {
        return None;
    }
    Some(StorageEngine { tables, database_name })
}

} // verus!
