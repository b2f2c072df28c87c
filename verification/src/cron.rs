//! The periodic update: the node table is brought up to the published node
//! list, and the subscribers of every node that went online or offline are
//! found.

use vstd::prelude::*;
use crate::json::{EntryView, Node, Nodes, SUPPORTED_VERSION, entry_views};
use crate::models::{MonitorView, NodeData, NodeDataView, NodeQuery, NodeView};
use crate::models::{monitor_views, node_views};
use crate::store::{MonitorTable, NodeDirectory, distinct_ids, distinct_monitors, has_id};
use crate::store::lemma_watching;
use crate::store::{online_count, watching};
use crate::util::Ctx;

verus! {

/// The map from id to name and online flag that a node list stands for: the
/// entries that carry both an id and a name, a later entry replacing an earlier
/// one with the same id.
pub open spec fn remote_map(entries: Seq<EntryView>) -> Map<Seq<char>, NodeDataView>
    decreases entries.len(),
{
    if entries.len() == 0 {
        Map::empty()
    } else {
        let before = remote_map(entries.drop_last());
        match entries.last().row() {
            Some(row) => before.insert(row.id, row.data()),
            None => before,
        }
    }
}

/// From an entry of the node list, extract node ID and other information.
pub fn json_to_node_data(node: &Node) -> (r: Option<(String, NodeData)>)
    ensures
        match r {
            Some((id, data)) => node@.row() == Some(
                NodeView { id: id@, name: data@.name, online: data@.online },
            ),
            None => node@.row() is None,
        },
{
    match (&node.nodeinfo.node_id, &node.nodeinfo.hostname) {
        (Some(id), Some(name)) => Some(
            (id.clone(), NodeData { name: name.clone(), online: node.flags.online }),
        ),
        _ => None,
    }
}

/// Splits a directory row into its id and what is stored under it.
pub fn model_to_node_data(node: NodeQuery) -> (r: (String, NodeData))
    ensures
        r.0@ == node@.id,
        r.1@ == node@.data(),
{
    let node_data = NodeData { name: node.name, online: node.online };
    (node.id, node_data)
}

impl NodeData {
    /// The directory row that holds this data under `id`.
    pub fn into_model(self, id: String) -> (r: NodeQuery)
        ensures
            r@.id == id@,
            r@.data() == self@,
    {
        NodeQuery { id, name: self.name, online: self.online }
    }
}

/// Builds the directory that a node list stands for.
pub fn remote_directory(nodes: &Vec<Node>) -> (d: NodeDirectory)
    ensures
        d@ == remote_map(entry_views(nodes@)),
{
    let mut d = NodeDirectory::new();
    let ghost entries = entry_views(nodes@);
    let mut i: usize = 0;
    while i < nodes.len()
        invariant
            i <= nodes.len(),
            entries == entry_views(nodes@),
            d@ == remote_map(entries.take(i as int)),
        decreases nodes.len() - i,
    {
        proof {
            assert(entries.take(i + 1).drop_last() =~= entries.take(i as int));
            assert(entries.take(i + 1).last() == nodes@[i as int]@);
        }
        if let Some((id, data)) = json_to_node_data(&nodes[i]) {
            d.put(data.into_model(id));
        }
        i += 1;
    }
    proof {
        assert(entries.take(nodes.len() as int) =~= entries);
    }
    d
}

/// A write to the node table.
#[derive(Debug, PartialEq, Eq)]
pub enum NodeWrite {
    /// A node that the table does not hold yet.
    Insert(NodeQuery),
    /// New name and online flag for a node that the table holds.
    Update(NodeQuery),
    /// The id of a node that leaves the table.
    Delete(String),
}

/// Mathematical value of a [`NodeWrite`].
pub enum WriteView {
    Insert(NodeView),
    Update(NodeView),
    Delete(Seq<char>),
}

impl Clone for NodeWrite {
    fn clone(&self) -> (r: Self)
        ensures
            r@ == self@,
    {
        match self {
            NodeWrite::Insert(row) => NodeWrite::Insert(row.clone()),
            NodeWrite::Update(row) => NodeWrite::Update(row.clone()),
            NodeWrite::Delete(id) => NodeWrite::Delete(id.clone()),
        }
    }
}

impl View for NodeWrite {
    type V = WriteView;

    open spec fn view(&self) -> WriteView {
        match self {
            NodeWrite::Insert(row) => WriteView::Insert(row@),
            NodeWrite::Update(row) => WriteView::Update(row@),
            NodeWrite::Delete(id) => WriteView::Delete(id@),
        }
    }
}

impl WriteView {
    /// The id of the node that is written.
    pub open spec fn id(self) -> Seq<char> {
        match self {
            WriteView::Insert(row) => row.id,
            WriteView::Update(row) => row.id,
            WriteView::Delete(id) => id,
        }
    }

    /// The table after the write.
    pub open spec fn apply(self, m: Map<Seq<char>, NodeDataView>) -> Map<Seq<char>, NodeDataView> {
        match self {
            WriteView::Insert(row) => m.insert(row.id, row.data()),
            WriteView::Update(row) => m.insert(row.id, row.data()),
            WriteView::Delete(id) => m.remove(id),
        }
    }
}

/// The writes of a vector, each taken by its view.
pub open spec fn write_views(writes: Seq<NodeWrite>) -> Seq<WriteView> {
    writes.map_values(|w: NodeWrite| w@)
}

/// The table after the writes of `ws`, made in their order.
pub open spec fn apply_writes(m: Map<Seq<char>, NodeDataView>, ws: Seq<WriteView>) -> Map<
    Seq<char>,
    NodeDataView,
>
    decreases ws.len(),
{
    if ws.len() == 0 {
        m
    } else {
        ws.last().apply(apply_writes(m, ws.drop_last()))
    }
}

/// Whether `m` holds the node `id` as online. A node that `m` does not hold
/// counts as offline.
pub open spec fn online_in(m: Map<Seq<char>, NodeDataView>, id: Seq<char>) -> bool {
    m.contains_key(id) && m[id].online
}

/// Whether the node `id` is online in one of `old` and `new` and offline in the other.
pub open spec fn flipped(
    old: Map<Seq<char>, NodeDataView>,
    new: Map<Seq<char>, NodeDataView>,
    id: Seq<char>,
) -> bool {
    online_in(old, id) != online_in(new, id)
}

/// The change that is reported of a node that flipped: its new state, under
/// its new name, or under its last name if it is gone.
pub open spec fn event_for(
    old: Map<Seq<char>, NodeDataView>,
    new: Map<Seq<char>, NodeDataView>,
    id: Seq<char>,
) -> NodeView {
    NodeView {
        id,
        name: if new.contains_key(id) {
            new[id].name
        } else {
            old[id].name
        },
        online: online_in(new, id),
    }
}

/// The write that takes the node `id` from its state in `old` to its state in
/// `new`; none where the two agree.
pub open spec fn write_for(
    old: Map<Seq<char>, NodeDataView>,
    new: Map<Seq<char>, NodeDataView>,
    id: Seq<char>,
) -> Option<WriteView> {
    if new.contains_key(id) {
        let row = NodeView { id, name: new[id].name, online: new[id].online };
        if !old.contains_key(id) {
            Some(WriteView::Insert(row))
        } else if old[id] != new[id] {
            Some(WriteView::Update(row))
        } else {
            None
        }
    } else if old.contains_key(id) {
        Some(WriteView::Delete(id))
    } else {
        None
    }
}

/// Some write of `ws` is for the node `id`.
pub open spec fn has_write(ws: Seq<WriteView>, id: Seq<char>) -> bool {
    exists|k: int| 0 <= k < ws.len() && #[trigger] ws[k].id() == id
}

/// `cs` reports every node that flipped between `old` and `new` once, with
/// its new state, and no other node.
pub open spec fn changes_exact(
    cs: Seq<NodeView>,
    old: Map<Seq<char>, NodeDataView>,
    new: Map<Seq<char>, NodeDataView>,
) -> bool {
    &&& forall|a: int, b: int| 0 <= a < b < cs.len() ==> cs[a].id != cs[b].id
    &&& forall|k: int|
        0 <= k < cs.len() ==> flipped(old, new, (#[trigger] cs[k]).id) && cs[k] == event_for(
            old,
            new,
            cs[k].id,
        )
    &&& forall|id: Seq<char>| #[trigger] flipped(old, new, id) ==> has_id(cs, id)
}

/// `ws` holds, for every node on which `old` and `new` differ, the one write
/// that removes the difference, and no other write.
pub open spec fn writes_exact(
    ws: Seq<WriteView>,
    old: Map<Seq<char>, NodeDataView>,
    new: Map<Seq<char>, NodeDataView>,
) -> bool {
    &&& forall|a: int, b: int| 0 <= a < b < ws.len() ==> ws[a].id() != ws[b].id()
    &&& forall|k: int|
        0 <= k < ws.len() ==> write_for(old, new, (#[trigger] ws[k]).id()) == Some(ws[k])
    &&& forall|id: Seq<char>| (#[trigger] write_for(old, new, id)) is Some ==> has_write(ws, id)
}

/// Whether `a` and `b` agree on the node `id`.
spec fn same_at(
    a: Map<Seq<char>, NodeDataView>,
    b: Map<Seq<char>, NodeDataView>,
    id: Seq<char>,
) -> bool {
    a.contains_key(id) == b.contains_key(id) && (a.contains_key(id) ==> a[id] == b[id])
}

/// After the first `k` writes of an exact list the table agrees with `new` on
/// the nodes written so far, and with `old` on the others.
proof fn lemma_apply_prefix(
    ws: Seq<WriteView>,
    old: Map<Seq<char>, NodeDataView>,
    new: Map<Seq<char>, NodeDataView>,
    k: int,
)
    requires
        writes_exact(ws, old, new),
        0 <= k <= ws.len(),
    ensures
        forall|id: Seq<char>|
            #![trigger has_write(ws.take(k), id)]
            if has_write(ws.take(k), id) {
                same_at(apply_writes(old, ws.take(k)), new, id)
            } else {
                same_at(apply_writes(old, ws.take(k)), old, id)
            },
    decreases k,
{
    let now = ws.take(k);
    if k == 0 {
        assert forall|id: Seq<char>| !has_write(now, id) by {}
    } else {
        let before = ws.take(k - 1);
        let w = ws[k - 1];
        lemma_apply_prefix(ws, old, new, k - 1);
        assert(now.drop_last() =~= before);
        assert(now.last() == w);
        assert(write_for(old, new, w.id()) == Some(w));
        assert forall|id: Seq<char>|
            #![trigger has_write(now, id)]
            if has_write(now, id) {
                same_at(apply_writes(old, now), new, id)
            } else {
                same_at(apply_writes(old, now), old, id)
            } by {
            let m = apply_writes(old, before);
            assert(apply_writes(old, now) == w.apply(m));
            assert(has_write(before, id) || !has_write(before, id));
            if id == w.id() {
                assert(now[k - 1].id() == id);
            } else {
                if has_write(now, id) {
                    let a = choose|a: int| 0 <= a < now.len() && #[trigger] now[a].id() == id;
                    assert(before[a].id() == id);
                }
                if has_write(before, id) {
                    let a = choose|a: int| 0 <= a < before.len() && #[trigger] before[a].id() == id;
                    assert(now[a].id() == id);
                }
            }
        }
    }
}

/// Making the writes of an exact list, in their order, turns `old` into `new`.
pub proof fn lemma_writes_reach(
    ws: Seq<WriteView>,
    old: Map<Seq<char>, NodeDataView>,
    new: Map<Seq<char>, NodeDataView>,
)
    requires
        writes_exact(ws, old, new),
    ensures
        apply_writes(old, ws) == new,
{
    lemma_apply_prefix(ws, old, new, ws.len() as int);
    assert(ws.take(ws.len() as int) =~= ws);
    let end = apply_writes(old, ws);
    assert forall|id: Seq<char>| same_at(end, new, id) by {
        if !has_write(ws, id) {
            assert(write_for(old, new, id) is None);
        }
    }
    assert(end =~= new) by {
        assert forall|id: Seq<char>| end.contains_key(id) == new.contains_key(id) by {
            assert(same_at(end, new, id));
        }
        assert forall|id: Seq<char>| end.contains_key(id) implies end[id] == new[id] by {
            assert(same_at(end, new, id));
        }
    }
}

/// Between a table and itself nothing is written and nothing is reported.
pub proof fn lemma_no_difference(
    ws: Seq<WriteView>,
    cs: Seq<NodeView>,
    m: Map<Seq<char>, NodeDataView>,
)
    requires
        writes_exact(ws, m, m),
        changes_exact(cs, m, m),
    ensures
        ws.len() == 0,
        cs.len() == 0,
{
    if ws.len() > 0 {
        assert(write_for(m, m, ws[0].id()) == Some(ws[0]));
    }
    if cs.len() > 0 {
        assert(flipped(m, m, cs[0].id));
    }
}

/// `cs` is exact for the nodes of `done`, and reports no node outside it.
spec fn changes_cover(
    cs: Seq<NodeView>,
    old: Map<Seq<char>, NodeDataView>,
    new: Map<Seq<char>, NodeDataView>,
    done: Set<Seq<char>>,
) -> bool {
    &&& forall|k: int| 0 <= k < cs.len() ==> done.contains((#[trigger] cs[k]).id)
    &&& forall|a: int, b: int| 0 <= a < b < cs.len() ==> cs[a].id != cs[b].id
    &&& forall|k: int|
        0 <= k < cs.len() ==> flipped(old, new, (#[trigger] cs[k]).id) && cs[k] == event_for(
            old,
            new,
            cs[k].id,
        )
    &&& forall|id: Seq<char>|
        done.contains(id) && #[trigger] flipped(old, new, id) ==> has_id(cs, id)
}

/// `ws` is exact for the nodes of `done`, and writes no node outside it.
spec fn writes_cover(
    ws: Seq<WriteView>,
    old: Map<Seq<char>, NodeDataView>,
    new: Map<Seq<char>, NodeDataView>,
    done: Set<Seq<char>>,
) -> bool {
    &&& forall|k: int| 0 <= k < ws.len() ==> done.contains((#[trigger] ws[k]).id())
    &&& forall|a: int, b: int| 0 <= a < b < ws.len() ==> ws[a].id() != ws[b].id()
    &&& forall|k: int|
        0 <= k < ws.len() ==> write_for(old, new, (#[trigger] ws[k]).id()) == Some(ws[k])
    &&& forall|id: Seq<char>|
        done.contains(id) && (#[trigger] write_for(old, new, id)) is Some ==> has_write(ws, id)
}

/// Taking one more node into account keeps `changes_cover`.
proof fn lemma_changes_step(
    cs: Seq<NodeView>,
    old: Map<Seq<char>, NodeDataView>,
    new: Map<Seq<char>, NodeDataView>,
    done: Set<Seq<char>>,
    id: Seq<char>,
)
    requires
        changes_cover(cs, old, new, done),
        !done.contains(id),
    ensures
        flipped(old, new, id) ==> changes_cover(
            cs.push(event_for(old, new, id)),
            old,
            new,
            done.insert(id),
        ),
        !flipped(old, new, id) ==> changes_cover(cs, old, new, done.insert(id)),
{
    if flipped(old, new, id) {
        let next = cs.push(event_for(old, new, id));
        assert forall|other: Seq<char>|
            done.insert(id).contains(other) && #[trigger] flipped(old, new, other) implies has_id(
            next,
            other,
        ) by {
            if other == id {
                assert(next[cs.len() as int].id == other);
            } else {
                let k = choose|k: int| 0 <= k < cs.len() && #[trigger] cs[k].id == other;
                assert(next[k].id == other);
            }
        }
    }
}

/// Taking one more node into account keeps `writes_cover`.
proof fn lemma_writes_step(
    ws: Seq<WriteView>,
    old: Map<Seq<char>, NodeDataView>,
    new: Map<Seq<char>, NodeDataView>,
    done: Set<Seq<char>>,
    id: Seq<char>,
)
    requires
        writes_cover(ws, old, new, done),
        !done.contains(id),
    ensures
        write_for(old, new, id) matches Some(w) ==> writes_cover(
            ws.push(w),
            old,
            new,
            done.insert(id),
        ),
        write_for(old, new, id) is None ==> writes_cover(ws, old, new, done.insert(id)),
{
    if let Some(w) = write_for(old, new, id) {
        let next = ws.push(w);
        assert(w.id() == id);
        assert forall|other: Seq<char>|
            done.insert(id).contains(other) && (#[trigger] write_for(old, new, other))
                is Some implies has_write(next, other) by {
            if other == id {
                assert(next[ws.len() as int].id() == other);
            } else {
                let k = choose|k: int| 0 <= k < ws.len() && #[trigger] ws[k].id() == other;
                assert(next[k].id() == other);
            }
        }
    }
}

/// The ids of the rows of `rows`.
spec fn ids_of(rows: Seq<NodeView>) -> Set<Seq<char>> {
    Set::new(|id: Seq<char>| has_id(rows, id))
}

/// The ids of one more row.
proof fn lemma_ids_of_next(rows: Seq<NodeView>, i: int)
    requires
        0 <= i < rows.len(),
    ensures
        ids_of(rows.take(i + 1)) == ids_of(rows.take(i)).insert(rows[i].id),
{
    let short = rows.take(i);
    let long = rows.take(i + 1);
    assert forall|id: Seq<char>| has_id(long, id) <==> (has_id(short, id) || id == rows[i].id) by {
        if has_id(long, id) {
            let k = choose|k: int| 0 <= k < long.len() && #[trigger] long[k].id == id;
            if k < i {
                assert(short[k].id == id);
            }
        }
        if has_id(short, id) {
            let k = choose|k: int| 0 <= k < short.len() && #[trigger] short[k].id == id;
            assert(long[k].id == id);
        }
        if id == rows[i].id {
            assert(long[i].id == id);
        }
    }
    assert(ids_of(long) =~= ids_of(short).insert(rows[i].id));
}

/// Compares the node table `db` with the directory `cur` that a node list
/// stands for. Returns the writes that turn `db` into `cur`, and the nodes
/// that changed between online and offline. A node that `db` does not hold,
/// or `cur` not any more, counts as offline there.
pub fn diff(db: &NodeDirectory, cur: &NodeDirectory) -> (r: (Vec<NodeWrite>, Vec<NodeQuery>))
    ensures
        writes_exact(write_views(r.0@), db@, cur@),
        changes_exact(node_views(r.1@), db@, cur@),
{
    let mut writes: Vec<NodeWrite> = Vec::new();
    let mut changed: Vec<NodeQuery> = Vec::new();
    let ghost mut done: Set<Seq<char>> = Set::empty();
    let db_len = db.len();
    let cur_len = cur.len();
    proof {
        db.lemma_view();
        cur.lemma_view();
        assert(ids_of(db.rows().take(0)) =~= Set::<Seq<char>>::empty());
    }
    // Go over every node in the table
    let mut i: usize = 0;
    while i < db_len
        invariant
            distinct_ids(db.rows()),
            distinct_ids(cur.rows()),
            db_len == db.rows().len(),
            i <= db.rows().len(),
            done == ids_of(db.rows().take(i as int)),
            writes_cover(write_views(writes@), db@, cur@, done),
            changes_cover(node_views(changed@), db@, cur@, done),
        decreases db.rows().len() - i,
    {
        let db_node = db.row(i);
        let ghost id = db_node@.id;
        let ghost ws = write_views(writes@);
        let ghost cs = node_views(changed@);
        proof {
            db.lemma_view();
            assert(db.rows()[i as int].id == id);
            assert(!done.contains(id)) by {
                if has_id(db.rows().take(i as int), id) {
                    let k = choose|k: int|
                        0 <= k < db.rows().take(i as int).len() && #[trigger] db.rows().take(
                            i as int,
                        )[k].id == id;
                    assert(db.rows()[k].id != db.rows()[i as int].id);
                }
            }
            lemma_ids_of_next(db.rows(), i as int);
            lemma_writes_step(ws, db@, cur@, done, id);
            lemma_changes_step(cs, db@, cur@, done, id);
        }
        match cur.get(db_node.id.as_str()) {
            Some(cur_node) => {
                // We already know this node. Did it change?
                if !(cur_node.name == db_node.name) || cur_node.online != db_node.online {
                    writes.push(NodeWrite::Update(cur_node.clone()));
                    proof {
                        assert(db@[id] != cur@[id]);
                        assert(write_views(writes@) =~= ws.push(write_for(db@, cur@, id)->0));
                    }
                } else {
                    proof {
                        assert(db@[id].name =~= cur@[id].name);
                        assert(db@[id] == cur@[id]);
                    }
                }
                // Did its online status change?
                if cur_node.online != db_node.online {
                    changed.push(cur_node.clone());
                    proof {
                        assert(node_views(changed@) =~= cs.push(event_for(db@, cur@, id)));
                    }
                }
            },
            None => {
                // The node is in the table but does not exist any more.
                writes.push(NodeWrite::Delete(db_node.id.clone()));
                proof {
                    assert(write_views(writes@) =~= ws.push(write_for(db@, cur@, id)->0));
                }
                if db_node.online {
                    // The node was online, so it being gone is a change to offline
                    changed.push(
                        NodeQuery {
                            id: db_node.id.clone(),
                            name: db_node.name.clone(),
                            online: false,
                        },
                    );
                    proof {
                        assert(node_views(changed@) =~= cs.push(event_for(db@, cur@, id)));
                    }
                }
            },
        }
        proof {
            done = done.insert(id);
        }
        i += 1;
    }
    proof {
        assert(db.rows().take(db.rows().len() as int) =~= db.rows());
        assert(ids_of(cur.rows().take(0)) =~= Set::<Seq<char>>::empty());
        assert(done =~= ids_of(db.rows()).union(ids_of(cur.rows().take(0))));
    }
    // Go over the nodes of the list that the table does not hold
    let mut j: usize = 0;
    while j < cur_len
        invariant
            distinct_ids(db.rows()),
            distinct_ids(cur.rows()),
            cur_len == cur.rows().len(),
            j <= cur.rows().len(),
            done == ids_of(db.rows()).union(ids_of(cur.rows().take(j as int))),
            writes_cover(write_views(writes@), db@, cur@, done),
            changes_cover(node_views(changed@), db@, cur@, done),
        decreases cur.rows().len() - j,
    {
        let cur_node = cur.row(j);
        let ghost id = cur_node@.id;
        let ghost ws = write_views(writes@);
        let ghost cs = node_views(changed@);
        proof {
            db.lemma_view();
            cur.lemma_view();
            assert(cur.rows()[j as int].id == id);
            lemma_ids_of_next(cur.rows(), j as int);
            assert(!ids_of(cur.rows().take(j as int)).contains(id)) by {
                if has_id(cur.rows().take(j as int), id) {
                    let k = choose|k: int|
                        0 <= k < cur.rows().take(j as int).len() && #[trigger] cur.rows().take(
                            j as int,
                        )[k].id == id;
                    assert(cur.rows()[k].id != cur.rows()[j as int].id);
                }
            }
        }
        if db.position(cur_node.id.as_str()).is_none() {
            proof {
                assert(!done.contains(id));
                lemma_writes_step(ws, db@, cur@, done, id);
                lemma_changes_step(cs, db@, cur@, done, id);
            }
            writes.push(NodeWrite::Insert(cur_node.clone()));
            proof {
                assert(write_views(writes@) =~= ws.push(write_for(db@, cur@, id)->0));
            }
            if cur_node.online {
                // The node is online, so it appearing is a change from the
                // implicit offline it was in when it did not exist.
                changed.push(cur_node.clone());
                proof {
                    assert(node_views(changed@) =~= cs.push(event_for(db@, cur@, id)));
                }
            }
        }
        proof {
            assert(done.insert(id) =~= ids_of(db.rows()).union(
                ids_of(cur.rows().take(j + 1)),
            ));
            done = done.insert(id);
        }
        j += 1;
    }
    proof {
        db.lemma_view();
        cur.lemma_view();
        assert(cur.rows().take(cur.rows().len() as int) =~= cur.rows());
        let ws = write_views(writes@);
        let cs = node_views(changed@);
        assert forall|id: Seq<char>| #[trigger] flipped(db@, cur@, id) implies has_id(cs, id) by {
            assert(db@.contains_key(id) || cur@.contains_key(id));
            assert(done.contains(id));
        }
        assert forall|id: Seq<char>| (#[trigger] write_for(db@, cur@, id)) is Some implies has_write(
            ws,
            id,
        ) by {
            assert(db@.contains_key(id) || cur@.contains_key(id));
            assert(done.contains(id));
        }
    }
    (writes, changed)
}

/// Why a node list was refused.
#[derive(Clone, Copy, Debug, PartialEq, Eq, Structural)]
pub enum NodeListError {
    /// The list is of a version that is not understood.
    UnsupportedVersion { version: usize },
}

/// How an update of the node table ended.
#[must_use]
#[derive(Clone, Copy, Debug, PartialEq, Eq, Structural)]
pub enum UpdateResult {
    /// The table now agrees with the node list.
    AllOk,
    /// The list names fewer online nodes than are asked for, namely this
    /// many, and the table was left alone.
    NotEnoughOnline(usize),
}

/// What an update of the node table did.
pub struct Reconciled {
    /// How the update ended.
    pub result: UpdateResult,
    /// The writes that were made to the table, in their order.
    pub writes: Vec<NodeWrite>,
    /// The nodes that changed between online and offline, each in its new state.
    pub changed: Vec<NodeQuery>,
}

/// Mathematical value of a [`Reconciled`].
pub struct ReconciledView {
    pub result: UpdateResult,
    pub writes: Seq<WriteView>,
    pub changed: Seq<NodeView>,
}

impl View for Reconciled {
    type V = ReconciledView;

    open spec fn view(&self) -> ReconciledView {
        ReconciledView {
            result: self.result,
            writes: write_views(self.writes@),
            changed: node_views(self.changed@),
        }
    }
}

/// What an update owes: `r` and the table `after` it, for a node list of the
/// given version and entries, the least number of online nodes asked for, and
/// the table `before`.
///
/// A list of another version than the supported one is refused. A list with
/// fewer online nodes than `min_online` is not acted on. In both cases the
/// table stays as it is. Otherwise the table becomes the map the list stands
/// for, the writes are exactly those that take it there, and the changes are
/// exactly the nodes that flipped.
pub open spec fn reconciled(
    version: usize,
    entries: Seq<EntryView>,
    min_online: usize,
    before: Map<Seq<char>, NodeDataView>,
    after: Map<Seq<char>, NodeDataView>,
    r: Result<ReconciledView, NodeListError>,
) -> bool {
    let cur = remote_map(entries);
    if version != SUPPORTED_VERSION {
        r == Err::<ReconciledView, NodeListError>(NodeListError::UnsupportedVersion { version })
            && after == before
    } else {
        match r {
            Err(_) => false,
            Ok(done) => if online_count(cur) < min_online {
                &&& done.result == UpdateResult::NotEnoughOnline(online_count(cur) as usize)
                &&& done.writes.len() == 0
                &&& done.changed.len() == 0
                &&& after == before
            } else {
                &&& done.result == UpdateResult::AllOk
                &&& writes_exact(done.writes, before, cur)
                &&& changes_exact(done.changed, before, cur)
                &&& after == cur
            },
        }
    }
}

/// The view of the result of an update.
pub open spec fn reconciled_view(r: Result<Reconciled, NodeListError>) -> Result<
    ReconciledView,
    NodeListError,
> {
    match r {
        Ok(done) => Ok(done@),
        Err(e) => Err(e),
    }
}

/// Brings the node table `db` up to the node list `cur_nodes`, unless the list
/// is of an unsupported version or names fewer than `min_online` online nodes.
pub fn reconcile(cur_nodes: &Nodes, min_online: usize, db: &mut NodeDirectory) -> (r: Result<
    Reconciled,
    NodeListError,
>)
    ensures
        reconciled(
            cur_nodes.version,
            entry_views(cur_nodes.nodes@),
            min_online,
            old(db)@,
            final(db)@,
            reconciled_view(r),
        ),
        r matches Ok(done) ==> apply_writes(old(db)@, done@.writes) == final(db)@,
{
    if cur_nodes.version != SUPPORTED_VERSION {
        return Err(NodeListError::UnsupportedVersion { version: cur_nodes.version });
    }
    // Build the directory of the node list: node ID to name and online state
    let cur = remote_directory(&cur_nodes.nodes);

    // Stop here if nearly all nodes are offline
    let online_nodes = cur.count_online();
    if online_nodes < min_online {
        return Ok(
            Reconciled {
                result: UpdateResult::NotEnoughOnline(online_nodes),
                writes: Vec::new(),
                changed: Vec::new(),
            },
        );
    }
    // Compute which nodes changed their state, and what is to be written
    let (writes, changed) = diff(db, &cur);
    proof {
        lemma_writes_reach(write_views(writes@), db@, cur@);
    }
    *db = cur;
    Ok(Reconciled { result: UpdateResult::AllOk, writes, changed })
}

/// Running an update twice against one node list: where the first run brought
/// the table up to the list, the second finds nothing to write and nothing to
/// report, and the table is the map the list stands for.
pub proof fn lemma_second_run_is_quiet(
    version: usize,
    entries: Seq<EntryView>,
    min_online: usize,
    start: Map<Seq<char>, NodeDataView>,
    middle: Map<Seq<char>, NodeDataView>,
    last: Map<Seq<char>, NodeDataView>,
    first: Result<ReconciledView, NodeListError>,
    second: Result<ReconciledView, NodeListError>,
)
    requires
        reconciled(version, entries, min_online, start, middle, first),
        reconciled(version, entries, min_online, middle, last, second),
        first matches Ok(done) && done.result == UpdateResult::AllOk,
    ensures
        second matches Ok(done) && done.result == UpdateResult::AllOk && done.writes.len() == 0
            && done.changed.len() == 0,
        middle == remote_map(entries),
        last == remote_map(entries),
{
    lemma_no_difference(second->Ok_0.writes, second->Ok_0.changed, middle);
}

/// A notice that is owed to a subscriber: `node` in its new state, to be sent to `email`.
#[derive(Debug, PartialEq, Eq)]
pub struct Notification {
    pub node: NodeQuery,
    pub email: String,
}

/// Mathematical value of a [`Notification`].
pub struct NotificationView {
    pub node: NodeView,
    pub email: Seq<char>,
}

impl View for Notification {
    type V = NotificationView;

    open spec fn view(&self) -> NotificationView {
        NotificationView { node: self.node@, email: self.email@ }
    }
}

/// The notices of a vector, each taken by its view.
pub open spec fn notification_views(notes: Seq<Notification>) -> Seq<NotificationView> {
    notes.map_values(|n: Notification| n@)
}

/// The notices owed for one change: one to each subscription that watches the
/// node, in the table's order.
pub open spec fn notices_for(change: NodeView, rows: Seq<MonitorView>) -> Seq<NotificationView> {
    watching(rows, change.id).map_values(
        |m: MonitorView| NotificationView { node: change, email: m.email },
    )
}

/// The notices owed for a list of changes, change by change.
pub open spec fn fan_out(changes: Seq<NodeView>, rows: Seq<MonitorView>) -> Seq<NotificationView>
    decreases changes.len(),
{
    if changes.len() == 0 {
        Seq::empty()
    } else {
        fan_out(changes.drop_last(), rows) + notices_for(changes.last(), rows)
    }
}

/// Every subscriber of a node that changed is owed exactly one notice, which
/// tells the node's new state, and nobody else is owed one.
pub proof fn lemma_one_notice_per_watcher(change: NodeView, rows: Seq<MonitorView>)
    requires
        distinct_monitors(rows),
    ensures
        ({
            let notes = notices_for(change, rows);
            &&& forall|k: int|
                0 <= k < notes.len() ==> (#[trigger] notes[k]).node == change && rows.contains(
                    MonitorView { id: change.id, email: notes[k].email },
                )
            &&& forall|i: int, j: int|
                0 <= i < j < notes.len() ==> notes[i].email != notes[j].email
            &&& forall|email: Seq<char>| #[trigger]
                rows.contains(MonitorView { id: change.id, email }) ==> exists|k: int|
                    0 <= k < notes.len() && notes[k].email == email
        }),
{
    let watchers = watching(rows, change.id);
    let notes = notices_for(change, rows);
    lemma_watching(rows, change.id);
    assert forall|k: int| 0 <= k < notes.len() implies (#[trigger] notes[k]).node == change
        && rows.contains(MonitorView { id: change.id, email: notes[k].email }) by {
        assert(watchers.contains(watchers[k]));
    }
    assert forall|i: int, j: int| 0 <= i < j < notes.len() implies notes[i].email
        != notes[j].email by {
        assert(watchers.contains(watchers[i]));
        assert(watchers.contains(watchers[j]));
        assert(watchers[i] != watchers[j]);
    }
    assert forall|email: Seq<char>| #[trigger]
        rows.contains(MonitorView { id: change.id, email }) implies exists|k: int|
        0 <= k < notes.len() && notes[k].email == email by {
        let m = MonitorView { id: change.id, email };
        assert(watchers.contains(m));
        let k = choose|k: int| 0 <= k < watchers.len() && watchers[k] == m;
        assert(notes[k].email == email);
    }
}

/// Resolves the subscribers of a node that changed: one notice for each
/// subscription that watches it.
pub fn dispatch(change: &NodeQuery, monitors: &MonitorTable) -> (notes: Vec<Notification>)
    ensures
        notification_views(notes@) == notices_for(change@, monitors.rows()),
{
    let watchers = monitors.watchers(change.id.as_str());
    let ghost rows = monitor_views(watchers@);
    let mut notes: Vec<Notification> = Vec::new();
    let mut i: usize = 0;
    while i < watchers.len()
        invariant
            i <= watchers.len(),
            rows == monitor_views(watchers@),
            notification_views(notes@) == rows.take(i as int).map_values(
                |m: MonitorView| NotificationView { node: change@, email: m.email },
            ),
        decreases watchers.len() - i,
    {
        let ghost prev = notification_views(notes@);
        notes.push(Notification { node: change.clone(), email: watchers[i].email.clone() });
        proof {
            assert(notification_views(notes@) =~= prev.push(
                NotificationView { node: change@, email: rows[i as int].email },
            ));
            assert(notification_views(notes@) =~= rows.take(i + 1).map_values(
                |m: MonitorView| NotificationView { node: change@, email: m.email },
            ));
        }
        i += 1;
    }
    proof {
        assert(rows.take(watchers.len() as int) =~= rows);
    }
    notes
}

/// Resolves the subscribers of every node of `changed`, in turn.
pub fn dispatch_all(changed: &Vec<NodeQuery>, monitors: &MonitorTable) -> (notes: Vec<Notification>)
    ensures
        notification_views(notes@) == fan_out(node_views(changed@), monitors.rows()),
{
    let mut notes: Vec<Notification> = Vec::new();
    let ghost all = node_views(changed@);
    let mut i: usize = 0;
    while i < changed.len()
        invariant
            i <= changed.len(),
            all == node_views(changed@),
            notification_views(notes@) == fan_out(all.take(i as int), monitors.rows()),
        decreases changed.len() - i,
    {
        let ghost prev = notification_views(notes@);
        let mut more = dispatch(&changed[i], monitors);
        let ghost added = notification_views(more@);
        notes.append(&mut more);
        proof {
            assert(all.take(i + 1).drop_last() =~= all.take(i as int));
            assert(notification_views(notes@) =~= prev + added);
        }
        i += 1;
    }
    proof {
        assert(all.take(changed.len() as int) =~= all);
    }
    notes
}

/// What a run of `update_nodes` did: the update of the node table, and the
/// notices that are owed for it.
pub struct Update {
    pub reconciled: Reconciled,
    pub notifications: Vec<Notification>,
}

/// Takes in the latest node list, updates the node table and works out whom to notify.
impl<'r> Ctx<'r> {
    /// Brings the node table `db` up to the node list `cur_nodes` and returns,
    /// with what was done, one notice for every subscription of `monitors`
    /// that watches a node which changed between online and offline.
    ///
    /// A list of an unsupported version is refused, and a list that names
    /// fewer online nodes than the configuration asks for is not acted on;
    /// then the table stays as it is and no notice is owed. The table is
    /// brought up to date before any notice is worked out.
    pub fn update_nodes(
        &self,
        cur_nodes: &Nodes,
        db: &mut NodeDirectory,
        monitors: &MonitorTable,
    ) -> (r: Result<Update, NodeListError>)
        ensures
            reconciled(
                cur_nodes.version,
                entry_views(cur_nodes.nodes@),
                match self.0.ui.min_online_nodes {
                    Some(n) => n,
                    None => 0usize,
                },
                old(db)@,
                final(db)@,
                match r {
                    Ok(update) => Ok(update.reconciled@),
                    Err(e) => Err(e),
                },
            ),
            r matches Ok(update) ==> {
                &&& apply_writes(old(db)@, update.reconciled@.writes) == final(db)@
                &&& notification_views(update.notifications@) == fan_out(
                    update.reconciled@.changed,
                    monitors.rows(),
                )
            },
    {
        let config = self.config();
        let min_online = match config.ui.min_online_nodes {
            Some(n) => n,
            None => 0,
        };
        // Compute which nodes changed their state, and update the table
        let reconciled = match reconcile(cur_nodes, min_online, db) {
            Ok(done) => done,
            Err(e) => {
                return Err(e);
            },
        };
        // See who monitors the nodes that changed
        let notifications = dispatch_all(&reconciled.changed, monitors);
        Ok(Update { reconciled, notifications })
    }
}

} // verus!
