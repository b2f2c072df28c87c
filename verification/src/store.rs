//! The node table and the subscription table, held in memory, each viewed
//! as the mathematical map or set that it stands for.

use vstd::prelude::*;
use crate::models::{Monitor, MonitorQuery, MonitorView, NodeDataView, NodeQuery, NodeView};
use crate::models::{monitor_views, node_views};
use crate::util::str_eq;

verus! {

/// No two rows carry the same id.
pub open spec fn distinct_ids(rows: Seq<NodeView>) -> bool {
    forall|i: int, j: int| 0 <= i < j < rows.len() ==> rows[i].id != rows[j].id
}

/// Some row carries `id`.
pub open spec fn has_id(rows: Seq<NodeView>, id: Seq<char>) -> bool {
    exists|i: int| 0 <= i < rows.len() && #[trigger] rows[i].id == id
}

/// The map from id to name and online flag that a sequence of rows stands for.
/// Where an id occurs more than once the last row wins.
pub open spec fn directory_map(rows: Seq<NodeView>) -> Map<Seq<char>, NodeDataView>
    decreases rows.len(),
{
    if rows.len() == 0 {
        Map::empty()
    } else {
        directory_map(rows.drop_last()).insert(rows.last().id, rows.last().data())
    }
}

/// The keys of `directory_map(rows)` are the ids of the rows.
pub proof fn lemma_directory_map_keys(rows: Seq<NodeView>)
    ensures
        forall|id: Seq<char>| #[trigger] directory_map(rows).contains_key(id) <==> has_id(rows, id),
    decreases rows.len(),
{
    if rows.len() > 0 {
        let front = rows.drop_last();
        lemma_directory_map_keys(front);
        assert forall|id: Seq<char>| #[trigger]
            directory_map(rows).contains_key(id) <==> has_id(rows, id) by {
            assert(directory_map(front).contains_key(id) <==> has_id(front, id));
            if has_id(rows, id) {
                let i = choose|i: int| 0 <= i < rows.len() && #[trigger] rows[i].id == id;
                if i < rows.len() - 1 {
                    assert(front[i].id == id);
                }
            }
            if has_id(front, id) {
                let i = choose|i: int| 0 <= i < front.len() && #[trigger] front[i].id == id;
                assert(rows[i].id == id);
            }
            if id == rows.last().id {
                assert(rows[rows.len() - 1].id == id);
            }
        }
    }
}

/// With distinct ids, every row is found under its id.
pub proof fn lemma_directory_map_rows(rows: Seq<NodeView>)
    requires
        distinct_ids(rows),
    ensures
        forall|i: int|
            0 <= i < rows.len() ==> directory_map(rows).contains_key(#[trigger] rows[i].id)
                && directory_map(rows)[rows[i].id] == rows[i].data(),
    decreases rows.len(),
{
    if rows.len() > 0 {
        let front = rows.drop_last();
        assert(distinct_ids(front)) by {
            assert forall|i: int, j: int| 0 <= i < j < front.len() implies front[i].id
                != front[j].id by {
                assert(rows[i].id != rows[j].id);
            }
        }
        lemma_directory_map_rows(front);
        assert forall|i: int| 0 <= i < rows.len() implies directory_map(rows).contains_key(
            #[trigger] rows[i].id,
        ) && directory_map(rows)[rows[i].id] == rows[i].data() by {
            if i < rows.len() - 1 {
                assert(front[i] == rows[i]);
                assert(rows[i].id != rows[rows.len() - 1].id);
            }
        }
    }
}

/// The ids of the nodes that a directory holds as online.
pub open spec fn online_ids(m: Map<Seq<char>, NodeDataView>) -> Set<Seq<char>> {
    Set::new(|id: Seq<char>| m.contains_key(id) && m[id].online)
}

/// The number of nodes that a directory holds as online.
pub open spec fn online_count(m: Map<Seq<char>, NodeDataView>) -> nat {
    online_ids(m).len()
}

/// The number of rows whose online flag is set.
pub open spec fn online_rows(rows: Seq<NodeView>) -> nat
    decreases rows.len(),
{
    if rows.len() == 0 {
        0
    } else {
        online_rows(rows.drop_last()) + if rows.last().online {
            1nat
        } else {
            0nat
        }
    }
}

/// With distinct ids, counting the online rows counts the online nodes.
pub proof fn lemma_online_rows(rows: Seq<NodeView>)
    requires
        distinct_ids(rows),
    ensures
        online_ids(directory_map(rows)).finite(),
        online_count(directory_map(rows)) == online_rows(rows),
        online_rows(rows) <= rows.len(),
    decreases rows.len(),
{
    if rows.len() == 0 {
        assert(online_ids(directory_map(rows)) =~= Set::<Seq<char>>::empty());
    } else {
        let front = rows.drop_last();
        let last = rows.last();
        assert(distinct_ids(front)) by {
            assert forall|i: int, j: int| 0 <= i < j < front.len() implies front[i].id
                != front[j].id by {
                assert(rows[i].id != rows[j].id);
            }
        }
        lemma_online_rows(front);
        lemma_directory_map_keys(front);
        assert(!directory_map(front).contains_key(last.id)) by {
            if has_id(front, last.id) {
                let i = choose|i: int| 0 <= i < front.len() && #[trigger] front[i].id == last.id;
                assert(rows[i].id != rows[rows.len() - 1].id);
            }
        }
        let before = online_ids(directory_map(front));
        if last.online {
            assert(online_ids(directory_map(rows)) =~= before.insert(last.id));
        } else {
            assert(online_ids(directory_map(rows)) =~= before);
        }
    }
}

/// The node directory: the rows of the node table, each id at most once.
pub struct NodeDirectory {
    rows: Vec<NodeQuery>,
}

impl View for NodeDirectory {
    type V = Map<Seq<char>, NodeDataView>;

    closed spec fn view(&self) -> Map<Seq<char>, NodeDataView> {
        directory_map(node_views(self.rows@))
    }
}

impl NodeDirectory {
    /// The rows in the order in which the directory holds them.
    pub closed spec fn rows(&self) -> Seq<NodeView> {
        node_views(self.rows@)
    }

    #[verifier::type_invariant]
    spec fn each_id_once(self) -> bool {
        distinct_ids(node_views(self.rows@))
    }

    /// How the view and the rows belong together. That the rows carry
    /// distinct ids is what `len` tells of every directory.
    pub proof fn lemma_view(&self)
        requires
            distinct_ids(self.rows()),
        ensures
            self@ == directory_map(self.rows()),
            forall|id: Seq<char>| #[trigger] self@.contains_key(id) <==> has_id(self.rows(), id),
            forall|i: int|
                0 <= i < self.rows().len() ==> self@.contains_key(#[trigger] self.rows()[i].id)
                    && self@[self.rows()[i].id] == self.rows()[i].data(),
    {
        lemma_directory_map_keys(self.rows());
        lemma_directory_map_rows(self.rows());
    }

    /// The empty directory.
    pub fn new() -> (d: Self)
        ensures
            d@ == Map::<Seq<char>, NodeDataView>::empty(),
            d.rows().len() == 0,
    {
        NodeDirectory { rows: Vec::new() }
    }

    /// The directory that holds the given rows. Where an id occurs more than
    /// once the last row wins.
    pub fn from_rows(rows: Vec<NodeQuery>) -> (d: Self)
        ensures
            d@ == directory_map(node_views(rows@)),
    {
        let mut d = NodeDirectory::new();
        let ghost all = node_views(rows@);
        let mut i: usize = 0;
        while i < rows.len()
            invariant
                i <= rows.len(),
                all == node_views(rows@),
                d@ == directory_map(all.take(i as int)),
            decreases rows.len() - i,
        {
            proof {
                assert(all.take(i + 1).drop_last() =~= all.take(i as int));
            }
            d.put(rows[i].clone());
            i += 1;
        }
        proof {
            assert(all.take(rows.len() as int) =~= all);
        }
        d
    }

    /// The number of nodes. No two of the rows carry the same id.
    pub fn len(&self) -> (n: usize)
        ensures
            n == self.rows().len(),
            distinct_ids(self.rows()),
    {
        proof {
            use_type_invariant(self);
        }
        self.rows.len()
    }

    /// The row at position `i`.
    pub fn row(&self, i: usize) -> (r: &NodeQuery)
        requires
            i < self.rows().len(),
        ensures
            r@ == self.rows()[i as int],
    {
        &self.rows[i]
    }

    /// The position of the row whose id is `id`, if there is one.
    pub fn position(&self, id: &str) -> (r: Option<usize>)
        ensures
            match r {
                Some(i) => i < self.rows().len() && self.rows()[i as int].id == id@,
                None => !has_id(self.rows(), id@),
            },
    {
        find_id(&self.rows, id)
    }

    /// The row stored under `id`, if there is one.
    pub fn get(&self, id: &str) -> (r: Option<&NodeQuery>)
        ensures
            match r {
                Some(row) => self@.contains_key(id@) && row@.id == id@ && row@.data() == self@[id@],
                None => !self@.contains_key(id@),
            },
    {
        proof {
            use_type_invariant(self);
            self.lemma_view();
        }
        match self.position(id) {
            Some(i) => Some(&self.rows[i]),
            None => None,
        }
    }

    /// The number of nodes that are online.
    pub fn count_online(&self) -> (n: usize)
        ensures
            n == online_count(self@),
    {
        proof {
            use_type_invariant(self);
        }
        let mut n: usize = 0;
        let mut i: usize = 0;
        while i < self.rows.len()
            invariant
                i <= self.rows.len(),
                n == online_rows(self.rows().take(i as int)),
                n <= i,
            decreases self.rows.len() - i,
        {
            proof {
                assert(self.rows().take(i + 1).drop_last() =~= self.rows().take(i as int));
            }
            if self.rows[i].online {
                n += 1;
            }
            i += 1;
        }
        proof {
            assert(self.rows().take(self.rows.len() as int) =~= self.rows());
            lemma_online_rows(self.rows());
        }
        n
    }

    /// Stores `row` under its id, in place of the row that was there, if any.
    pub fn put(&mut self, row: NodeQuery)
        ensures
            final(self)@ == old(self)@.insert(row@.id, row@.data()),
    {
        proof {
            use_type_invariant(&*self);
            self.lemma_view();
        }
        let ghost before = self.rows();
        let ghost rv = row@;
        let mut rows: Vec<NodeQuery> = Vec::new();
        std::mem::swap(&mut rows, &mut self.rows);
        match find_id(&rows, row.id.as_str()) {
            Some(i) => {
                rows[i] = row;
                proof {
                    let after = node_views(rows@);
                    assert(after =~= before.update(i as int, rv));
                    assert(distinct_ids(after)) by {
                        assert forall|a: int, b: int| 0 <= a < b < after.len() implies after[a].id
                            != after[b].id by {
                            assert(before[a].id != before[b].id);
                        }
                    }
                    lemma_directory_map_keys(after);
                    lemma_directory_map_rows(after);
                    assert forall|id: Seq<char>| has_id(after, id) <==> has_id(before, id) by {
                        if has_id(after, id) {
                            let k = choose|k: int|
                                0 <= k < after.len() && #[trigger] after[k].id == id;
                            assert(before[k].id == id);
                        }
                        if has_id(before, id) {
                            let k = choose|k: int|
                                0 <= k < before.len() && #[trigger] before[k].id == id;
                            assert(after[k].id == id);
                        }
                    }
                    let target = directory_map(before).insert(rv.id, rv.data());
                    assert forall|id: Seq<char>| #[trigger]
                        directory_map(after).contains_key(id) implies directory_map(after)[id]
                        == target[id] by {
                        let k = choose|k: int| 0 <= k < after.len() && #[trigger] after[k].id == id;
                        if k != i {
                            assert(before[k].id == id);
                        }
                    }
                    assert(has_id(before, rv.id)) by {
                        assert(before[i as int].id == rv.id);
                    }
                    assert(directory_map(after) =~= target);
                }
            },
            None => {
                rows.push(row);
                proof {
                    let after = node_views(rows@);
                    assert(after =~= before.push(rv));
                    assert(after.drop_last() =~= before);
                    assert(distinct_ids(after)) by {
                        assert forall|a: int, b: int| 0 <= a < b < after.len() implies after[a].id
                            != after[b].id by {
                            if b < before.len() {
                                assert(before[a].id != before[b].id);
                            } else {
                                assert(before[a].id != rv.id);
                            }
                        }
                    }
                }
            },
        }
        self.rows = rows;
    }
}

/// The position of the row of `rows` whose id is `id`, if there is one.
fn find_id(rows: &Vec<NodeQuery>, id: &str) -> (r: Option<usize>)
    ensures
        match r {
            Some(i) => i < rows@.len() && node_views(rows@)[i as int].id == id@,
            None => !has_id(node_views(rows@), id@),
        },
{
    let mut i: usize = 0;
    while i < rows.len()
        invariant
            i <= rows.len(),
            forall|j: int| 0 <= j < i ==> (#[trigger] node_views(rows@)[j]).id != id@,
        decreases rows.len() - i,
    {
        if str_eq(rows[i].id.as_str(), id) {
            return Some(i);
        }
        i += 1;
    }
    None
}

/// No subscription occurs twice.
pub open spec fn distinct_monitors(rows: Seq<MonitorView>) -> bool {
    forall|i: int, j: int| 0 <= i < j < rows.len() ==> rows[i] != rows[j]
}

/// The subscriptions of `rows` that watch the node `id`, in their order.
pub open spec fn watching(rows: Seq<MonitorView>, id: Seq<char>) -> Seq<MonitorView>
    decreases rows.len(),
{
    if rows.len() == 0 {
        Seq::empty()
    } else if rows.last().id == id {
        watching(rows.drop_last(), id).push(rows.last())
    } else {
        watching(rows.drop_last(), id)
    }
}

/// `watching` holds the rows with the given id, and only those.
pub proof fn lemma_watching(rows: Seq<MonitorView>, id: Seq<char>)
    ensures
        forall|m: MonitorView| #[trigger] watching(rows, id).contains(m) <==> rows.contains(m) && m.id == id,
        watching(rows, id).len() <= rows.len(),
        distinct_monitors(rows) ==> distinct_monitors(watching(rows, id)),
    decreases rows.len(),
{
    if rows.len() > 0 {
        let front = rows.drop_last();
        let last = rows.last();
        lemma_watching(front, id);
        let w = watching(rows, id);
        let wf = watching(front, id);
        assert forall|m: MonitorView| #[trigger] w.contains(m) <==> rows.contains(m) && m.id == id by {
            assert(wf.contains(m) <==> front.contains(m) && m.id == id);
            if rows.contains(m) {
                let i = choose|i: int| 0 <= i < rows.len() && rows[i] == m;
                if i < front.len() {
                    assert(front[i] == m);
                }
            }
            if front.contains(m) {
                let i = choose|i: int| 0 <= i < front.len() && front[i] == m;
                assert(rows[i] == m);
            }
            if wf.contains(m) {
                let i = choose|i: int| 0 <= i < wf.len() && wf[i] == m;
                assert(w[i] == m);
            }
            if w.contains(m) {
                let i = choose|i: int| 0 <= i < w.len() && w[i] == m;
                if i < wf.len() {
                    assert(wf[i] == m);
                } else {
                    assert(m == last);
                }
            }
            if m == last {
                assert(rows[rows.len() - 1] == m);
                if m.id == id {
                    assert(w[w.len() - 1] == m);
                }
            }
        }
        if distinct_monitors(rows) {
            assert(distinct_monitors(front)) by {
                assert forall|i: int, j: int| 0 <= i < j < front.len() implies front[i]
                    != front[j] by {
                    assert(rows[i] != rows[j]);
                }
            }
            if last.id == id {
                assert forall|i: int, j: int| 0 <= i < j < w.len() implies w[i] != w[j] by {
                    if j == w.len() - 1 {
                        assert(wf.contains(w[i]));
                        let k = choose|k: int| 0 <= k < front.len() && front[k] == w[i];
                        assert(rows[k] != rows[rows.len() - 1]);
                    } else {
                        assert(wf[i] != wf[j]);
                    }
                }
            }
        }
    }
}

/// The subscription table: pairs of a node's id and a subscriber's address,
/// each pair at most once.
pub struct MonitorTable {
    rows: Vec<MonitorQuery>,
}

impl View for MonitorTable {
    type V = Set<MonitorView>;

    closed spec fn view(&self) -> Set<MonitorView> {
        Set::new(|m: MonitorView| monitor_views(self.rows@).contains(m))
    }
}

impl MonitorTable {
    /// The rows in the order in which the table holds them.
    pub closed spec fn rows(&self) -> Seq<MonitorView> {
        monitor_views(self.rows@)
    }

    #[verifier::type_invariant]
    spec fn each_pair_once(self) -> bool {
        distinct_monitors(monitor_views(self.rows@))
    }

    /// The table holds the pairs of its rows.
    pub proof fn lemma_view(&self)
        ensures
            forall|m: MonitorView| #[trigger] self@.contains(m) <==> self.rows().contains(m),
    {
    }

    /// The empty table.
    pub fn new() -> (t: Self)
        ensures
            t@ == Set::<MonitorView>::empty(),
            t.rows().len() == 0,
    {
        let t = MonitorTable { rows: Vec::new() };
        proof {
            assert(t@ =~= Set::<MonitorView>::empty());
        }
        t
    }

    /// The table that holds the given pairs, each once.
    pub fn from_rows(rows: Vec<MonitorQuery>) -> (t: Self)
        ensures
            forall|m: MonitorView| #[trigger] t@.contains(m) <==> monitor_views(rows@).contains(m),
    {
        let mut t = MonitorTable::new();
        let ghost all = monitor_views(rows@);
        let mut i: usize = 0;
        while i < rows.len()
            invariant
                i <= rows.len(),
                all == monitor_views(rows@),
                forall|m: MonitorView| #[trigger] t@.contains(m) <==> all.take(i as int).contains(m),
            decreases rows.len() - i,
        {
            let ghost before = t@;
            let row = &rows[i];
            let m = Monitor { id: row.id.as_str(), email: row.email.as_str() };
            t.insert(&m);
            proof {
                let short = all.take(i as int);
                let long = all.take(i + 1);
                assert(m@ == all[i as int]);
                assert forall|x: MonitorView| #[trigger] t@.contains(x) <==> long.contains(x) by {
                    assert(before.contains(x) <==> short.contains(x));
                    if long.contains(x) {
                        let k = choose|k: int| 0 <= k < long.len() && long[k] == x;
                        if k < i {
                            assert(short[k] == x);
                        }
                    }
                    if short.contains(x) {
                        let k = choose|k: int| 0 <= k < short.len() && short[k] == x;
                        assert(long[k] == x);
                    }
                    if x == m@ {
                        assert(long[i as int] == x);
                    }
                }
            }
            i += 1;
        }
        proof {
            assert(all.take(rows.len() as int) =~= all);
        }
        t
    }

    /// The number of subscriptions. No two of the rows hold the same pair.
    pub fn len(&self) -> (n: usize)
        ensures
            n == self.rows().len(),
            distinct_monitors(self.rows()),
    {
        proof {
            use_type_invariant(self);
        }
        self.rows.len()
    }

    /// The position of the pair `m`, if the table holds it.
    pub fn position(&self, m: &Monitor) -> (r: Option<usize>)
        ensures
            match r {
                Some(i) => i < self.rows().len() && self.rows()[i as int] == m@,
                None => !self.rows().contains(m@),
            },
    {
        find_pair(&self.rows, m)
    }

    /// Whether the table holds the pair `m`.
    pub fn contains(&self, m: &Monitor) -> (r: bool)
        ensures
            r == self@.contains(m@),
    {
        self.position(m).is_some()
    }

    /// Adds the pair `m`. Returns whether it was added: `false` says that the
    /// table held it already and is unchanged.
    pub fn insert(&mut self, m: &Monitor) -> (added: bool)
        ensures
            final(self)@ == old(self)@.insert(m@),
            added == !old(self)@.contains(m@),
            !added ==> final(self).rows() == old(self).rows(),
            added ==> final(self).rows() == old(self).rows().push(m@),
    {
        proof {
            use_type_invariant(&*self);
        }
        let ghost before = self.rows();
        match find_pair(&self.rows, m) {
            Some(_) => {
                proof {
                    assert(self@ =~= self@.insert(m@));
                }
                false
            },
            None => {
                let mut rows: Vec<MonitorQuery> = Vec::new();
                std::mem::swap(&mut rows, &mut self.rows);
                rows.push(MonitorQuery { id: m.id.to_owned(), email: m.email.to_owned() });
                proof {
                    let after = monitor_views(rows@);
                    assert(after =~= before.push(m@));
                    assert forall|i: int, j: int| 0 <= i < j < after.len() implies after[i]
                        != after[j] by {
                        if j < before.len() {
                            assert(before[i] != before[j]);
                        } else {
                            assert(before[i] == after[i]);
                            assert(before.contains(after[i]));
                        }
                    }
                }
                self.rows = rows;
                proof {
                    let after = self.rows();
                    assert forall|x: MonitorView| after.contains(x) <==> before.contains(x) || x
                        == m@ by {
                        if after.contains(x) {
                            let i = choose|i: int| 0 <= i < after.len() && after[i] == x;
                            if i < before.len() {
                                assert(before[i] == x);
                            }
                        }
                        if before.contains(x) {
                            let i = choose|i: int| 0 <= i < before.len() && before[i] == x;
                            assert(after[i] == x);
                        }
                        if x == m@ {
                            assert(after[before.len() as int] == x);
                        }
                    }
                    assert(self@ =~= old(self)@.insert(m@));
                }
                true
            },
        }
    }

    /// Drops the pair `m`. Returns whether it was dropped: `false` says that
    /// the table did not hold it and is unchanged.
    pub fn remove(&mut self, m: &Monitor) -> (dropped: bool)
        ensures
            final(self)@ == old(self)@.remove(m@),
            dropped == old(self)@.contains(m@),
            !dropped ==> final(self).rows() == old(self).rows(),
    {
        proof {
            use_type_invariant(&*self);
        }
        let ghost before = self.rows();
        match find_pair(&self.rows, m) {
            Some(i) => {
                let mut rows: Vec<MonitorQuery> = Vec::new();
                std::mem::swap(&mut rows, &mut self.rows);
                rows.remove(i);
                proof {
                    let after = monitor_views(rows@);
                    assert(after =~= before.remove(i as int));
                    assert forall|a: int, b: int| 0 <= a < b < after.len() implies after[a]
                        != after[b] by {
                        let a0 = if a < i { a } else { a + 1 };
                        let b0 = if b < i { b } else { b + 1 };
                        assert(before[a0] != before[b0]);
                    }
                }
                self.rows = rows;
                proof {
                    let after = self.rows();
                    assert forall|x: MonitorView| after.contains(x) <==> before.contains(x) && x
                        != m@ by {
                        if after.contains(x) {
                            let k = choose|k: int| 0 <= k < after.len() && after[k] == x;
                            let k0 = if k < i { k } else { k + 1 };
                            assert(before[k0] == x);
                            assert(before[k0] != before[i as int]);
                        }
                        if before.contains(x) && x != m@ {
                            let k = choose|k: int| 0 <= k < before.len() && before[k] == x;
                            let k1 = if k < i { k } else { k - 1 };
                            assert(after[k1] == x);
                        }
                    }
                    assert(self@ =~= old(self)@.remove(m@));
                }
                true
            },
            None => {
                proof {
                    assert(self@ =~= self@.remove(m@));
                }
                false
            },
        }
    }

    /// The subscriptions that watch the node `id`, in the table's order.
    pub fn watchers(&self, id: &str) -> (r: Vec<MonitorQuery>)
        ensures
            monitor_views(r@) == watching(self.rows(), id@),
    {
        let mut out: Vec<MonitorQuery> = Vec::new();
        let mut i: usize = 0;
        while i < self.rows.len()
            invariant
                i <= self.rows.len(),
                monitor_views(out@) == watching(self.rows().take(i as int), id@),
            decreases self.rows.len() - i,
        {
            proof {
                assert(self.rows().take(i + 1).drop_last() =~= self.rows().take(i as int));
            }
            let ghost prev = monitor_views(out@);
            if str_eq(self.rows[i].id.as_str(), id) {
                out.push(self.rows[i].clone());
                proof {
                    assert(monitor_views(out@) =~= prev.push(self.rows()[i as int]));
                }
            }
            i += 1;
        }
        proof {
            assert(self.rows().take(self.rows.len() as int) =~= self.rows());
        }
        out
    }
}

/// The position of the pair `m` among `rows`, if it is there.
fn find_pair(rows: &Vec<MonitorQuery>, m: &Monitor) -> (r: Option<usize>)
    ensures
        match r {
            Some(i) => i < rows@.len() && monitor_views(rows@)[i as int] == m@,
            None => !monitor_views(rows@).contains(m@),
        },
{
    let mut i: usize = 0;
    while i < rows.len()
        invariant
            i <= rows.len(),
            forall|j: int| 0 <= j < i ==> monitor_views(rows@)[j] != m@,
        decreases rows.len() - i,
    {
        if str_eq(rows[i].id.as_str(), m.id) && str_eq(rows[i].email.as_str(), m.email) {
            return Some(i);
        }
        i += 1;
    }
    None
}

} // verus!
