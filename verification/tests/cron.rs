use ff_node_monitor::config::{Config, Secrets, Ui, Urls};
use ff_node_monitor::cron::{diff, dispatch, dispatch_all, reconcile, remote_directory};
use ff_node_monitor::cron::{json_to_node_data, model_to_node_data};
use ff_node_monitor::cron::{NodeListError, NodeWrite, Notification, UpdateResult};
use ff_node_monitor::hmac::Key;
use ff_node_monitor::json::{Flags, Node, NodeInfo, Nodes};
use ff_node_monitor::models::{Monitor, MonitorQuery, NodeData, NodeQuery};
use ff_node_monitor::store::{MonitorTable, NodeDirectory};
use ff_node_monitor::util::Ctx;

fn entry(id: Option<&str>, name: Option<&str>, online: bool) -> Node {
    Node {
        nodeinfo: NodeInfo {
            node_id: id.map(|s| s.to_string()),
            hostname: name.map(|s| s.to_string()),
        },
        flags: Flags { online },
    }
}

fn row(id: &str, name: &str, online: bool) -> NodeQuery {
    NodeQuery { id: id.to_string(), name: name.to_string(), online }
}

fn list(nodes: Vec<Node>) -> Nodes {
    Nodes { version: 2, nodes }
}

fn rows_of(db: &NodeDirectory) -> Vec<NodeQuery> {
    let mut rows: Vec<NodeQuery> = (0..db.len()).map(|i| db.row(i).clone()).collect();
    rows.sort_by(|a, b| a.id.cmp(&b.id));
    rows
}

fn sorted(mut rows: Vec<NodeQuery>) -> Vec<NodeQuery> {
    rows.sort_by(|a, b| a.id.cmp(&b.id));
    rows
}

fn write_id(w: &NodeWrite) -> String {
    match w {
        NodeWrite::Insert(r) => r.id.clone(),
        NodeWrite::Update(r) => r.id.clone(),
        NodeWrite::Delete(id) => id.clone(),
    }
}

fn sorted_writes(mut writes: Vec<NodeWrite>) -> Vec<NodeWrite> {
    writes.sort_by(|a, b| write_id(a).cmp(&write_id(b)));
    writes
}

/// Replays writes on a plain list of rows, as a store would.
fn replay(mut rows: Vec<NodeQuery>, writes: &[NodeWrite]) -> Vec<NodeQuery> {
    for w in writes {
        match w {
            NodeWrite::Insert(r) => {
                assert!(rows.iter().all(|x| x.id != r.id));
                rows.push(r.clone());
            }
            NodeWrite::Update(r) => {
                let at = rows.iter().position(|x| x.id == r.id).unwrap();
                rows[at] = r.clone();
            }
            NodeWrite::Delete(id) => {
                let at = rows.iter().position(|x| &x.id == id).unwrap();
                rows.remove(at);
            }
        }
    }
    sorted(rows)
}

fn config(min_online_nodes: Option<usize>) -> Config {
    Config {
        ui: Ui {
            instance_name: "Freifunk".to_string(),
            instance_article_dative: "dem".to_string(),
            email_from: "monitor@example.org".to_string(),
            min_online_nodes,
        },
        secrets: Secrets { smtp_host: None, action_signing_key: Key::new(vec![7; 32]).unwrap() },
        urls: Urls {
            root: "https://monitor.example.org".to_string(),
            nodes: "https://map.example.org/nodes.json".to_string(),
            sources: "https://example.org/src".to_string(),
            stylesheet: None,
        },
    }
}

#[test]
fn json_to_node_data_needs_id_and_name() {
    let (id, data) = json_to_node_data(&entry(Some("A"), Some("alpha"), true)).unwrap();
    assert_eq!(id, "A");
    assert_eq!(data, NodeData { name: "alpha".to_string(), online: true });
    assert!(json_to_node_data(&entry(None, Some("alpha"), true)).is_none());
    assert!(json_to_node_data(&entry(Some("A"), None, true)).is_none());
    assert!(json_to_node_data(&entry(None, None, false)).is_none());
}

#[test]
fn model_and_node_data_convert_both_ways() {
    let (id, data) = model_to_node_data(row("A", "alpha", true));
    assert_eq!(id, "A");
    assert_eq!(data, NodeData { name: "alpha".to_string(), online: true });
    assert_eq!(data.into_model(id), row("A", "alpha", true));
}

#[test]
fn remote_directory_drops_unpublished_entries_and_lets_the_last_win() {
    let d = remote_directory(&vec![
        entry(Some("A"), Some("alpha"), true),
        entry(None, Some("nameless"), true),
        entry(Some("B"), None, true),
        entry(Some("C"), Some("gamma"), false),
        entry(Some("A"), Some("alpha again"), false),
    ]);
    assert_eq!(rows_of(&d), vec![row("A", "alpha again", false), row("C", "gamma", false)]);
    assert_eq!(d.count_online(), 0);
    assert_eq!(d.get("A"), Some(&row("A", "alpha again", false)));
    assert_eq!(d.get("B"), None);
}

#[test]
fn count_online_counts_nodes() {
    let d = NodeDirectory::from_rows(vec![
        row("A", "alpha", true),
        row("B", "beta", false),
        row("C", "gamma", true),
        row("A", "alpha", true),
    ]);
    assert_eq!(d.len(), 3);
    assert_eq!(d.count_online(), 2);
    assert_eq!(NodeDirectory::new().count_online(), 0);
}

#[test]
fn reconcile_updates_deletes_and_inserts() {
    let mut db =
        NodeDirectory::from_rows(vec![row("A", "alpha", true), row("B", "beta", false)]);
    let before = rows_of(&db);
    let feed = list(vec![
        entry(Some("A"), Some("alpha"), false),
        entry(Some("C"), Some("gamma"), true),
    ]);
    let done = reconcile(&feed, 0, &mut db).unwrap();
    assert_eq!(done.result, UpdateResult::AllOk);
    // B was offline already: it leaves without a change. A went offline, C appeared online.
    assert_eq!(sorted(done.changed), vec![row("A", "alpha", false), row("C", "gamma", true)]);
    assert_eq!(
        sorted_writes(done.writes.clone()),
        vec![
            NodeWrite::Update(row("A", "alpha", false)),
            NodeWrite::Delete("B".to_string()),
            NodeWrite::Insert(row("C", "gamma", true)),
        ]
    );
    assert_eq!(rows_of(&db), vec![row("A", "alpha", false), row("C", "gamma", true)]);
    assert_eq!(replay(before, &done.writes), rows_of(&db));
}

#[test]
fn a_node_that_leaves_while_online_is_reported_offline() {
    let mut db = NodeDirectory::from_rows(vec![row("A", "alpha", true), row("B", "beta", true)]);
    let feed = list(vec![entry(Some("A"), Some("alpha"), true)]);
    let done = reconcile(&feed, 0, &mut db).unwrap();
    assert_eq!(done.changed, vec![row("B", "beta", false)]);
    assert_eq!(done.writes, vec![NodeWrite::Delete("B".to_string())]);
    assert_eq!(rows_of(&db), vec![row("A", "alpha", true)]);
}

#[test]
fn a_new_node_that_is_offline_is_inserted_silently() {
    let mut db = NodeDirectory::new();
    let feed = list(vec![entry(Some("A"), Some("alpha"), false)]);
    let done = reconcile(&feed, 0, &mut db).unwrap();
    assert_eq!(done.changed, vec![]);
    assert_eq!(done.writes, vec![NodeWrite::Insert(row("A", "alpha", false))]);
    assert_eq!(rows_of(&db), vec![row("A", "alpha", false)]);
}

#[test]
fn a_new_name_is_written_but_not_reported() {
    let mut db = NodeDirectory::from_rows(vec![row("A", "alpha", true)]);
    let feed = list(vec![entry(Some("A"), Some("ALPHA"), true)]);
    let done = reconcile(&feed, 0, &mut db).unwrap();
    assert_eq!(done.result, UpdateResult::AllOk);
    assert_eq!(done.changed, vec![]);
    assert_eq!(done.writes, vec![NodeWrite::Update(row("A", "ALPHA", true))]);
    assert_eq!(rows_of(&db), vec![row("A", "ALPHA", true)]);
}

#[test]
fn a_flip_is_reported_under_the_new_name() {
    let mut db = NodeDirectory::from_rows(vec![row("A", "alpha", false)]);
    let feed = list(vec![entry(Some("A"), Some("ALPHA"), true)]);
    let done = reconcile(&feed, 0, &mut db).unwrap();
    assert_eq!(done.changed, vec![row("A", "ALPHA", true)]);
    assert_eq!(done.writes, vec![NodeWrite::Update(row("A", "ALPHA", true))]);
}

#[test]
fn reconcile_twice_converges() {
    let mut db =
        NodeDirectory::from_rows(vec![row("A", "alpha", true), row("B", "beta", false)]);
    let feed = list(vec![
        entry(Some("A"), Some("alpha"), false),
        entry(Some("C"), Some("gamma"), true),
        entry(Some("D"), None, true),
    ]);
    let first = reconcile(&feed, 1, &mut db).unwrap();
    assert_eq!(first.result, UpdateResult::AllOk);
    assert_eq!(first.changed.len(), 2);
    let after_first = rows_of(&db);
    let second = reconcile(&feed, 1, &mut db).unwrap();
    assert_eq!(second.result, UpdateResult::AllOk);
    assert_eq!(second.changed, vec![]);
    assert_eq!(second.writes, vec![]);
    assert_eq!(rows_of(&db), after_first);
    assert_eq!(rows_of(&db), rows_of(&remote_directory(&feed.nodes)));
    assert_eq!(rows_of(&db), vec![row("A", "alpha", false), row("C", "gamma", true)]);
}

#[test]
fn too_few_online_nodes_leave_the_table_alone() {
    let stored: Vec<NodeQuery> =
        (0..50).map(|i| row(&format!("n{:02}", i), &format!("node {}", i), true)).collect();
    let mut db = NodeDirectory::from_rows(stored.clone());
    let feed = list(
        (0..50)
            .map(|i| entry(Some(&format!("n{:02}", i)), Some(&format!("node {}", i)), false))
            .collect(),
    );
    let done = reconcile(&feed, 10, &mut db).unwrap();
    assert_eq!(done.result, UpdateResult::NotEnoughOnline(0));
    assert_eq!(done.changed, vec![]);
    assert_eq!(done.writes, vec![]);
    assert_eq!(rows_of(&db), stored);
}

#[test]
fn guard_counts_each_node_once_and_lets_the_threshold_pass() {
    let feed = list(vec![
        entry(Some("A"), Some("alpha"), true),
        entry(Some("A"), Some("alpha"), true),
        entry(Some("B"), Some("beta"), true),
        entry(None, Some("nameless"), true),
        entry(Some("C"), Some("gamma"), false),
    ]);
    let mut db = NodeDirectory::new();
    assert_eq!(reconcile(&feed, 3, &mut db).unwrap().result, UpdateResult::NotEnoughOnline(2));
    assert_eq!(db.len(), 0);
    // exactly as many as asked for is enough
    assert_eq!(reconcile(&feed, 2, &mut db).unwrap().result, UpdateResult::AllOk);
    assert_eq!(db.len(), 3);
}

#[test]
fn unsupported_version_is_refused() {
    let mut db = NodeDirectory::from_rows(vec![row("A", "alpha", true)]);
    for version in [0usize, 1, 3] {
        let feed = Nodes { version, nodes: vec![entry(Some("B"), Some("beta"), true)] };
        match reconcile(&feed, 0, &mut db) {
            Err(e) => assert_eq!(e, NodeListError::UnsupportedVersion { version }),
            Ok(_) => panic!("version {} was accepted", version),
        }
        assert_eq!(rows_of(&db), vec![row("A", "alpha", true)]);
    }
}

#[test]
fn diff_of_equal_directories_is_empty() {
    let a = NodeDirectory::from_rows(vec![row("A", "alpha", true), row("B", "beta", false)]);
    let b = NodeDirectory::from_rows(vec![row("B", "beta", false), row("A", "alpha", true)]);
    let (writes, changed) = diff(&a, &b);
    assert_eq!(writes, vec![]);
    assert_eq!(changed, vec![]);
}

#[test]
fn each_watcher_of_a_changed_node_gets_one_notice() {
    let mut monitors = MonitorTable::new();
    assert!(monitors.insert(&Monitor { id: "A", email: "x@example.com" }));
    assert!(monitors.insert(&Monitor { id: "B", email: "x@example.com" }));
    assert!(monitors.insert(&Monitor { id: "A", email: "y@example.com" }));
    let mut db = NodeDirectory::from_rows(vec![row("A", "alpha", true), row("B", "beta", true)]);
    let feed = list(vec![
        entry(Some("A"), Some("alpha"), false),
        entry(Some("B"), Some("beta"), true),
    ]);
    let config = config(None);
    let update = Ctx(&config).update_nodes(&feed, &mut db, &monitors).unwrap();
    assert_eq!(update.reconciled.result, UpdateResult::AllOk);
    assert_eq!(update.reconciled.changed, vec![row("A", "alpha", false)]);
    assert_eq!(
        update.notifications,
        vec![
            Notification { node: row("A", "alpha", false), email: "x@example.com".to_string() },
            Notification { node: row("A", "alpha", false), email: "y@example.com".to_string() },
        ]
    );
    assert_eq!(rows_of(&db), vec![row("A", "alpha", false), row("B", "beta", true)]);
}

#[test]
fn update_nodes_takes_the_threshold_from_the_configuration() {
    let monitors = MonitorTable::from_rows(vec![MonitorQuery {
        id: "A".to_string(),
        email: "x@example.com".to_string(),
    }]);
    let feed = list(vec![entry(Some("A"), Some("alpha"), true)]);
    let strict = config(Some(2));
    let mut db = NodeDirectory::new();
    let update = Ctx(&strict).update_nodes(&feed, &mut db, &monitors).unwrap();
    assert_eq!(update.reconciled.result, UpdateResult::NotEnoughOnline(1));
    assert_eq!(update.notifications, vec![]);
    assert_eq!(db.len(), 0);
    let lax = config(None);
    let update = Ctx(&lax).update_nodes(&feed, &mut db, &monitors).unwrap();
    assert_eq!(update.reconciled.result, UpdateResult::AllOk);
    assert_eq!(update.notifications.len(), 1);
    assert_eq!(update.notifications[0].email, "x@example.com");
    assert_eq!(update.notifications[0].node, row("A", "alpha", true));
}

#[test]
fn update_nodes_refuses_an_unsupported_version() {
    let config = config(None);
    let monitors = MonitorTable::new();
    let mut db = NodeDirectory::new();
    let feed = Nodes { version: 1, nodes: vec![entry(Some("A"), Some("alpha"), true)] };
    match Ctx(&config).update_nodes(&feed, &mut db, &monitors) {
        Err(e) => assert_eq!(e, NodeListError::UnsupportedVersion { version: 1 }),
        Ok(_) => panic!("version 1 was accepted"),
    }
    assert_eq!(db.len(), 0);
}

#[test]
fn dispatch_finds_the_watchers_of_one_node() {
    let monitors = MonitorTable::from_rows(vec![
        MonitorQuery { id: "A".to_string(), email: "x@example.com".to_string() },
        MonitorQuery { id: "B".to_string(), email: "z@example.com".to_string() },
        MonitorQuery { id: "A".to_string(), email: "y@example.com".to_string() },
        MonitorQuery { id: "A".to_string(), email: "x@example.com".to_string() },
    ]);
    assert_eq!(monitors.len(), 3);
    let notes = dispatch(&row("A", "alpha", false), &monitors);
    assert_eq!(
        notes,
        vec![
            Notification { node: row("A", "alpha", false), email: "x@example.com".to_string() },
            Notification { node: row("A", "alpha", false), email: "y@example.com".to_string() },
        ]
    );
    assert_eq!(dispatch(&row("C", "gamma", true), &monitors), vec![]);
    let all = dispatch_all(&vec![row("B", "beta", true), row("A", "alpha", false)], &monitors);
    assert_eq!(all.len(), 3);
    assert_eq!(all[0].email, "z@example.com");
    assert_eq!(all[0].node, row("B", "beta", true));
}

#[test]
fn watchers_are_the_rows_of_the_node() {
    let mut monitors = MonitorTable::new();
    monitors.insert(&Monitor { id: "A", email: "x@example.com" });
    monitors.insert(&Monitor { id: "AA", email: "y@example.com" });
    assert_eq!(
        monitors.watchers("A"),
        vec![MonitorQuery { id: "A".to_string(), email: "x@example.com".to_string() }]
    );
    assert_eq!(monitors.watchers(""), vec![]);
    assert_eq!(monitors.position(&Monitor { id: "AA", email: "y@example.com" }), Some(1));
    assert_eq!(monitors.position(&Monitor { id: "AA", email: "x@example.com" }), None);
}

#[test]
fn directory_put_replaces_by_id() {
    let mut d = NodeDirectory::new();
    d.put(row("A", "alpha", true));
    d.put(row("B", "beta", true));
    d.put(row("A", "alef", false));
    assert_eq!(d.len(), 2);
    assert_eq!(d.position("A"), Some(0));
    assert_eq!(d.position("B"), Some(1));
    assert_eq!(d.position("C"), None);
    assert_eq!(d.get("A"), Some(&row("A", "alef", false)));
}
