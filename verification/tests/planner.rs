use std::collections::{HashMap, HashSet};

use mc2::actor::Actor;
use mc2::config::{Config, Remove, Update};
use mc2::db::{Db, DbStore};
use mc2::graph::Graph;
use mc2::path::Path;
use mc2::planner::{Act, DocUpdate, Op, Planner};

#[derive(Debug, PartialEq, Clone)]
enum VU {
    Id,
    Fill(Vec<char>),
}

impl DocUpdate<Vec<char>> for VU {
    // The trait's ghost method, erased from any execution: a stub
    // satisfies the compiled trait.
    fn apply_spec(
        &self,
        _doc: Option<vstd::seq::Seq<char>>,
    ) -> Option<vstd::seq::Seq<char>> {
        unreachable!()
    }

    fn apply(&self, doc: Option<Vec<char>>) -> Option<Vec<char>> {
        match self {
            VU::Id => doc,
            VU::Fill(v) => Some(v.clone()),
        }
    }

    fn dup(&self) -> Self {
        self.clone()
    }
}

#[derive(Debug, PartialEq, Clone)]
enum PU {
    Fill(char, usize),
    Add(usize),
}

impl DocUpdate<(char, usize)> for PU {
    // The trait's ghost method, erased from any execution: a stub
    // satisfies the compiled trait.
    fn apply_spec(&self, _doc: Option<(char, usize)>) -> Option<(char, usize)> {
        unreachable!()
    }

    fn apply(&self, doc: Option<(char, usize)>) -> Option<(char, usize)> {
        match self {
            PU::Fill(c, n) => Some((*c, *n)),
            PU::Add(k) => doc.map(|(c, n)| (c, n + k)),
        }
    }

    fn dup(&self) -> Self {
        self.clone()
    }
}

fn check_graph<U: PartialEq + std::fmt::Debug>(
    graph: &Graph<Act<U>>,
    nodes: &[(&str, Act<U>, &[&str])],
) {
    let mut mapping: HashMap<String, usize> = HashMap::new();

    assert_eq!(
        graph.len(),
        nodes.len(),
        "graph expected to have {} nodes but has {}",
        nodes.len(),
        graph.len()
    );

    for (key, value, deps) in nodes {
        let mut opt_node: Option<usize> = None;
        let mut id = 1;
        while id <= graph.len() {
            if graph.value(id) == value {
                opt_node = Some(id);
                break;
            }
            id += 1;
        }
        assert!(opt_node.is_some(), "no node matching {:?}", value);

        let node = opt_node.unwrap();
        mapping.insert(key.to_string(), node);

        let dep_ids: HashSet<usize> = deps.iter().map(|name| *mapping.get(*name).unwrap()).collect();
        let actual_ids: HashSet<usize> = graph.deps(node).iter().cloned().collect();

        assert_eq!(actual_ids.len(), graph.deps(node).len());

        assert_eq!(
            actual_ids, dep_ids,
            "dependencies for {:?} do not match node {}",
            value, node
        );
    }

    assert_eq!(mapping.len(), nodes.len());
}

#[test]
fn returns_the_ids_of_registered_clients() {
    let mut planner: Planner<VU> = Planner::new(Config::new());

    let alice = planner.client("alice");
    alice.update(&mut planner, "/x", VU::Fill(vec!['x']));
    let bob = planner.client("bob");
    bob.remove(&mut planner, "/y");

    let clients: Vec<String> = planner.clients();
    assert_eq!(clients, ["alice", "bob"]);
}

#[test]
fn produces_instructions_to_create_a_document() {
    let mut planner: Planner<VU> = Planner::new(Config::new());
    let a = planner.client("A");
    a.update(&mut planner, "/path/x.json", VU::Fill(vec!['a']));

    let mut store: DbStore<Vec<char>> = DbStore::new(Config::new());
    let mut actor: Actor<Vec<char>> = Actor::new(Config::new());

    for act_id in &planner.orderings()[0] {
        actor.dispatch(&mut store, planner.act(*act_id));
    }

    assert_eq!(store.read("/"), Some((1, Some(Db::dir_from(&["path/"])))));
    assert_eq!(
        store.read("/path/"),
        Some((1, Some(Db::dir_from(&["x.json"]))))
    );
    assert_eq!(
        store.read("/path/x.json"),
        Some((1, Some(Db::Doc(vec!['a']))))
    );
}

#[test]
fn produces_instructions_to_update_a_document() {
    let mut planner: Planner<PU> = Planner::new(Config::new());
    let a = planner.client("A");
    a.update(&mut planner, "/path/x.json", PU::Fill('a', 50));
    let b = planner.client("B");
    b.update(&mut planner, "/path/x.json", PU::Add(3));

    let mut store: DbStore<(char, usize)> = DbStore::new(Config::new());
    let mut actor: Actor<(char, usize)> = Actor::new(Config::new());

    for act_id in &planner.orderings()[0] {
        actor.dispatch(&mut store, planner.act(*act_id));
    }

    assert_eq!(store.read("/"), Some((2, Some(Db::dir_from(&["path/"])))));
    assert_eq!(
        store.read("/path/"),
        Some((2, Some(Db::dir_from(&["x.json"]))))
    );
    assert_eq!(
        store.read("/path/x.json"),
        Some((2, Some(Db::Doc(('a', 53)))))
    );
}

#[test]
fn produces_instructions_to_remove_a_document() {
    let mut planner: Planner<PU> = Planner::new(Config::new());
    let a = planner.client("A");
    a.update(&mut planner, "/path/x.json", PU::Fill('a', 50));
    let b = planner.client("B");
    b.remove(&mut planner, "/path/x.json");

    let mut store: DbStore<(char, usize)> = DbStore::new(Config::new());
    let mut actor: Actor<(char, usize)> = Actor::new(Config::new());

    for act_id in &planner.orderings()[0] {
        actor.dispatch(&mut store, planner.act(*act_id));
    }

    assert_eq!(store.read("/"), Some((2, Some(Db::dir_from(&[])))));
    assert_eq!(store.read("/path/"), Some((2, Some(Db::dir_from(&[])))));
    assert_eq!(store.read("/path/x.json"), Some((2, None)));
}

#[test]
fn plans_a_top_level_document_update() {
    let mut planner: Planner<VU> = Planner::new(Config::new());

    let a = planner.client("A");
    a.update(&mut planner, "/x.json", VU::Id);

    check_graph(
        &planner.graph,
        &[
            ("get", Act::new("A", Path::new("/x.json"), Op::Get), &[]),
            ("list", Act::new("A", Path::new("/"), Op::List), &[]),
            (
                "link",
                Act::new("A", Path::new("/"), Op::Link("x.json".into())),
                &["get", "list"],
            ),
            (
                "put",
                Act::new("A", Path::new("/x.json"), Op::Put(VU::Id)),
                &["link"],
            ),
        ],
    );
}

#[test]
fn plans_an_update_in_a_top_level_directory() {
    let mut planner: Planner<VU> = Planner::new(Config::new());

    let a = planner.client("A");
    a.update(&mut planner, "/path/x.json", VU::Id);

    check_graph(
        &planner.graph,
        &[
            ("get", Act::new("A", Path::new("/path/x.json"), Op::Get), &[]),
            ("list1", Act::new("A", Path::new("/"), Op::List), &[]),
            ("list2", Act::new("A", Path::new("/path/"), Op::List), &[]),
            (
                "link1",
                Act::new("A", Path::new("/"), Op::Link("path/".into())),
                &["get", "list1", "list2"],
            ),
            (
                "link2",
                Act::new("A", Path::new("/path/"), Op::Link("x.json".into())),
                &["get", "list1", "list2"],
            ),
            (
                "put",
                Act::new("A", Path::new("/path/x.json"), Op::Put(VU::Id)),
                &["link1", "link2"],
            ),
        ],
    );
}

#[test]
fn plans_an_update_in_a_nested_directory() {
    let mut planner: Planner<VU> = Planner::new(Config::new());

    let a = planner.client("A");
    a.update(&mut planner, "/path/to/x.json", VU::Id);

    check_graph(
        &planner.graph,
        &[
            (
                "get",
                Act::new("A", Path::new("/path/to/x.json"), Op::Get),
                &[],
            ),
            ("list1", Act::new("A", Path::new("/"), Op::List), &[]),
            ("list2", Act::new("A", Path::new("/path/"), Op::List), &[]),
            ("list3", Act::new("A", Path::new("/path/to/"), Op::List), &[]),
            (
                "link1",
                Act::new("A", Path::new("/"), Op::Link("path/".into())),
                &["get", "list1", "list2", "list3"],
            ),
            (
                "link2",
                Act::new("A", Path::new("/path/"), Op::Link("to/".into())),
                &["get", "list1", "list2", "list3"],
            ),
            (
                "link3",
                Act::new("A", Path::new("/path/to/"), Op::Link("x.json".into())),
                &["get", "list1", "list2", "list3"],
            ),
            (
                "put",
                Act::new("A", Path::new("/path/to/x.json"), Op::Put(VU::Id)),
                &["link1", "link2", "link3"],
            ),
        ],
    );
}

#[test]
fn plans_an_update_in_a_top_level_directory_with_get_before_put() {
    let mut planner: Planner<VU> = Planner::new(Config::new().update(Update::GetBeforePut));

    let a = planner.client("A");
    a.update(&mut planner, "/path/x.json", VU::Id);

    check_graph(
        &planner.graph,
        &[
            ("get", Act::new("A", Path::new("/path/x.json"), Op::Get), &[]),
            ("list1", Act::new("A", Path::new("/"), Op::List), &[]),
            ("list2", Act::new("A", Path::new("/path/"), Op::List), &[]),
            (
                "link1",
                Act::new("A", Path::new("/"), Op::Link("path/".into())),
                &["list1"],
            ),
            (
                "link2",
                Act::new("A", Path::new("/path/"), Op::Link("x.json".into())),
                &["list2"],
            ),
            (
                "put",
                Act::new("A", Path::new("/path/x.json"), Op::Put(VU::Id)),
                &["get", "link1", "link2"],
            ),
        ],
    );
}

#[test]
fn plans_a_top_level_document_deletion() {
    let mut planner: Planner<VU> = Planner::new(Config::new());

    let a = planner.client("A");
    a.remove(&mut planner, "/y.json");

    check_graph(
        &planner.graph,
        &[
            ("get", Act::new("A", Path::new("/y.json"), Op::Get), &[]),
            ("list", Act::new("A", Path::new("/"), Op::List), &[]),
            (
                "rm",
                Act::new("A", Path::new("/y.json"), Op::Rm),
                &["get", "list"],
            ),
            (
                "unlink",
                Act::new("A", Path::new("/"), Op::Unlink("y.json".into())),
                &["rm"],
            ),
        ],
    );
}

#[test]
fn plans_a_deletion_in_a_nested_directory() {
    let mut planner: Planner<VU> = Planner::new(Config::new());

    let a = planner.client("A");
    a.remove(&mut planner, "/path/to/y.json");

    check_graph(
        &planner.graph,
        &[
            (
                "get",
                Act::new("A", Path::new("/path/to/y.json"), Op::Get),
                &[],
            ),
            ("list1", Act::new("A", Path::new("/"), Op::List), &[]),
            ("list2", Act::new("A", Path::new("/path/"), Op::List), &[]),
            ("list3", Act::new("A", Path::new("/path/to/"), Op::List), &[]),
            (
                "rm",
                Act::new("A", Path::new("/path/to/y.json"), Op::Rm),
                &["get", "list1", "list2", "list3"],
            ),
            (
                "unlink1",
                Act::new("A", Path::new("/path/to/"), Op::Unlink("y.json".into())),
                &["rm"],
            ),
            (
                "unlink2",
                Act::new("A", Path::new("/path/"), Op::Unlink("to/".into())),
                &["unlink1"],
            ),
            (
                "unlink3",
                Act::new("A", Path::new("/"), Op::Unlink("path/".into())),
                &["unlink2"],
            ),
        ],
    );
}

#[test]
fn plans_a_deletion_in_a_nested_directory_with_unlink_parallel() {
    let mut planner: Planner<VU> = Planner::new(Config::new().remove(Remove::UnlinkParallel));

    let a = planner.client("A");
    a.remove(&mut planner, "/path/to/y.json");

    check_graph(
        &planner.graph,
        &[
            (
                "get",
                Act::new("A", Path::new("/path/to/y.json"), Op::Get),
                &[],
            ),
            ("list1", Act::new("A", Path::new("/"), Op::List), &[]),
            ("list2", Act::new("A", Path::new("/path/"), Op::List), &[]),
            ("list3", Act::new("A", Path::new("/path/to/"), Op::List), &[]),
            (
                "rm",
                Act::new("A", Path::new("/path/to/y.json"), Op::Rm),
                &["get", "list1", "list2", "list3"],
            ),
            (
                "unlink1",
                Act::new("A", Path::new("/path/to/"), Op::Unlink("y.json".into())),
                &["rm"],
            ),
            (
                "unlink2",
                Act::new("A", Path::new("/path/"), Op::Unlink("to/".into())),
                &["rm"],
            ),
            (
                "unlink3",
                Act::new("A", Path::new("/"), Op::Unlink("path/".into())),
                &["rm"],
            ),
        ],
    );
}
