use mc2::actor::Actor;
use mc2::config::{Cas, Config, Update};
use mc2::db::{Checker, Db, DbStore};
use mc2::graph::Graph;
use mc2::planner::{DocUpdate, DropDoc, KeepDoc, Planner, SetDoc};
use mc2::runner::{check_scenario, format_number, PlanStep, Runner, Scenario, TestResult};
use mc2::store::Store;

#[derive(Debug, PartialEq, Clone)]
enum CU {
    Fill(char),
}

impl DocUpdate<char> for CU {
    // The trait's ghost method, erased from any execution: a stub
    // satisfies the compiled trait.
    fn apply_spec(&self, _doc: Option<char>) -> Option<char> {
        unreachable!()
    }

    fn apply(&self, _doc: Option<char>) -> Option<char> {
        match self {
            CU::Fill(c) => Some(*c),
        }
    }

    fn dup(&self) -> Self {
        self.clone()
    }
}

#[test]
fn enumerates_exactly_one_empty_ordering_for_an_empty_graph() {
    let graph: Graph<char> = Graph::new();
    let orderings = graph.orderings();

    assert_eq!(orderings, vec![Vec::<usize>::new()]);
}

#[test]
fn conflicting_updates_keep_the_store_consistent_and_one_update_wins() {
    let mut planner: Planner<CU> = Planner::new(Config::new());
    let a = planner.client("A");
    a.update(&mut planner, "/x", CU::Fill('a'));
    let b = planner.client("B");
    b.update(&mut planner, "/x", CU::Fill('b'));

    let mut baseline: DbStore<char> = DbStore::new(Config::new());
    baseline.write("/", None, Db::dir_from(&["x"]));
    baseline.write("/x", None, Db::Doc('i'));

    let orderings = planner.orderings();
    assert_eq!(orderings.len(), 280);

    let mut conflicts = 0;
    for ordering in &orderings {
        let mut store = baseline.dup();
        let mut actor_a: Actor<char> = Actor::new(Config::new());
        let mut actor_b: Actor<char> = Actor::new(Config::new());
        let mut checker = Checker::new();

        for id in ordering {
            let act = planner.act(*id);
            if act.client_id == "A" {
                actor_a.dispatch(&mut store, act);
            } else {
                actor_b.dispatch(&mut store, act);
            }
            assert_eq!(checker.check(&store), Ok(()));
        }

        // One of the two updates persists.  When the loser read a stale
        // revision, its put hit a CAS conflict and latched its actor,
        // leaving the document at revision 2; when the loser read only
        // after the winner committed, its own put found the fresh
        // revision and overwrote at revision 3.
        let rec = store.read("/x").unwrap();
        let doc = rec.1.unwrap();
        assert!(doc == Db::Doc('a') || doc == Db::Doc('b'));
        if rec.0 == 2 {
            assert!(actor_a.crashed != actor_b.crashed);
            conflicts += 1;
        } else {
            assert_eq!(rec.0, 3);
            assert!(!actor_a.crashed && !actor_b.crashed);
        }
    }
    assert!(conflicts > 0);
}

#[test]
fn conflicting_updates_pass_when_run_as_a_scenario() {
    let scenario: Scenario<CU> = Scenario {
        name: String::from("update/update conflict"),
        init: vec![],
        plan: vec![
            PlanStep::Update {
                client: String::from("A"),
                key: String::from("/x"),
                update: CU::Fill('a'),
            },
            PlanStep::Update {
                client: String::from("B"),
                key: String::from("/x"),
                update: CU::Fill('b'),
            },
        ],
    };

    let result: TestResult<char> = check_scenario(Config::new(), &scenario);
    assert!(result.is_pass());
    assert_eq!(result.count(), 280);
}

#[test]
fn removes_and_unlinks_empty_ancestors_through_the_planner() {
    let mut planner: Planner<CU> = Planner::new(Config::new());
    let a = planner.client("A");
    a.remove(&mut planner, "/path/to/y.json");

    let mut store: DbStore<char> = DbStore::new(Config::new());
    store.write("/", None, Db::dir_from(&["path/"]));
    store.write("/path/", None, Db::dir_from(&["to/", "x.json"]));
    store.write("/path/to/", None, Db::dir_from(&["y.json"]));
    store.write("/path/x.json", None, Db::Doc('a'));
    store.write("/path/to/y.json", None, Db::Doc('b'));

    let mut actor: Actor<char> = Actor::new(Config::new());
    for id in &planner.orderings()[0] {
        actor.dispatch(&mut store, planner.act(*id));
    }

    assert_eq!(store.read("/path/to/y.json"), Some((2, None)));
    assert_eq!(store.read("/path/to/"), Some((2, Some(Db::dir_from(&[])))));
    assert_eq!(
        store.read("/path/"),
        Some((2, Some(Db::dir_from(&["x.json"]))))
    );
    assert_eq!(store.read("/"), Some((1, Some(Db::dir_from(&["path/"])))));
}

#[test]
fn records_a_touched_key_after_a_failed_first_write() {
    let mut store: Store<char> = Store::new(Config::new());

    assert_eq!(store.write("x", Some(5), 'a'), None);
    assert_eq!(store.seq, 0);
    assert_eq!(store.keys(), ["x"]);
    assert_eq!(store.read("x"), Some((0, None)));
}

#[test]
fn formats_numbers_with_comma_groups() {
    assert_eq!(format_number(0), "0");
    assert_eq!(format_number(150), "150");
    assert_eq!(format_number(1000), "1,000");
    assert_eq!(format_number(1234567), "1,234,567");
    assert_eq!(format_number(1000000), "1,000,000");
}

#[test]
fn the_root_key_needs_no_links() {
    let root = mc2::path::Path::new("/");
    assert!(root.is_valid());
    assert!(root.is_dir());
    assert_eq!(root.dirs(), Vec::<String>::new());
    assert_eq!(root.links().len(), 0);
}

#[test]
fn directories_ignore_duplicate_names() {
    let a: Db<char> = Db::dir_from(&["b", "a", "b"]);
    let b: Db<char> = Db::dir_from(&["a", "b"]);
    assert_eq!(a, b);
}

#[test]
fn an_update_planned_get_before_put_reaches_the_same_state() {
    let config = Config::new().update(Update::GetBeforePut);
    let mut planner: Planner<CU> = Planner::new(config);
    let a = planner.client("A");
    a.update(&mut planner, "/path/x", CU::Fill('a'));

    let mut store: DbStore<char> = DbStore::new(config);
    let mut actor: Actor<char> = Actor::new(config);
    for id in &planner.orderings()[0] {
        actor.dispatch(&mut store, planner.act(*id));
    }

    assert_eq!(store.read("/"), Some((1, Some(Db::dir_from(&["path/"])))));
    assert_eq!(store.read("/path/"), Some((1, Some(Db::dir_from(&["x"])))));
    assert_eq!(store.read("/path/x"), Some((1, Some(Db::Doc('a')))));
}

#[test]
fn update_delete_conflicts_are_caught_under_lax_deletes() {
    let scenario: Scenario<CU> = Scenario {
        name: String::from("update/delete conflict"),
        init: vec![PlanStep::Update {
            client: String::from("tmp"),
            key: String::from("/x"),
            update: CU::Fill('i'),
        }],
        plan: vec![
            PlanStep::Update {
                client: String::from("A"),
                key: String::from("/x"),
                update: CU::Fill('a'),
            },
            PlanStep::Remove {
                client: String::from("B"),
                key: String::from("/x"),
            },
        ],
    };

    let strict: TestResult<char> = check_scenario(Config::new(), &scenario);
    assert!(strict.is_pass());

    // Lax deletes let a stale put resurrect a removed document while its
    // ancestors are being unlinked: some interleaving breaks the
    // link-reachability invariant, and the checker reports it.
    let lax: TestResult<char> = check_scenario(Config::new().store(Cas::LaxDelete), &scenario);
    assert!(!lax.is_pass());
    if let TestResult::Fail { errors, .. } = lax {
        assert!(!errors.is_empty());
    }
}

#[test]
fn a_runner_reports_each_scenario_under_each_configuration() {
    let mut runner: Runner<CU> = Runner::new();
    runner.configs(&vec![Config::new()]);
    runner.add(
        "single update",
        vec![],
        vec![PlanStep::Update {
            client: String::from("A"),
            key: String::from("/x"),
            update: CU::Fill('a'),
        }],
    );

    let report = runner.run_all::<char>();
    assert_eq!(report.len(), 1);
    assert_eq!(report[0].0, Config::new());
    assert_eq!(report[0].1, vec![(String::from("single update"), true, 2)]);
}

#[test]
fn stock_updates_set_keep_and_drop_documents() {
    let mut store: DbStore<char> = DbStore::new(Config::new());
    let mut actor: Actor<char> = Actor::new(Config::new());

    actor.put(&mut store, "/x", &SetDoc::new('a'));
    assert_eq!(store.read("/x"), Some((1, Some(Db::Doc('a')))));

    actor.put(&mut store, "/x", &KeepDoc);
    assert_eq!(store.read("/x"), Some((2, Some(Db::Doc('a')))));

    actor.put(&mut store, "/x", &DropDoc);
    assert_eq!(store.read("/x"), Some((2, Some(Db::Doc('a')))));
}
