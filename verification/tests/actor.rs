use mc2::actor::Actor;
use mc2::config::Config;
use mc2::db::{Db, DbStore};
use mc2::path::Path;
use mc2::planner::DocUpdate;

#[derive(Debug, PartialEq, Clone)]
enum VUpd {
    Reverse,
    PushZ,
    Fill(Vec<char>),
}

impl DocUpdate<Vec<char>> for VUpd {
    // The trait's ghost method, erased from any execution: a stub
    // satisfies the compiled trait.
    fn apply_spec(
        &self,
        _doc: Option<vstd::seq::Seq<char>>,
    ) -> Option<vstd::seq::Seq<char>> {
        unreachable!()
    }

    fn apply(&self, doc: Option<Vec<char>>) -> Option<Vec<char>> {
        match self {
            VUpd::Reverse => Some(doc?.iter().rev().cloned().collect()),
            VUpd::PushZ => doc.map(|mut d| {
                d.push('z');
                d
            }),
            VUpd::Fill(v) => Some(v.clone()),
        }
    }

    fn dup(&self) -> Self {
        self.clone()
    }
}

fn x_path() -> Path {
    Path::new("/path/x.json")
}

fn make_store() -> DbStore<Vec<char>> {
    let mut store: DbStore<Vec<char>> = DbStore::new(Config::new());

    store.write("/", None, Db::dir_from(&["path/"]));
    store.write("/path/", None, Db::dir_from(&["to/", "x.json"]));
    store.write("/path/to/", None, Db::dir_from(&["y.json"]));

    store.write("/path/x.json", None, Db::Doc(vec!['a', 'b']));
    store.write("/path/to/y.json", None, Db::Doc(vec!['c', 'd', 'e']));

    store
}

#[test]
fn gets_an_existing_document() {
    let store = make_store();
    let mut actor: Actor<Vec<char>> = Actor::new(Config::new());

    let doc = actor.get(&store, "/path/x.json");
    assert_eq!(doc, Some(vec!['a', 'b']));
}

#[test]
fn returns_none_for_a_missing_document() {
    let store = make_store();
    let mut actor: Actor<Vec<char>> = Actor::new(Config::new());

    let doc = actor.get(&store, "/y.json");
    assert_eq!(doc, None);
}

#[test]
fn updates_a_document() {
    let mut store = make_store();
    let mut actor: Actor<Vec<char>> = Actor::new(Config::new());

    actor.get(&store, "/path/x.json");
    actor.put(&mut store, "/path/x.json", &VUpd::Reverse);

    let rec = store.read("/path/x.json");
    assert_eq!(rec, Some((2, Some(Db::Doc(vec!['b', 'a'])))));

    let doc = actor.get(&store, "/path/x.json");
    assert_eq!(doc, Some(vec!['b', 'a']));
}

#[test]
fn updates_a_document_multiple_times() {
    let mut store = make_store();
    let mut actor: Actor<Vec<char>> = Actor::new(Config::new());

    actor.get(&store, "/path/x.json");
    actor.put(&mut store, "/path/x.json", &VUpd::Reverse);
    actor.put(&mut store, "/path/x.json", &VUpd::PushZ);

    let rec = store.read("/path/x.json");
    assert_eq!(rec, Some((3, Some(Db::Doc(vec!['b', 'a', 'z'])))));

    let doc = actor.get(&store, "/path/x.json");
    assert_eq!(doc, Some(vec!['b', 'a', 'z']));
}

#[test]
fn fails_to_write_a_conflicting_update() {
    let mut store = make_store();
    let mut actor: Actor<Vec<char>> = Actor::new(Config::new());

    actor.get(&store, "/path/x.json");

    store.write("/path/x.json", Some(1), Db::Doc(vec!['z']));

    actor.put(&mut store, "/path/x.json", &VUpd::Fill(vec!['p', 'q']));

    let rec = store.read("/path/x.json");
    assert_eq!(rec, Some((2, Some(Db::Doc(vec!['z'])))));
}

#[test]
fn does_not_perform_more_actions_after_a_failed_write() {
    let mut store = make_store();
    let mut actor: Actor<Vec<char>> = Actor::new(Config::new());

    actor.get(&store, "/path/x.json");

    store.write("/path/x.json", Some(1), Db::Doc(vec!['z']));

    actor.put(&mut store, "/path/x.json", &VUpd::Fill(vec!['p', 'q']));

    assert_eq!(actor.get(&store, "/path/x.json"), None);
    actor.put(&mut store, "/path/x.json", &VUpd::Fill(vec!['x', 'y']));

    let rec = store.read("/path/x.json");
    assert_eq!(rec, Some((2, Some(Db::Doc(vec!['z'])))));
}

#[test]
fn creates_links() {
    let mut store = make_store();
    let mut actor: Actor<Vec<char>> = Actor::new(Config::new());

    actor.link(&mut store, "/path/", "a.txt");
    actor.link(&mut store, "/path/", "z.txt");

    let rec = store.read("/path/");
    assert_eq!(
        rec,
        Some((3, Some(Db::dir_from(&["a.txt", "to/", "x.json", "z.txt"]))))
    );
}

#[test]
fn creates_links_that_already_exist() {
    let mut store = make_store();
    let mut actor: Actor<Vec<char>> = Actor::new(Config::new());

    actor.link(&mut store, "/path/", "x.json");

    let rec = store.read("/path/");
    assert_eq!(rec, Some((2, Some(Db::dir_from(&["to/", "x.json"])))));
}

#[test]
fn can_skip_creating_links_that_already_exist() {
    let mut store = make_store();
    let mut skipper: Actor<Vec<char>> = Actor::new(Config::new().skip_links(true));

    skipper.link(&mut store, "/path/", "x.json");

    let rec = store.read("/path/");
    assert_eq!(rec, Some((1, Some(Db::dir_from(&["to/", "x.json"])))));
}

#[test]
fn does_not_skip_creating_links_that_do_not_exist() {
    let mut store = make_store();
    let mut skipper: Actor<Vec<char>> = Actor::new(Config::new().skip_links(true));

    skipper.link(&mut store, "/path/", "a.json");

    let rec = store.read("/path/");
    assert_eq!(
        rec,
        Some((2, Some(Db::dir_from(&["a.json", "to/", "x.json"]))))
    );
}

#[test]
fn removes_a_document() {
    let mut store = make_store();
    let mut actor: Actor<Vec<char>> = Actor::new(Config::new());

    actor.rm(&mut store, &x_path());

    let rec = store.read("/path/x.json");
    assert_eq!(rec, Some((2, None)));
}

#[test]
fn allows_empty_parent_directories_to_be_removed() {
    let mut store = make_store();
    let mut actor: Actor<Vec<char>> = Actor::new(Config::new());

    actor.rm(&mut store, &Path::new("/path/to/y.json"));
    actor.unlink(&mut store, "/path/to/", "y.json");
    actor.unlink(&mut store, "/path/", "to/");
    actor.unlink(&mut store, "/", "path/");

    assert_eq!(store.read("/"), Some((1, Some(Db::dir_from(&["path/"])))));
    assert_eq!(
        store.read("/path/"),
        Some((2, Some(Db::dir_from(&["x.json"]))))
    );
    assert_eq!(store.read("/path/to/"), Some((2, Some(Db::dir_from(&[])))));
    assert_eq!(store.read("/path/to/y.json"), Some((2, None)));
}

#[test]
fn prevents_non_empty_parent_directories_being_removed() {
    let mut store = make_store();
    let mut actor: Actor<Vec<char>> = Actor::new(Config::new());

    actor.rm(&mut store, &Path::new("/path/x.json"));
    actor.unlink(&mut store, "/path/", "x.json");
    actor.unlink(&mut store, "/", "path/");

    assert_eq!(store.read("/"), Some((1, Some(Db::dir_from(&["path/"])))));
    assert_eq!(store.read("/path/"), Some((2, Some(Db::dir_from(&["to/"])))));
    assert_eq!(store.read("/path/x.json"), Some((2, None)));
}

#[test]
fn does_not_decide_to_remove_directories_by_default() {
    let mut store = make_store();
    let mut actor: Actor<Vec<char>> = Actor::new(Config::new());

    actor.unlink(&mut store, "/path/to/", "y.json");
    actor.unlink(&mut store, "/path/", "to/");
    actor.unlink(&mut store, "/", "path/");

    assert_eq!(store.read("/"), Some((1, Some(Db::dir_from(&["path/"])))));
    assert_eq!(
        store.read("/path/"),
        Some((1, Some(Db::dir_from(&["to/", "x.json"]))))
    );
    assert_eq!(
        store.read("/path/to/"),
        Some((1, Some(Db::dir_from(&["y.json"]))))
    );
}
