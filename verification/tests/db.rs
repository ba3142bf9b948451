use mc2::config::Config;
use mc2::db::{Checker, Db, DbStore};

fn make_store() -> DbStore<char> {
    let mut store: DbStore<char> = DbStore::new(Config::new());

    store.write("/", None, Db::dir_from(&["path/"]));
    store.write("/path/", None, Db::dir_from(&["to/"]));
    store.write("/path/to/", None, Db::dir_from(&["x.json"]));
    store.write("/path/to/x.json", None, Db::Doc('a'));

    store
}

#[test]
fn checks_a_valid_store() {
    let store = make_store();
    let mut checker = Checker::new();

    assert_eq!(checker.check(&store), Ok(()));
}

#[test]
fn complains_if_a_doc_is_not_linked() {
    let mut store = make_store();
    store.write("/path/to/", Some(1), Db::dir_from(&[]));

    let mut checker = Checker::new();

    assert_eq!(
        checker.check(&store),
        Err(vec![String::from(
            "dir '/path/to/' does not include name 'x.json', required by doc '/path/to/x.json'"
        )])
    );
}

#[test]
fn complains_if_a_parent_dir_is_deleted() {
    let mut store = make_store();
    store.remove("/path/to/", Some(1));

    let mut checker = Checker::new();

    assert_eq!(
        checker.check(&store),
        Err(vec![String::from(
            "dir '/path/to/', required by doc '/path/to/x.json', is missing"
        )])
    );
}

#[test]
fn complains_if_parent_dir_is_missing() {
    let mut store = make_store();
    store.write("/", Some(1), Db::dir_from(&["other/", "path/"]));
    store.write("/other/y.json", None, Db::Doc('b'));

    let mut checker = Checker::new();

    assert_eq!(
        checker.check(&store),
        Err(vec![String::from(
            "dir '/other/', required by doc '/other/y.json', is missing"
        )])
    );
}

#[test]
fn complains_if_a_parent_dir_is_not_linked() {
    let mut store = make_store();
    store.write("/path/", Some(1), Db::dir_from(&[]));

    let mut checker = Checker::new();

    assert_eq!(
        checker.check(&store),
        Err(vec![String::from(
            "dir '/path/' does not include name 'to/', required by doc '/path/to/x.json'"
        )])
    );
}

#[test]
fn complains_if_a_grandparent_dir_is_not_linked() {
    let mut store = make_store();
    store.write("/", Some(1), Db::dir_from(&[]));

    let mut checker = Checker::new();

    assert_eq!(
        checker.check(&store),
        Err(vec![String::from(
            "dir '/' does not include name 'path/', required by doc '/path/to/x.json'"
        )])
    );
}

#[test]
fn does_not_complain_if_an_ancestor_of_a_deleted_doc_is_unlinked() {
    let mut store = make_store();
    store.write("/", Some(1), Db::dir_from(&[]));
    store.remove("/path/to/x.json", Some(1));

    let mut checker = Checker::new();

    assert_eq!(checker.check(&store), Ok(()));
}
