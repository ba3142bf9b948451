use mc2::path::Path;

fn link_refs(path: &Path) -> Vec<(String, String)> {
    path.links().clone()
}

#[test]
fn derefs_to_str() {
    let path = Path::new("/foo");
    assert_eq!(path.full(), "/foo");
}

#[test]
fn is_valid_if_it_begins_with_a_slash() {
    let path = Path::new("/foo");
    assert!(path.is_valid());
}

#[test]
fn is_not_valid_if_it_does_not_begin_with_a_slash() {
    let path = Path::new("foo");
    assert!(!path.is_valid());
}

#[test]
fn is_a_dir_if_it_ends_with_a_slash() {
    let path = Path::new("/foo/");
    assert!(path.is_dir());
}

#[test]
fn is_not_a_dir_if_it_does_not_end_with_a_slash() {
    let path = Path::new("/foo");
    assert!(!path.is_dir());
}

#[test]
fn is_a_doc_if_it_does_not_end_with_a_slash() {
    let path = Path::new("/foo");
    assert!(path.is_doc());
}

#[test]
fn is_not_a_doc_if_it_ends_with_a_slash() {
    let path = Path::new("/foo/");
    assert!(!path.is_doc());
}

#[test]
fn returns_the_full_path_for_a_document() {
    let path = Path::new("/path/to/x.json");
    assert_eq!(path.full(), "/path/to/x.json");
}

#[test]
fn returns_the_full_path_for_a_directory() {
    let path = Path::new("/path/to/");
    assert_eq!(path.full(), "/path/to/");
}

#[test]
fn returns_the_parent_directories_for_a_document() {
    let path = Path::new("/path/to/x.json");
    let dirs: Vec<String> = path.dirs();

    assert_eq!(dirs, ["/", "/path/", "/path/to/"]);
}

#[test]
fn returns_the_parent_directories_for_a_directory() {
    let path = Path::new("/path/to/");
    let dirs: Vec<String> = path.dirs();

    assert_eq!(dirs, ["/", "/path/"]);
}

#[test]
fn returns_the_required_links_for_a_document() {
    let path = Path::new("/path/to/x.json");
    let links = link_refs(&path);
    let pairs: Vec<(&str, &str)> = links.iter().map(|p| (p.0.as_str(), p.1.as_str())).collect();

    assert_eq!(
        pairs,
        [("/", "path/"), ("/path/", "to/"), ("/path/to/", "x.json")]
    );
}

#[test]
fn returns_the_required_links_for_a_directory() {
    let path = Path::new("/path/to/");
    let links = link_refs(&path);
    let pairs: Vec<(&str, &str)> = links.iter().map(|p| (p.0.as_str(), p.1.as_str())).collect();

    assert_eq!(pairs, [("/", "path/"), ("/path/", "to/")]);
}
