use remedy::deck::DeckRoot;
use remedy::workspace;
use remedy::workspace::{AsComponents, IntoComponents, WorkspaceRoot};

#[test]
fn loc() {
    let parts = vec![
        "a".into_components(),
        vec![String::from("b"), String::from("c")].into_components(),
    ];
    assert_eq!(
        workspace::loc(parts).as_components(),
        &[String::from("a"), String::from("b"), String::from("c")]
    );
}

#[test]
fn loc_root() {
    // a root "temp" under the workspace root, and a location under it
    let temp_root = workspace::loc_root::<WorkspaceRoot>(vec!["temp".into_components()]);
    assert_eq!(
        workspace::loc(vec![temp_root, "a".into_components(), "b".into_components()]).as_components(),
        &[String::from("temp"), String::from("a"), String::from("b")]
    );
}

use remedy::file::stem;
use remedy::workspace::fs::{path_components, LocalWorkspace};
use remedy::workspace::{parent, relative_to, RemedyRoot};

fn strings(v: &[&str]) -> Vec<String> {
    v.iter().map(|s| s.to_string()).collect()
}

#[test]
fn loc_root_under_remedy_root() {
    assert_eq!(
        workspace::loc_root::<RemedyRoot>(vec!["decks".into_components(), "x".into_components()]),
        strings(&[".rem", "decks", "x"])
    );
    assert_eq!(workspace::loc_root::<WorkspaceRoot>(vec![().into_components()]), Vec::<String>::new());
}

#[test]
fn parent_and_relative_locations() {
    let l = strings(&["a", "b", "c"]);
    assert_eq!(parent(&l), strings(&["a", "b"]));
    assert_eq!(relative_to(&l, 1), strings(&["b", "c"]));
    assert_eq!(relative_to(&l, 3), Vec::<String>::new());
}

#[test]
fn path_components_keep_only_names() {
    assert_eq!(path_components("/a/./b//c/../d/"), strings(&["a", "b", "c", "d"]));
    assert_eq!(path_components("x"), strings(&["x"]));
    assert_eq!(path_components(""), Vec::<String>::new());
    assert_eq!(path_components("/"), Vec::<String>::new());
}

#[test]
fn stems_of_file_names() {
    assert_eq!(stem("a/b/file.tar.gz"), "file.tar");
    assert_eq!(stem(".bashrc"), ".bashrc");
    assert_eq!(stem("dir/notes"), "notes");
    assert_eq!(stem("notes."), "notes");
    assert_eq!(stem("a/b.c/"), "b");
    assert_eq!(stem("a/b/."), "b");
}

#[test]
fn absolute_paths_in_the_workspace() {
    let w = LocalWorkspace::new("/home/u/w".to_string());
    assert_eq!(w.absolute(&strings(&["a", "b"])), "/home/u/w/a/b");
    assert_eq!(w.absolute(&Vec::new()), "/home/u/w");
    let w = LocalWorkspace::new("/home/u/w/".to_string());
    assert_eq!(w.absolute(&strings(&["a"])), "/home/u/w/a");
    let w = LocalWorkspace::new(String::new());
    assert_eq!(w.absolute(&strings(&["a", "b"])), "a/b");
    let w = LocalWorkspace::new("/w".to_string());
    assert_eq!(w.absolute(&strings(&["a", "/x", "y"])), "/x/y");
}

#[test]
fn relative_locations_of_paths() {
    let w = LocalWorkspace::new("/home/u/w".to_string());
    assert_eq!(w.root(), "/home/u/w");
    assert_eq!(w.relative("/home/u/w/decks/x"), strings(&["decks", "x"]));
    assert_eq!(w.try_relative("/home/u/w/decks/x"), Some(strings(&["decks", "x"])));
    assert_eq!(w.try_relative("/home/u/other"), Some(strings(&["other"])));
    assert_eq!(w.try_relative("relative/path"), None);
    assert_eq!(w.components("./a/b"), strings(&["a", "b"]));
}

#[test]
fn decks_are_kept_under_the_program_directory() {
    assert_eq!(
        workspace::loc_root::<DeckRoot>(vec!["x".into_components()]),
        strings(&[".rem", "decks", "x"])
    );
}

#[test]
fn a_location_comes_back_from_its_path() {
    let w = LocalWorkspace::new("/home/u/w".to_string());
    let loc = strings(&["decks", "x.rem"]);
    assert_eq!(w.try_relative(&w.absolute(&loc)), Some(loc.clone()));
    let w = LocalWorkspace::new("/".to_string());
    assert_eq!(w.try_relative(&w.absolute(&loc)), Some(loc));
}
