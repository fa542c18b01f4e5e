use nwtzui::entry::{Directory, File, FsEntry};
use nwtzui::glob1env::{init_system, ExecutionState, FsError, Glob1Env, Missing};
use nwtzui::path::split_components;

fn names(entries: &[FsEntry]) -> Vec<String> {
    entries
        .iter()
        .map(|e| match e {
            FsEntry::File(f) => f.name.clone(),
            FsEntry::Directory(d) => d.name.clone(),
        })
        .collect()
}

fn file(name: &str, content: &str) -> FsEntry {
    FsEntry::File(File { name: name.to_string(), content: content.to_string(), system: false })
}

fn dir(name: &str) -> FsEntry {
    FsEntry::Directory(Directory { name: name.to_string(), content: Vec::new(), system: false })
}

#[test]
fn initial_tree_lists_in_insertion_order() {
    let env = init_system();
    let listed = env.ls().unwrap();
    assert_eq!(names(&listed), vec!["sys", "Welcome.md", "password.pwd", "password.nwtz!"]);
    assert_eq!(env.current_path, "/");
    assert_eq!(env.execution, ExecutionState::Idle);
    assert!(env.message_buffer.is_empty());
    match &listed[0] {
        FsEntry::Directory(d) => assert!(d.system && d.content.is_empty()),
        FsEntry::File(_) => panic!("sys is a directory"),
    }
}

#[test]
fn default_is_the_initial_tree() {
    let env = Glob1Env::default();
    assert_eq!(names(&env.ls().unwrap()).len(), 4);
}

#[test]
fn list_path_gives_directory_content() {
    let mut env = init_system();
    env.add_entry_to_path("/sys", file("a", "1")).unwrap();
    env.add_entry_to_path("/sys", dir("b")).unwrap();
    assert_eq!(names(&env.ls_path("/sys").unwrap()), vec!["a", "b"]);
    assert_eq!(names(&env.ls_path("sys/").unwrap()), vec!["a", "b"]);
    assert!(env.ls_path("/sys/b").unwrap().is_empty());
}

#[test]
fn list_unknown_directory_is_not_found() {
    let env = init_system();
    assert_eq!(env.ls_path("/nothing").unwrap_err(), FsError::NotFound(Missing::Directory));
    assert_eq!(env.ls_path("/Welcome.md").unwrap_err(), FsError::NotFound(Missing::Directory));
}

#[test]
fn listing_is_a_snapshot() {
    let mut env = init_system();
    let before = env.ls().unwrap();
    env.wr("/Welcome.md", "changed".to_string()).unwrap();
    match &before[1] {
        FsEntry::File(f) => assert_eq!(f.content, "Welcome to glob1env !\nmade by Nyutiz"),
        FsEntry::Directory(_) => panic!("expected a file"),
    }
}

#[test]
fn read_credential_document() {
    let env = init_system();
    assert_eq!(env.rd("/password.pwd").unwrap(), "[PWD] Google::SuperPassword");
    assert_eq!(env.rd("//./password.pwd").unwrap(), "[PWD] Google::SuperPassword");
}

#[test]
fn read_errors() {
    let env = init_system();
    assert_eq!(env.rd("/").unwrap_err(), FsError::EmptyPath);
    assert_eq!(env.rd("").unwrap_err(), FsError::EmptyPath);
    assert_eq!(env.rd("/missing/file.txt").unwrap_err(), FsError::NotFound(Missing::Directory));
    assert_eq!(env.rd("/missing.txt").unwrap_err(), FsError::NotFound(Missing::File));
    assert_eq!(env.rd("/sys").unwrap_err(), FsError::NotFound(Missing::File));
}

#[test]
fn write_then_read_existing_file() {
    let mut env = init_system();
    env.wr("/Welcome.md", "hello".to_string()).unwrap();
    assert_eq!(env.rd("/Welcome.md").unwrap(), "hello");
    assert_eq!(env.ls().unwrap().len(), 4);
}

#[test]
fn write_then_read_new_file() {
    let mut env = init_system();
    env.wr("/sys/notes.txt", "a note".to_string()).unwrap();
    assert_eq!(env.rd("/sys/notes.txt").unwrap(), "a note");
    let listed = env.ls_path("/sys").unwrap();
    match &listed[0] {
        FsEntry::File(f) => {
            assert_eq!(f.name, "notes.txt");
            assert!(!f.system);
        }
        FsEntry::Directory(_) => panic!("expected a file"),
    }
}

#[test]
fn write_errors_change_nothing() {
    let mut env = init_system();
    assert_eq!(env.wr("/nowhere/x", "c".to_string()).unwrap_err(), FsError::NotFound(Missing::Directory));
    assert_eq!(env.wr("/", "c".to_string()).unwrap_err(), FsError::EmptyPath);
    assert_eq!(env.ls().unwrap().len(), 4);
}

#[test]
fn insert_appends_in_order() {
    let mut env = init_system();
    for n in ["one", "two", "three"] {
        env.add_entry_to_path("/sys", file(n, "")).unwrap();
    }
    assert_eq!(names(&env.ls_path("/sys").unwrap()), vec!["one", "two", "three"]);
}

#[test]
fn insert_at_root_with_slash() {
    let mut env = init_system();
    env.add_entry_to_path("/", dir("home")).unwrap();
    assert_eq!(names(&env.ls().unwrap())[4], "home");
}

#[test]
fn insert_relative_path_is_invalid() {
    let mut env = init_system();
    assert_eq!(env.add_entry_to_path("sys", file("x", "")).unwrap_err(), FsError::InvalidPath);
    assert_eq!(env.add_entry_to_path("", file("x", "")).unwrap_err(), FsError::InvalidPath);
    assert!(env.ls_path("/sys").unwrap().is_empty());
}

#[test]
fn insert_needs_intermediate_directories() {
    let mut env = init_system();
    assert_eq!(env.add_entry_to_path("/a/b", file("x", "")).unwrap_err(), FsError::NotFound(Missing::Directory));
    env.add_entry_to_path("/", dir("a")).unwrap();
    env.add_entry_to_path("/a", dir("b")).unwrap();
    env.add_entry_to_path("/a/b", file("x", "deep")).unwrap();
    assert_eq!(env.rd("/a/b/x").unwrap(), "deep");
}

#[test]
fn duplicate_names_first_match_wins() {
    let mut env = init_system();
    env.add_entry_to_path("/", file("Welcome.md", "second")).unwrap();
    assert_eq!(env.rd("/Welcome.md").unwrap(), "Welcome to glob1env !\nmade by Nyutiz");
    env.wr("/Welcome.md", "first".to_string()).unwrap();
    assert_eq!(env.rd("/Welcome.md").unwrap(), "first");
}

#[test]
fn navigation_push_and_pop() {
    let mut env = init_system();
    env.push("sys");
    assert_eq!(env.current_path, "/sys");
    assert!(env.ls().unwrap().is_empty());
    env.push("inner");
    assert_eq!(env.current_path, "/sys/inner");
    assert_eq!(env.ls().unwrap_err(), FsError::NotFound(Missing::Directory));
    assert!(env.pop());
    assert_eq!(env.current_path, "/sys");
    assert!(env.pop());
    assert_eq!(env.current_path, "/");
    assert!(!env.pop());
    assert_eq!(env.current_path, "/");
}

#[test]
fn cd_moves_cursor() {
    let mut env = init_system();
    assert_eq!(env.cd("/sys"), "/sys");
    assert_eq!(env.current_path, "/sys");
}

#[test]
fn join_paths() {
    assert_eq!(Glob1Env::join_fn("/", "a"), "/a");
    assert_eq!(Glob1Env::join_fn("/a", "b"), "/a/b");
    assert_eq!(Glob1Env::join_fn("", "b"), "/b");
}

#[test]
fn split_drops_root_empty_and_dot() {
    assert_eq!(split_components("/a//./b/"), vec!["a", "b"]);
    assert_eq!(split_components("a/.."), vec!["a"]);
    assert_eq!(split_components("/sys/../x"), vec!["sys", "x"]);
    assert_eq!(split_components("/..."), vec!["..."]);
    assert!(split_components("/").is_empty());
    assert!(split_components("").is_empty());
    assert_eq!(split_components("/.x"), vec![".x"]);
}

#[test]
fn execution_starts_at_most_once() {
    let mut env = init_system();
    assert!(!env.execution_started());
    assert!(env.request_execution());
    assert!(env.execution_started());
    assert!(!env.request_execution());
    assert_eq!(env.execution, ExecutionState::Running);
    env.finish_execution();
    assert_eq!(env.execution, ExecutionState::Completed);
    assert!(!env.request_execution());
    assert_eq!(env.execution, ExecutionState::Completed);
}

#[test]
fn finish_without_run_changes_nothing() {
    let mut env = init_system();
    env.finish_execution();
    assert_eq!(env.execution, ExecutionState::Idle);
}

#[test]
fn messages_keep_their_order() {
    let mut env = init_system();
    env.collect_messages(vec!["a".to_string(), "b".to_string(), "c".to_string()]);
    assert_eq!(env.message_buffer, vec!["a", "b", "c"]);
}

#[test]
fn repeated_message_is_kept_once() {
    let mut env = init_system();
    env.collect_messages(vec!["x".to_string(), "x".to_string()]);
    assert_eq!(env.message_buffer, vec!["x"]);
    env.collect_messages(vec!["y".to_string(), "x".to_string()]);
    assert_eq!(env.message_buffer, vec!["x", "y"]);
    assert!(env.has_message(&"y".to_string()));
    assert!(!env.has_message(&"z".to_string()));
}

#[test]
fn error_messages() {
    assert_eq!(FsError::EmptyPath.message("/"), "Chemin vide");
    assert_eq!(
        FsError::NotFound(Missing::Directory).message("/x/y"),
        "Répertoire introuvable : '/x/y'"
    );
    assert_eq!(FsError::NotFound(Missing::File).message("/x"), "Fichier introuvable : '/x'");
    assert_eq!(
        FsError::InvalidPath.message("x"),
        "Le chemin doit être absolu (commencer par '/')"
    );
}

#[test]
fn duplicate_copies_a_subtree() {
    let mut env = init_system();
    env.add_entry_to_path("/sys", file("f", "text")).unwrap();
    let listed = env.ls().unwrap();
    let copy = listed[0].duplicate();
    match copy {
        FsEntry::Directory(d) => {
            assert_eq!(d.name, "sys");
            assert_eq!(d.content.len(), 1);
        }
        FsEntry::File(_) => panic!("expected a directory"),
    }
}

#[test]
fn parent_markers_are_not_names() {
    let mut env = init_system();
    env.add_entry_to_path("/sys", file("a", "1")).unwrap();
    assert_eq!(names(&env.ls_path("/sys/..").unwrap()), vec!["a"]);
    assert_eq!(env.wr("/..", "c".to_string()).unwrap_err(), FsError::EmptyPath);
    assert_eq!(env.ls().unwrap().len(), 4);
}
