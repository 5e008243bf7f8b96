use dotfiler::error::DotfilerError;
use dotfiler::fsmodel::{FsAction, FsEntry, FsMap};
use dotfiler::materialize::{judge_outcome, plan_mapping, recovery_plan, MappingReport, SubstMode};
use dotfiler::tree::{build_tree, bytes_is_db, text_is_db, RawEntry, SourcePayload};
use dotfiler::vars::VarTable;

fn entry(suffix: &str, payload: SourcePayload, current: Option<FsEntry>) -> RawEntry {
    RawEntry { suffix: suffix.to_string(), payload, current }
}

fn apply_all(fs: &mut FsMap, actions: Vec<FsAction>) {
    for a in actions {
        fs.apply(a);
    }
}

fn table(pairs: &[(&str, &str)]) -> VarTable {
    let mut t = VarTable::new();
    for (k, v) in pairs {
        assert!(t.insert(k.to_string(), v.to_string()));
    }
    t
}

#[test]
fn database_signature_needs_six_leading_magic_bytes() {
    assert!(bytes_is_db(&b"SQLite format 3".to_vec()));
    assert!(bytes_is_db(&b"SQLite".to_vec()));
    assert!(!bytes_is_db(&b"SQLit".to_vec()));
    assert!(!bytes_is_db(&b"sqlite format 3".to_vec()));
    assert!(!bytes_is_db(&b"".to_vec()));
    assert!(text_is_db("SQLite format 3"));
    assert!(!text_is_db("SQLit"));
    assert!(!text_is_db("plain text"));
}

#[test]
fn build_rejects_a_file_over_a_directory_target() {
    let entries = vec![entry(
        "",
        SourcePayload::Text("content".to_string()),
        Some(FsEntry::Dir),
    )];
    match build_tree(entries, "/tmp/conflict") {
        Err(DotfilerError::PathConflict(p)) => assert_eq!(p, "/tmp/conflict"),
        _ => panic!("expected a path conflict"),
    }
}

#[test]
fn build_rejects_a_directory_over_a_file_target() {
    let entries = vec![entry(
        "",
        SourcePayload::Dir,
        Some(FsEntry::Text("old".to_string())),
    )];
    match build_tree(entries, "/tmp/dir") {
        Err(DotfilerError::PathConflict(p)) => assert_eq!(p, "/tmp/dir"),
        _ => panic!("expected a path conflict"),
    }
}

#[test]
fn build_rejects_two_entries_with_one_target() {
    let entries = vec![
        entry("", SourcePayload::Dir, None),
        entry("/a", SourcePayload::Text("x".to_string()), None),
        entry("/a", SourcePayload::Text("y".to_string()), None),
    ];
    match build_tree(entries, "/tmp/root") {
        Err(DotfilerError::BuildFailure(p)) => assert_eq!(p, "/tmp/root/a"),
        _ => panic!("expected a build failure"),
    }
}

// The scenario: one regular file and one subdirectory, built, rendered and
// saved into an empty target root; afterwards the subdirectory exists and
// the file holds the rendered content, and restoring empties the root.
#[test]
fn save_into_empty_root_then_restore_leaves_it_empty() {
    let vars = table(&[("user", "admin_user")]);
    let entries = vec![
        entry("", SourcePayload::Dir, None),
        entry(
            "/config",
            SourcePayload::Text("login: {{ user }}".to_string()),
            None,
        ),
        entry("/sub", SourcePayload::Dir, None),
    ];
    let plan = plan_mapping(entries, "/home/u/testing", &vars, SubstMode::Render).unwrap();

    let mut fs = FsMap::new();
    apply_all(&mut fs, plan.save);
    match fs.lookup("/home/u/testing/sub") {
        Some(FsEntry::Dir) => {},
        _ => panic!("the subdirectory is missing"),
    }
    match fs.lookup("/home/u/testing/config") {
        Some(FsEntry::Text(s)) => assert_eq!(s, "login: admin_user"),
        _ => panic!("the file is missing"),
    }
    match fs.lookup("/home/u/testing") {
        Some(FsEntry::Dir) => {},
        _ => panic!("the root directory is missing"),
    }

    let restore = recovery_plan(&plan.tree);
    apply_all(&mut fs, restore);
    assert!(fs.is_empty());
}

// A save interrupted in the middle — some actions applied, the rest never
// attempted — still rolls back to the exact prior state.
#[test]
fn a_partially_applied_save_still_rolls_back_cleanly() {
    let vars = VarTable::new();
    let entries = vec![
        entry("", SourcePayload::Dir, None),
        entry("/a", SourcePayload::Text("one".to_string()), None),
        entry("/b", SourcePayload::Text("two".to_string()), None),
    ];
    let plan = plan_mapping(entries, "/r", &vars, SubstMode::Copy).unwrap();
    let restore = recovery_plan(&plan.tree);
    assert_eq!(plan.save.len(), 3);

    let mut fs = FsMap::new();
    for a in plan.save.into_iter().take(2) {
        fs.apply(a);
    }
    assert!(fs.lookup("/r/a").is_some());
    assert!(fs.lookup("/r/b").is_none());
    apply_all(&mut fs, restore);
    assert!(fs.is_empty());
}

// The scenario: the target already holds different content; the original
// bytes are backed up, and a save interrupted before the write still
// restores them.
#[test]
fn interrupted_save_restores_the_original_content() {
    let vars = VarTable::new();
    let mut fs = FsMap::new();
    fs.apply(FsAction::Write(
        "/home/u/.rc".to_string(),
        FsEntry::Text("original".to_string()),
    ));

    let entries = vec![entry(
        "",
        SourcePayload::Text("fresh".to_string()),
        Some(FsEntry::Text("original".to_string())),
    )];
    let plan = plan_mapping(entries, "/home/u/.rc", &vars, SubstMode::Render).unwrap();
    let restore = recovery_plan(&plan.tree);

    // the write never happens: no save action is applied
    apply_all(&mut fs, restore);
    match fs.lookup("/home/u/.rc") {
        Some(FsEntry::Text(s)) => assert_eq!(s, "original"),
        _ => panic!("the original content is gone"),
    }

    // and a completed save rolls back just the same
    let entries = vec![entry(
        "",
        SourcePayload::Text("fresh".to_string()),
        Some(FsEntry::Text("original".to_string())),
    )];
    let plan = plan_mapping(entries, "/home/u/.rc", &vars, SubstMode::Render).unwrap();
    let restore = recovery_plan(&plan.tree);
    apply_all(&mut fs, plan.save);
    match fs.lookup("/home/u/.rc") {
        Some(FsEntry::Text(s)) => assert_eq!(s, "fresh"),
        _ => panic!("the new content is missing"),
    }
    apply_all(&mut fs, restore);
    match fs.lookup("/home/u/.rc") {
        Some(FsEntry::Text(s)) => assert_eq!(s, "original"),
        _ => panic!("the original content is gone"),
    }
}

// The scenario: the target is currently a symlink to a different
// destination; saving points it at the new one, restoring brings the old
// destination back.
#[test]
fn restoring_a_symlink_recreates_the_old_destination() {
    let vars = VarTable::new();
    let mut fs = FsMap::new();
    fs.apply(FsAction::Write(
        "/home/u/.link".to_string(),
        FsEntry::Link("/old/dest".to_string()),
    ));

    let entries = vec![entry(
        "",
        SourcePayload::Link("/new/dest".to_string()),
        Some(FsEntry::Link("/old/dest".to_string())),
    )];
    let plan = plan_mapping(entries, "/home/u/.link", &vars, SubstMode::Render).unwrap();
    let restore = recovery_plan(&plan.tree);

    apply_all(&mut fs, plan.save);
    match fs.lookup("/home/u/.link") {
        Some(FsEntry::Link(d)) => assert_eq!(d, "/new/dest"),
        _ => panic!("the new link is missing"),
    }
    apply_all(&mut fs, restore);
    match fs.lookup("/home/u/.link") {
        Some(FsEntry::Link(d)) => assert_eq!(d, "/old/dest"),
        _ => panic!("the old destination is gone"),
    }
}

// Templating leaves symlink and binary content untouched.
#[test]
fn template_leaves_symlinks_and_binaries_unchanged() {
    let vars = table(&[("dest", "/new/dest"), ("byte", "\u{1}")]);
    let entries = vec![
        entry("", SourcePayload::Dir, None),
        entry("/link", SourcePayload::Link("/new/dest".to_string()), None),
        entry("/bin", SourcePayload::Bytes(vec![1u8, 0u8, 2u8, 1u8]), None),
    ];
    let plan = plan_mapping(entries, "/t", &vars, SubstMode::Template).unwrap();
    let mut fs = FsMap::new();
    apply_all(&mut fs, plan.save);
    match fs.lookup("/t/link") {
        Some(FsEntry::Link(d)) => assert_eq!(d, "/new/dest"),
        _ => panic!("the link is missing"),
    }
    match fs.lookup("/t/bin") {
        Some(FsEntry::Bytes(b)) => assert_eq!(b, &vec![1u8, 0u8, 2u8, 1u8]),
        _ => panic!("the binary file is missing"),
    }
}

// A database source is copied as it is; rendering only marks the rewrite
// that runs against the saved file afterwards.
#[test]
fn database_nodes_are_copied_and_marked_for_rewrite() {
    let vars = VarTable::new();
    let body = b"SQLite format 3\0rest".to_vec();
    let entries = vec![entry("", SourcePayload::Bytes(body.clone()), None)];
    let plan = plan_mapping(entries, "/t/db.sqlite", &vars, SubstMode::Render).unwrap();
    assert_eq!(plan.rewrites.len(), 1);
    assert_eq!(plan.rewrites[0].path, "/t/db.sqlite");
    assert!(plan.rewrites[0].forward);
    let mut fs = FsMap::new();
    apply_all(&mut fs, plan.save);
    match fs.lookup("/t/db.sqlite") {
        Some(FsEntry::Bytes(b)) => assert_eq!(b, &body),
        _ => panic!("the database copy is missing"),
    }
}

// A directory is removed only after everything inside it: its delete
// comes last in the restore plan.
#[test]
fn restore_deletes_a_directory_after_its_children() {
    let vars = VarTable::new();
    let entries = vec![
        entry("", SourcePayload::Dir, None),
        entry("/inner", SourcePayload::Dir, None),
        entry("/inner/file", SourcePayload::Text("x".to_string()), None),
    ];
    let plan = plan_mapping(entries, "/r", &vars, SubstMode::Copy).unwrap();
    let restore = recovery_plan(&plan.tree);
    let paths: Vec<&str> = restore
        .iter()
        .map(|a| match a {
            FsAction::Delete(p) => p.as_str(),
            FsAction::Write(p, _) => p.as_str(),
        })
        .collect();
    assert_eq!(paths, vec!["/r/inner/file", "/r/inner", "/r"]);
    assert!(restore.iter().all(|a| matches!(a, FsAction::Delete(_))));
}

// A text source whose characters start with the magic header is still a
// database file.
#[test]
fn a_text_body_with_the_magic_header_is_a_database() {
    let vars = VarTable::new();
    let entries = vec![entry(
        "",
        SourcePayload::Text("SQLite format 3 pretend".to_string()),
        None,
    )];
    let plan = plan_mapping(entries, "/t/db", &vars, SubstMode::Template).unwrap();
    assert_eq!(plan.rewrites.len(), 1);
    assert_eq!(plan.rewrites[0].path, "/t/db");
    assert!(!plan.rewrites[0].forward);
}

#[test]
fn a_plain_copy_owes_no_rewrites() {
    let vars = VarTable::new();
    let body = b"SQLite format 3\0rest".to_vec();
    let entries = vec![entry("", SourcePayload::Bytes(body), None)];
    let plan = plan_mapping(entries, "/t/db.sqlite", &vars, SubstMode::Copy).unwrap();
    assert_eq!(plan.rewrites.len(), 0);
}

#[test]
fn outcomes_are_judged_by_what_failed() {
    assert!(matches!(judge_outcome(None, None), MappingReport::Committed));
    match judge_outcome(Some(DotfilerError::IoFailure("disk full".to_string())), None) {
        MappingReport::Failed(DotfilerError::IoFailure(m)) => assert_eq!(m, "disk full"),
        _ => panic!("expected a plain failure"),
    }
    match judge_outcome(
        Some(DotfilerError::IoFailure("disk full".to_string())),
        Some(DotfilerError::RestoreFailure("cannot write".to_string())),
    ) {
        MappingReport::Unrecoverable {
            cause: DotfilerError::IoFailure(c),
            rollback: DotfilerError::RestoreFailure(r),
        } => {
            assert_eq!(c, "disk full");
            assert_eq!(r, "cannot write");
        },
        _ => panic!("expected an unrecoverable report"),
    }
}

#[test]
fn error_messages_name_their_kind() {
    let e = DotfilerError::PathConflict("/x".to_string());
    assert_eq!(e.message(), "path conflict: /x");
    let e = DotfilerError::RestoreFailure("boom".to_string());
    assert_eq!(
        e.message(),
        "restore failure (automatic recovery failed, manual intervention required): boom"
    );
    let e = DotfilerError::BuildFailure("p".to_string());
    assert_eq!(e.message(), "build failure: p");
    let e = DotfilerError::RenderFailure("r".to_string());
    assert_eq!(e.message(), "render failure: r");
    let e = DotfilerError::IoFailure("i".to_string());
    assert_eq!(e.message(), "io failure: i");
    let e = DotfilerError::DatabaseFailure("d".to_string());
    assert_eq!(e.message(), "database failure: d");
}
