use ops::diff_status::GitStatus;
use ops::diff_status::parse_git_statuses;

fn modified(file: &str) -> GitStatus {
    GitStatus::Modified { file: file.to_string() }
}

#[test]
fn parses_every_supported_status() {
    let text = "A\tnew.rs\nD\tgone.rs\nM\tchanged.rs\nMM\tstaged.rs\nAM\tadded_then_edited.rs\nT\tlink.rs\nR75\tfrom.rs\tto.rs\n";
    let records = parse_git_statuses(text).unwrap();
    assert_eq!(
        records,
        vec![
            GitStatus::Added { file: "new.rs".to_string() },
            GitStatus::Deleted { file: "gone.rs".to_string() },
            modified("changed.rs"),
            modified("staged.rs"),
            modified("added_then_edited.rs"),
            GitStatus::FileTypeChanged { file: "link.rs".to_string() },
            GitStatus::Renamed { old: "from.rs".to_string(), new: "to.rs".to_string() },
        ]
    );
}

#[test]
fn rename_with_identical_paths_normalizes_to_modified() {
    let records = parse_git_statuses("R100\told.txt\told.txt").unwrap();
    assert_eq!(records, vec![modified("old.txt")]);
}

#[test]
fn rename_with_arrow_separator() {
    let records = parse_git_statuses("R90\tsrc/a.rs -> src/b.rs").unwrap();
    assert_eq!(
        records,
        vec![GitStatus::Renamed { old: "src/a.rs".to_string(), new: "src/b.rs".to_string() }]
    );
}

#[test]
fn rename_with_arrow_and_identical_paths_normalizes() {
    let records = parse_git_statuses("R100\tsame.rs -> same.rs").unwrap();
    assert_eq!(records, vec![modified("same.rs")]);
}

#[test]
fn blank_and_short_lines_are_skipped() {
    let records = parse_git_statuses("\n\nM\ta.rs\n\nX\n\nD\tb.rs\n").unwrap();
    assert_eq!(
        records,
        vec![modified("a.rs"), GitStatus::Deleted { file: "b.rs".to_string() }]
    );
}

#[test]
fn empty_text_yields_no_records() {
    assert_eq!(parse_git_statuses("").unwrap(), vec![]);
    assert_eq!(parse_git_statuses("  \n \n").unwrap(), vec![]);
}

#[test]
fn unsupported_status_is_an_error() {
    let err = parse_git_statuses("M\ta.rs\nQ\tb.rs\n").unwrap_err();
    assert_eq!(err.line, "Q\tb.rs");
}

#[test]
fn rename_without_separator_is_an_error() {
    let err = parse_git_statuses("R100\tonlyonepath").unwrap_err();
    assert_eq!(err.line, "R100\tonlyonepath");
}

#[test]
fn first_unsupported_line_wins() {
    let err = parse_git_statuses("Z\tfirst\nQ\tsecond\n").unwrap_err();
    assert_eq!(err.line, "Z\tfirst");
}

#[test]
fn new_and_old_file_names() {
    let added = GitStatus::Added { file: "a.rs".to_string() };
    assert_eq!(added.new_file_name(), Some("a.rs"));
    assert_eq!(added.old_file_name(), None);

    let deleted = GitStatus::Deleted { file: "d.rs".to_string() };
    assert_eq!(deleted.new_file_name(), None);
    assert_eq!(deleted.old_file_name(), Some("d.rs"));

    let renamed = GitStatus::Renamed { old: "o.rs".to_string(), new: "n.rs".to_string() };
    assert_eq!(renamed.new_file_name(), Some("n.rs"));
    assert_eq!(renamed.old_file_name(), Some("o.rs"));

    let modified = GitStatus::Modified { file: "m.rs".to_string() };
    assert_eq!(modified.new_file_name(), Some("m.rs"));
    assert_eq!(modified.old_file_name(), Some("m.rs"));

    let retyped = GitStatus::FileTypeChanged { file: "t.rs".to_string() };
    assert_eq!(retyped.new_file_name(), Some("t.rs"));
    assert_eq!(retyped.old_file_name(), Some("t.rs"));
}

#[test]
fn paths_with_spaces_are_kept_whole() {
    let records = parse_git_statuses("M\tdir/a file.rs").unwrap();
    assert_eq!(records, vec![modified("dir/a file.rs")]);
}

#[test]
fn parsing_is_deterministic() {
    let text = "A\ta.rs\nR80\tx.rs\ty.rs\nM\tm.rs\n";
    assert_eq!(parse_git_statuses(text), parse_git_statuses(text));
}
