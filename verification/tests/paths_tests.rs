use ouch_core::paths::{
    can_rename, contains_path, is_path_stdin, rename_for_available_filename,
    rename_or_increment_filename, resolve_path_conflict, FileConflictOperation,
};

fn v(s: &str) -> Vec<u8> {
    s.as_bytes().to_vec()
}

#[test]
fn increment_step_examples() {
    assert_eq!(rename_or_increment_filename(b"file.txt"), v("file_1.txt"));
    assert_eq!(rename_or_increment_filename(b"file_1.txt"), v("file_2.txt"));
    assert_eq!(rename_or_increment_filename(b"file_9.txt"), v("file_10.txt"));
    assert_eq!(rename_or_increment_filename(b"file"), v("file_1"));
    assert_eq!(rename_or_increment_filename(b"dir/file_2.txt"), v("dir/file_3.txt"));
    assert_eq!(rename_or_increment_filename(b"a_b.txt"), v("a_b_1.txt"));
    assert_eq!(rename_or_increment_filename(b"file_.txt"), v("file_1.txt"));
    assert_eq!(rename_or_increment_filename(b".txt"), v(".txt_1"));
    assert_eq!(
        rename_or_increment_filename(b"file_4294967295.txt"),
        v("file_4294967296.txt")
    );
    // a suffix beyond the u32 range reads as zero, as u32 parsing fails
    assert_eq!(
        rename_or_increment_filename(b"file_99999999999999999999.txt"),
        v("file_1.txt")
    );
}

#[test]
fn rename_skips_occupied_names() {
    let existing = vec![
        v("file_1.txt"),
        v("file_2.txt"),
        v("file_3.txt"),
        v("file_4.txt"),
        v("file_5.txt"),
    ];
    let renamed = rename_for_available_filename(b"file.txt", &existing);
    assert_eq!(renamed, v("file_6.txt"));
    assert!(!contains_path(&existing, &renamed));

    // applying it again against the same directory still avoids every entry
    let mut fuller = existing.clone();
    fuller.push(renamed);
    let renamed_again = rename_for_available_filename(b"file.txt", &fuller);
    assert_eq!(renamed_again, v("file_7.txt"));
    assert!(!contains_path(&fuller, &renamed_again));
}

#[test]
fn rename_with_no_collisions() {
    let existing: Vec<Vec<u8>> = vec![];
    assert_eq!(rename_for_available_filename(b"out.tar.gz", &existing), v("out.tar_1.gz"));
}

#[test]
fn can_rename_accepts_ordinary_names() {
    let existing = vec![v("file_1.txt")];
    assert!(can_rename(b"file.txt", &existing));
    assert!(can_rename(b"dir/archive.tar.gz", &existing));
    // a trailing-dot name re-splits unstably
    assert!(!can_rename(b"a.b_5.", &existing));
}

#[test]
fn resolve_conflict_decisions() {
    let existing = vec![v("out.txt"), v("out_1.txt")];

    let free = resolve_path_conflict(b"fresh.txt", false, FileConflictOperation::Cancel, &existing);
    assert_eq!(free, Some(v("fresh.txt")));

    let cancelled =
        resolve_path_conflict(b"out.txt", true, FileConflictOperation::Cancel, &existing);
    assert_eq!(cancelled, None);

    let overwritten =
        resolve_path_conflict(b"out.txt", true, FileConflictOperation::Overwrite, &existing);
    assert_eq!(overwritten, Some(v("out.txt")));

    let merged = resolve_path_conflict(b"out.txt", true, FileConflictOperation::Merge, &existing);
    assert_eq!(merged, Some(v("out.txt")));

    let renamed = resolve_path_conflict(b"out.txt", true, FileConflictOperation::Rename, &existing);
    assert_eq!(renamed, Some(v("out_2.txt")));
}

#[test]
fn stdin_marker() {
    assert!(is_path_stdin(b"-"));
    assert!(!is_path_stdin(b"--"));
    assert!(!is_path_stdin(b"file"));
    assert!(!is_path_stdin(b""));
}
