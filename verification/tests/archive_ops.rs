//! Looking into archives and taking them apart.

use gallery_accel::archive_ops::{
    check_entry_path, choose_destination, destination_name, extract_failure_message,
    extract_target_dir, extracted_response, find_7z_binary, flatten_single_wrapper, inspect_archive, is_junk_name,
    is_password_error, list_entries, password_arg, resolve_7z_binary_path, split_name,
    staging_dir_name, extract_archive, stream_archive_entry, vet_extract, ExtractAction, ExtractEvent,
    ExtractOutcome, ExtractRefusal, ExtractStage, FolderEntry, KnownProgram, Platform,
};

#[test]
fn test_7z_binary_found() {
    let stand_in = tempfile::NamedTempFile::new().unwrap();
    let program = stand_in.path();
    let places = resolve_7z_binary_path(
        Platform::Unix,
        Some(program.to_str().unwrap()),
        None,
        &[],
        &[],
    );
    let is_file: Vec<bool> = places.iter().map(|p| std::path::Path::new(p).is_file()).collect();
    let mut known = KnownProgram::Unknown;
    let bin = find_7z_binary(&mut known, &places, &is_file);
    assert!(bin.is_ok(), "7-Zip binary must be located: {:?}", bin);
    let path = bin.unwrap();
    assert!(std::path::Path::new(&path).is_file(), "7-Zip binary path must exist: {:?}", path);
}

#[test]
fn a_missing_program_is_told() {
    let places = vec!["/nowhere/7zz".to_string()];
    let mut known = KnownProgram::Unknown;
    for there in [false, true] {
        assert_eq!(
            find_7z_binary(&mut known, &places, &[there]).unwrap_err(),
            "7-Zip executable (7zz / 7z) not found"
        );
    }
}

#[test]
fn the_first_search_counts() {
    let places = vec!["/a/7zz".to_string(), "/b/7zz".to_string()];
    let mut known = KnownProgram::Unknown;
    assert_eq!(find_7z_binary(&mut known, &places, &[false, true]).as_deref(), Ok("/b/7zz"));
    assert_eq!(find_7z_binary(&mut known, &places, &[true, false]).as_deref(), Ok("/b/7zz"));
    assert_eq!(find_7z_binary(&mut known, &[], &[]).as_deref(), Ok("/b/7zz"));
}

#[test]
fn places_come_in_order() {
    let places = resolve_7z_binary_path(
        Platform::Unix,
        Some("/opt/7zz"),
        Some("/app"),
        &["/work".to_string()],
        &["/bin".to_string()],
    );
    assert_eq!(places[0], "/opt/7zz");
    assert_eq!(places[1], "/app/7zz");
    assert!(places.iter().any(|p| p.starts_with("/work/")));
    assert!(places.last().unwrap().starts_with("/bin/"));
}

const LISTING: &str = "Path = sample.zip\nType = zip\nSize = 300\n\n\
Path = image1.png\nFolder = -\nSize = 14\nPacked Size = 12\nModified = 2024-01-02 03:04:05\nEncrypted = -\n\n\
Path = sub\nFolder = +\nSize = 0\n\n\
Path = sub\\doc.txt\nFolder = -\nSize = 9\nPacked Size = 9\nEncrypted = -\n\n\
Path = __MACOSX/x\nSize = 1\n\n";

#[test]
fn listings_are_read_entry_by_entry() {
    let entries = list_entries(LISTING, "sample.zip", 300);
    let paths: Vec<&str> = entries.iter().map(|e| e.path.as_str()).collect();
    assert_eq!(paths, vec!["image1.png", "sub", "sub/doc.txt"]);
    assert_eq!(entries[0].size, 14);
    assert_eq!(entries[0].packed_size, 12);
    assert_eq!(entries[0].modified, "2024-01-02 03:04:05");
    assert!(entries[1].is_dir);
}

#[test]
fn test_inspect_and_stream_and_extract() {
    let kinds = vec![Some("image".to_string()), None, Some("text".to_string())];
    let inspection = inspect_archive(true, LISTING, "", "sample.zip", 300, &kinds).unwrap();
    assert_eq!(inspection.archive_name, "sample.zip");
    assert_eq!(inspection.stats.total_files, 2);
    assert_eq!(inspection.stats.images, 1);
    assert_eq!(inspection.stats.texts, 1);
    assert_eq!(inspection.stats.total_uncompressed_bytes, 23);
    assert!(!inspection.is_encrypted);

    assert_eq!(check_entry_path("image1.png").as_deref(), Ok("image1.png"));
    let streamed = stream_archive_entry(true, b"fake png bytes".to_vec(), "").unwrap();
    assert_eq!(streamed, b"fake png bytes");
    assert_eq!(check_entry_path("sub/doc.txt").as_deref(), Ok("sub/doc.txt"));
    let streamed_sub = stream_archive_entry(true, b"hello doc".to_vec(), "").unwrap();
    assert_eq!(streamed_sub, b"hello doc");

    let target = extract_target_dir("/work", "sample", "new_folder", Some("my_unpacked"));
    assert_eq!(target, "/work/my_unpacked");
    let mut placed: Vec<String> = Vec::new();
    for entry in ["image1.png", "sub"] {
        let mut taken = Vec::new();
        let number = loop {
            match choose_destination(&taken) {
                Some(number) => break number,
                None => taken.push(placed.contains(&destination_name(entry, taken.len()))),
            }
        };
        placed.push(destination_name(entry, number));
    }
    assert_eq!(placed, vec!["image1.png", "sub"]);
    let extract_res = extracted_response(&placed, &target, false);
    assert!(extract_res.ok);
    assert_eq!(extract_res.extracted_count, 2);
    assert_eq!(extract_res.target_dir, "/work/my_unpacked");
}

#[test]
fn test_inspect_password_protected() {
    let inspect_no_pwd =
        inspect_archive(false, "", "ERROR: Wrong password?", "secret.7z", 200, &[]).unwrap();
    assert!(inspect_no_pwd.is_encrypted);
    assert!(inspect_no_pwd.header_encrypted);
    assert_eq!(password_arg(Some("secret123")), "-psecret123");

    let listing = "Path = secret.txt\nSize = 15\nEncrypted = +\n\n";
    let kinds = [Some("text".to_string())];
    let inspect_with_pwd =
        inspect_archive(true, listing, "", "secret.7z", 200, &kinds).unwrap();
    assert!(inspect_with_pwd.is_encrypted);
    assert_eq!(inspect_with_pwd.stats.total_files, 1);
    assert_eq!(inspect_with_pwd.stats.texts, 1);

    let streamed = stream_archive_entry(true, b"top secret data".to_vec(), "").unwrap();
    assert_eq!(streamed, b"top secret data");
}

#[test]
fn encrypted_headers_are_told_and_other_failures_are_errors() {
    let hidden = inspect_archive(false, "", "Cannot open encrypted archive", "s.7z", 9, &[]).unwrap();
    assert!(hidden.is_encrypted);
    assert!(hidden.header_encrypted);
    assert_eq!(hidden.entries.len(), 0);
    assert_eq!(
        inspect_archive(false, "", "broken", "s.7z", 9, &[]).unwrap_err(),
        "7-Zip inspection failed: broken"
    );
    let listing = "Path = secret.txt\nSize = 15\nEncrypted = +\n\n";
    let open = inspect_archive(true, listing, "", "s.7z", 9, &[Some("text".to_string())]).unwrap();
    assert!(open.is_encrypted);
    assert!(!open.header_encrypted);
    assert!(is_password_error("Wrong password"));
    assert!(!is_password_error("fine"));
}

#[test]
fn streams_have_a_limit() {
    assert_eq!(stream_archive_entry(true, b"abc".to_vec(), "").unwrap(), b"abc");
    assert_eq!(stream_archive_entry(false, b"abc".to_vec(), "late").unwrap(), b"abc");
    assert_eq!(
        stream_archive_entry(false, vec![], "gone").unwrap_err(),
        "failed to stream entry: gone"
    );
    assert_eq!(
        stream_archive_entry(true, vec![0u8; 50 * 1024 * 1024 + 1], "").unwrap_err(),
        "entry exceeds 50MB in-memory preview limit"
    );
}

#[test]
fn entry_paths_cannot_leave_the_archive() {
    assert_eq!(check_entry_path("a\\b.txt").unwrap(), "a/b.txt");
    for bad in ["../x", "/x", "C:x", "a..b"] {
        assert_eq!(check_entry_path(bad).unwrap_err(), "invalid entry path");
    }
    assert_eq!(password_arg(None), "-p");
    assert_eq!(password_arg(Some("s")), "-ps");
}

#[test]
fn folders_for_archives_are_one_level() {
    assert_eq!(extract_target_dir("/lib", "pack", "here", None), "/lib");
    assert_eq!(extract_target_dir("/lib", "pack", "new_folder", None), "/lib/pack");
    assert_eq!(extract_target_dir("/lib", "pack", "new_folder", Some("  ")), "/lib/pack");
    assert_eq!(extract_target_dir("/lib", "pack", "new_folder", Some("a/b:c")), "/lib/a_b_c");
    assert_eq!(split_name("a.tar.gz"), ("a.tar".to_string(), ".gz".to_string()));
    assert_eq!(split_name(".hidden"), (".hidden".to_string(), String::new()));
    assert_eq!(split_name("plain"), ("plain".to_string(), String::new()));
}

#[test]
fn staging_folders_have_fresh_names() {
    let (a, b) = (staging_dir_name(), staging_dir_name());
    assert!(a.starts_with(".extracting_"));
    assert_eq!(a.len(), ".extracting_".len() + 32);
    assert_ne!(a, b);
}

#[test]
fn failures_of_extraction_are_told() {
    assert_eq!(extract_failure_message("ERROR: Wrong password?"), "解压密码错误");
    assert_eq!(extract_failure_message("disk full"), "解压执行失败: disk full");
}

#[test]
fn wrappers_are_taken_off_and_names_are_made_free() {
    let entry = |name: &str, is_dir: bool| FolderEntry { name: name.to_string(), is_dir };
    assert_eq!(flatten_single_wrapper(&[entry("only", true)]), Some(0));
    assert_eq!(flatten_single_wrapper(&[entry("only", false)]), None);
    assert_eq!(flatten_single_wrapper(&[entry("a", true), entry("b", true)]), None);
    assert!(is_junk_name("Thumbs.db"));
    assert!(!is_junk_name("thumbs.db"));
    assert_eq!(destination_name("a.png", 0), "a.png");
    assert_eq!(destination_name("a.png", 2), "a (2).png");
    assert_eq!(choose_destination(&[true, true, false]), Some(2));
    assert_eq!(choose_destination(&[true]), None);
    assert_eq!(choose_destination(&vec![true; 1000]), Some(999));
}

fn run(events: &[ExtractEvent], recycle: bool) -> (Vec<ExtractAction>, ExtractOutcome) {
    let mut stage = ExtractStage::Checking;
    let mut actions = Vec::new();
    for event in events {
        let (next, action) = extract_archive(stage, *event, recycle);
        stage = next;
        if let ExtractAction::Finish(outcome) = action {
            return (actions, outcome);
        }
        actions.push(action);
    }
    panic!("the extraction did not end");
}

#[test]
fn extractions_run_to_their_end() {
    let fine = ExtractEvent::Checked(vet_extract(true, true, true));
    let done = ExtractEvent::Done;
    let (actions, outcome) = run(&[fine, done, done, done, done, done, done], false);
    assert_eq!(outcome, ExtractOutcome::Extracted { recycled: false });
    assert_eq!(
        actions,
        vec![
            ExtractAction::MakeStaging,
            ExtractAction::Unpack,
            ExtractAction::Tidy,
            ExtractAction::MakeTarget,
            ExtractAction::Move,
            ExtractAction::RemoveStaging,
        ]
    );
    let failed = ExtractEvent::Failed;
    let (_, recycled) =
        run(&[fine, done, done, done, done, done, done, failed, done], true);
    assert_eq!(recycled, ExtractOutcome::Extracted { recycled: true });
    let (_, kept) = run(&[fine, done, done, done, done, done, done, failed, failed], true);
    assert_eq!(kept, ExtractOutcome::Extracted { recycled: false });
}

#[test]
fn failed_extractions_never_recycle() {
    let fine = ExtractEvent::Checked(None);
    let done = ExtractEvent::Done;
    let failed = ExtractEvent::Failed;
    assert_eq!(
        run(&[fine, done, ExtractEvent::Unsuccessful, done], true),
        (
            vec![ExtractAction::MakeStaging, ExtractAction::Unpack, ExtractAction::RemoveStaging],
            ExtractOutcome::Unsuccessful
        )
    );
    assert_eq!(run(&[fine, done, failed, done], true).1, ExtractOutcome::NotStarted);
    assert_eq!(run(&[fine, failed], true).1, ExtractOutcome::StagingFailed);
    assert_eq!(run(&[fine, done, done, done, failed], true).1, ExtractOutcome::TargetFailed);
    assert_eq!(run(&[fine, done, done, done, done, failed], true).1, ExtractOutcome::MoveFailed);
    assert_eq!(vet_extract(false, true, true), Some(ExtractRefusal::ProgramMissing));
    assert_eq!(vet_extract(true, false, true), Some(ExtractRefusal::NoParent));
    let refused = vet_extract(true, true, false);
    assert_eq!(refused, Some(ExtractRefusal::OutsideRoots));
    assert_eq!(
        run(&[ExtractEvent::Checked(refused)], true).1,
        ExtractOutcome::Refused(ExtractRefusal::OutsideRoots)
    );
}

#[test]
fn refused_archives_have_messages() {
    assert_eq!(ExtractRefusal::ProgramMissing.message(), "7-Zip executable (7zz / 7z) not found");
    assert_eq!(ExtractRefusal::NoParent.message(), "archive has no parent directory");
    assert_eq!(
        ExtractRefusal::OutsideRoots.message(),
        "target directory is outside authorized media roots"
    );
}
