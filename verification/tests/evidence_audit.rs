use gallery_accel::evidence_audit::{
    audit_evidence_bindings, audit_limit, classify_binding, BindingAuditStatus, EvidenceFile,
    EvidenceItem, PublishJob,
};
use gallery_accel::json::Json;

fn item(id: i64, path: &str, hash: Option<&str>, on_disk: bool) -> EvidenceItem {
    EvidenceItem {
        id,
        file_path: path.to_string(),
        file_size: 5,
        content_hash: hash.map(|hash| hash.to_string()),
        missing: false,
        disk_size: if on_disk { Some(5) } else { None },
    }
}

fn file(
    file_id: i64,
    evidence_item_id: Option<i64>,
    expected_length: i64,
    publish_job_id: Option<i64>,
) -> EvidenceFile {
    EvidenceFile {
        file_id,
        post_id: format!("p{}", file_id - 100),
        target_path: "/library/ok.jpg".to_string(),
        evidence_item_id,
        expected_length,
        publish_job_id,
    }
}

fn job(id: i64, hash: Option<&str>) -> PublishJob {
    PublishJob { id, artifact_blake3: hash.map(|hash| hash.to_string()) }
}

#[test]
fn audit_reports_various_evidence_binding_states() {
    let ok = "/library/ok.jpg";
    let items = [
        item(1, ok, Some("hash1"), true),
        item(2, ok, None, true),
        item(3, ok, Some("hash3"), true),
        item(4, ok, Some("hash_actual"), true),
        item(6, "/library/missing.jpg", Some("hash6"), false),
    ];
    let jobs = [job(10, Some("hash1")), job(40, Some("hash_expected"))];
    let files = [
        file(101, Some(1), 5, Some(10)),
        file(102, Some(2), 5, None),
        file(103, Some(3), 10, None),
        file(104, Some(4), 5, Some(40)),
        file(105, Some(999), 5, None),
        file(106, Some(6), 5, None),
    ];
    let report = audit_evidence_bindings(&files, &items, &jobs, 100).unwrap();
    assert_eq!(report.audited_total, 6);
    assert_eq!(report.verified_match, 1);
    assert_eq!(report.index_hash_pending, 1);
    assert_eq!(report.file_changed, 1);
    assert_eq!(report.definite_mismatch, 1);
    assert_eq!(report.item_missing, 2);
    assert_eq!(report.samples.len(), 5);
}

#[test]
fn samples_say_what_is_wrong() {
    let items = [item(4, "/a", Some("hash_actual"), true), item(3, "/a", Some("hash3"), true)];
    let jobs = [job(9, Some(" HASH_expected "))];
    let files = [file(103, Some(3), 10, None), file(104, Some(4), 5, Some(9))];
    let report = audit_evidence_bindings(&files, &items, &jobs, 100).unwrap();
    assert!(matches!(report.samples[0].status, BindingAuditStatus::FileChanged));
    assert_eq!(report.samples[0].detail, "expected size 10 != item size 5");
    assert!(matches!(report.samples[1].status, BindingAuditStatus::DefiniteMismatch));
    assert_eq!(
        report.samples[1].detail,
        "item hash hash_actual does not match published artifact hash_expected"
    );
    assert_eq!(report.samples[1].file_id, 104);
    assert_eq!(report.samples[1].post_id, "p4");
    assert_eq!(report.samples[1].evidence_item_id, 4);
}

#[test]
fn files_of_another_size_are_changed() {
    let mut grown = item(1, "/a", Some("h1"), true);
    grown.disk_size = Some(7);
    let files = [file(101, Some(1), 5, None)];
    let report = audit_evidence_bindings(&files, &[grown], &[], 100).unwrap();
    assert_eq!((report.file_changed, report.verified_match), (1, 0));
    assert!(matches!(report.samples[0].status, BindingAuditStatus::FileChanged));
    assert_eq!(report.samples[0].detail, "expected size 5 != file size 7");

    let mut unknown = item(1, "/a", Some("h1"), true);
    unknown.file_size = 0;
    assert!(matches!(
        classify_binding(1, 5, Some(&unknown), None).unwrap().0,
        BindingAuditStatus::VerifiedMatch
    ));
    assert!(matches!(
        classify_binding(1, 9, Some(&unknown), None).unwrap().0,
        BindingAuditStatus::FileChanged
    ));
    assert!(matches!(
        classify_binding(1, 0, Some(&unknown), None).unwrap().0,
        BindingAuditStatus::VerifiedMatch
    ));
}

#[test]
fn samples_stop_at_fifty() {
    let files: Vec<EvidenceFile> = (0..60).map(|id| file(100 + id, Some(1), 5, None)).collect();
    let report = audit_evidence_bindings(&files, &[], &[], 100).unwrap();
    assert_eq!(report.audited_total, 60);
    assert_eq!(report.item_missing, 60);
    assert_eq!(report.samples.len(), 50);
    assert!(matches!(report.samples[49].status, BindingAuditStatus::ItemNotFound));
    assert_eq!(report.samples[49].detail, "item id 1 not found in items table");
}

#[test]
fn only_bound_files_up_to_the_limit_are_audited() {
    let files = [
        file(101, None, 5, None),
        file(102, Some(2), 5, None),
        file(103, None, 5, None),
        file(104, Some(4), 5, None),
        file(105, Some(5), 5, None),
    ];
    let report = audit_evidence_bindings(&files, &[], &[], 2).unwrap();
    assert_eq!(report.audited_total, 2);
    assert_eq!(report.samples[0].file_id, 102);
    assert_eq!(report.samples[1].file_id, 104);
}

#[test]
fn jobs_without_a_hash_cannot_be_audited() {
    let items = [item(1, "/a", Some("hash1"), true), item(2, "/gone", None, false)];
    let jobs = [job(7, None)];
    let reached = [file(101, Some(2), 5, Some(7)), file(102, Some(1), 5, Some(7))];
    assert_eq!(audit_evidence_bindings(&reached, &items, &jobs, 9).unwrap_err().file_id, 102);
    let never_reached = [file(101, Some(2), 5, Some(7))];
    assert_eq!(audit_evidence_bindings(&never_reached, &items, &jobs, 9).unwrap().item_missing, 1);
}

#[test]
fn matching_hashes_are_verified() {
    let mut there = item(1, "/a", Some("hash1"), true);
    let published = job(7, Some("HASH1"));
    let (status, detail) = classify_binding(1, 5, Some(&there), Some(&published)).unwrap();
    assert!(matches!(status, BindingAuditStatus::VerifiedMatch));
    assert_eq!(detail, "");
    there.missing = true;
    let (status, detail) = classify_binding(1, 5, Some(&there), Some(&published)).unwrap();
    assert!(matches!(status, BindingAuditStatus::ItemFileMissing));
    assert_eq!(detail, "item 1 is marked missing in library");
}

#[test]
fn reports_are_documents() {
    let files = [file(102, Some(2), 5, None)];
    let report = audit_evidence_bindings(&files, &[], &[], 2).unwrap().to_json();
    assert!(matches!(report.get("audited_total"), Some(Json::Number(n)) if n == "1"));
    assert!(matches!(report.get("item_missing"), Some(Json::Number(n)) if n == "1"));
    assert!(matches!(report.get("verified_match"), Some(Json::Number(n)) if n == "0"));
    match report.get("samples") {
        Some(Json::Array(samples)) => {
            assert!(matches!(samples[0].get("file_id"), Some(Json::Int(102))));
            assert_eq!(samples[0].get("status").unwrap().as_text(), Some("item_not_found"));
        }
        other => panic!("{other:?}"),
    }
}

#[test]
fn audits_are_bounded() {
    assert_eq!(audit_limit(0), 1);
    assert_eq!(audit_limit(77), 77);
    assert_eq!(audit_limit(9000), 5000);
}

#[test]
fn binding_classes_have_names() {
    assert_eq!(BindingAuditStatus::VerifiedMatch.label(), "verified_match");
    assert_eq!(BindingAuditStatus::IndexHashPending.label(), "index_hash_pending");
    assert_eq!(BindingAuditStatus::FileChanged.label(), "file_changed");
    assert_eq!(BindingAuditStatus::DefiniteMismatch.label(), "definite_mismatch");
    assert_eq!(BindingAuditStatus::ItemNotFound.label(), "item_not_found");
    assert_eq!(BindingAuditStatus::ItemFileMissing.label(), "item_file_missing");
}
