//! Read-only audit of the bindings between downloaded files and library items.
//!
//! Each binding falls into one class: the item matches, its hash is not known
//! yet, its file changed, its hash differs for sure, the item is gone, or its
//! file is. Nothing is changed or revoked.

use vstd::prelude::*;
use crate::json::{entry, number, Json, JsonTree};
use crate::tables::first;
use crate::text::{
    decimal, decimal_int, lower, push_decimal_int, same_chars, text_of, to_lower, trim_text, trimmed,
};

verus! {

/// The class of a binding.
#[derive(Clone, Copy, PartialEq, Eq, Debug, Structural)]
pub enum BindingAuditStatus {
    /// The item is there and matches.
    VerifiedMatch,
    /// The item is there, but its hash is not known yet.
    IndexHashPending,
    /// The size of the file, or the one recorded for the item, is not the expected one.
    FileChanged,
    /// The item's hash is not that of the published file.
    DefiniteMismatch,
    /// There is no such item.
    ItemNotFound,
    /// The item is marked missing, or its file is not there.
    ItemFileMissing,
}

impl BindingAuditStatus {
    /// The name of the class.
    pub open spec fn spelled(self) -> Seq<char> {
        match self {
            BindingAuditStatus::VerifiedMatch => "verified_match"@,
            BindingAuditStatus::IndexHashPending => "index_hash_pending"@,
            BindingAuditStatus::FileChanged => "file_changed"@,
            BindingAuditStatus::DefiniteMismatch => "definite_mismatch"@,
            BindingAuditStatus::ItemNotFound => "item_not_found"@,
            BindingAuditStatus::ItemFileMissing => "item_file_missing"@,
        }
    }

    /// The name of the class.
    pub fn label(self) -> (r: &'static str)
        ensures
            r@ == self.spelled(),
    {
        match self {
            BindingAuditStatus::VerifiedMatch => "verified_match",
            BindingAuditStatus::IndexHashPending => "index_hash_pending",
            BindingAuditStatus::FileChanged => "file_changed",
            BindingAuditStatus::DefiniteMismatch => "definite_mismatch",
            BindingAuditStatus::ItemNotFound => "item_not_found",
            BindingAuditStatus::ItemFileMissing => "item_file_missing",
        }
    }
}

/// A binding that is worth a look.
#[derive(Debug)]
pub struct EvidenceAuditSample {
    /// The downloaded file.
    pub file_id: i64,
    /// The post it belongs to.
    pub post_id: String,
    /// Where it was to go.
    pub target_path: String,
    /// The item it is bound to.
    pub evidence_item_id: i64,
    /// The class of the binding.
    pub status: BindingAuditStatus,
    /// What was found.
    pub detail: String,
}

/// The outcome of an audit.
#[derive(Debug)]
pub struct EvidenceAuditReport {
    /// How many bindings were looked at.
    pub audited_total: usize,
    /// How many match.
    pub verified_match: usize,
    /// How many have no hash yet.
    pub index_hash_pending: usize,
    /// How many changed.
    pub file_changed: usize,
    /// How many differ for sure.
    pub definite_mismatch: usize,
    /// How many have no item or no file.
    pub item_missing: usize,
    /// The first bindings that do not match.
    pub samples: Vec<EvidenceAuditSample>,
}

/// How many bindings are shown.
pub const MAX_SAMPLES: usize = 50;

/// An item of the library.
#[derive(Debug)]
pub struct EvidenceItem {
    /// The item.
    pub id: i64,
    /// Its path.
    pub file_path: String,
    /// Its size.
    pub file_size: i64,
    /// Its hash.
    pub content_hash: Option<String>,
    /// Whether it is marked missing.
    pub missing: bool,
    /// The size of its file on disk, if the file is there.
    pub disk_size: Option<i64>,
}

/// A downloaded file.
#[derive(Debug)]
pub struct EvidenceFile {
    /// The file.
    pub file_id: i64,
    /// The post it belongs to.
    pub post_id: String,
    /// Where it was to go.
    pub target_path: String,
    /// The item it is bound to, if it is bound.
    pub evidence_item_id: Option<i64>,
    /// The expected size; zero where it is not known.
    pub expected_length: i64,
    /// The job that published it, if one did.
    pub publish_job_id: Option<i64>,
}

/// A job that published a file.
#[derive(Debug)]
pub struct PublishJob {
    /// The job.
    pub id: i64,
    /// The hash of the published file. A job that has none cannot be audited.
    pub artifact_blake3: Option<String>,
}

/// A binding whose job has no hash.
#[derive(Clone, Copy, PartialEq, Eq, Debug, Structural)]
pub struct UnreadableHash {
    /// The downloaded file.
    pub file_id: i64,
}

/// The item with an id.
pub open spec fn item_with(items: Seq<EvidenceItem>, id: i64) -> Option<EvidenceItem> {
    first(items, |i: EvidenceItem| i.id == id)
}

/// The job of a file.
pub open spec fn job_of(jobs: Seq<PublishJob>, id: Option<i64>) -> Option<PublishJob> {
    match id {
        Some(n) => first(jobs, |j: PublishJob| j.id == n),
        None => None,
    }
}

/// The item with an id.
fn find_item(items: &[EvidenceItem], id: i64) -> (r: Option<&EvidenceItem>)
    ensures
        match r {
            Some(i) => item_with(items@, id) == Some(*i),
            None => item_with(items@, id) is None,
        },
{
    let ghost wanted = |i: EvidenceItem| i.id == id;
    let mut i: usize = 0;
    while i < items.len()
        invariant
            i <= items@.len(),
            wanted == (|i: EvidenceItem| i.id == id),
            first(items@.take(i as int), wanted) is None,
        decreases items@.len() - i,
    {
        assert(items@.take(i as int + 1).drop_last() =~= items@.take(i as int));
        if items[i].id == id {
            proof {
                crate::tables::lemma_first_stays(items@, wanted, i as int + 1);
            }
            return Some(&items[i]);
        }
        i += 1;
    }
    assert(items@.take(items@.len() as int) =~= items@);
    None
}

/// The job of a file.
fn find_job(jobs: &[PublishJob], id: Option<i64>) -> (r: Option<&PublishJob>)
    ensures
        match r {
            Some(j) => job_of(jobs@, id) == Some(*j),
            None => job_of(jobs@, id) is None,
        },
{
    let n: i64 = match id {
        Some(n) => n,
        None => {
            return None;
        },
    };
    let ghost wanted = |j: PublishJob| j.id == n;
    assert(job_of(jobs@, id) == first(jobs@, wanted));
    let mut i: usize = 0;
    while i < jobs.len()
        invariant
            i <= jobs@.len(),
            wanted == (|j: PublishJob| j.id == n),
            job_of(jobs@, id) == first(jobs@, wanted),
            first(jobs@.take(i as int), wanted) is None,
        decreases jobs@.len() - i,
    {
        assert(jobs@.take(i as int + 1).drop_last() =~= jobs@.take(i as int));
        if jobs[i].id == n {
            proof {
                crate::tables::lemma_first_stays(jobs@, wanted, i as int + 1);
            }
            return Some(&jobs[i]);
        }
        i += 1;
    }
    assert(jobs@.take(jobs@.len() as int) =~= jobs@);
    None
}

/// A hash as it is compared: trimmed and in lower case; empty where there is
/// none.
pub open spec fn plain_hash(hash: Option<String>) -> Seq<char> {
    match hash {
        Some(h) => lower(trimmed(h@)),
        None => Seq::empty(),
    }
}

/// The class of a binding whose item was found to be there and unchanged, by the
/// hash of the item and that of the published file.
pub open spec fn hash_class(own: Seq<char>, published: Seq<char>) -> (
    BindingAuditStatus,
    Seq<char>,
) {
    if published.len() > 0 && own.len() == 0 {
        (
            BindingAuditStatus::IndexHashPending,
            "item content hash pending; expected blake3 is "@ + published,
        )
    } else if published.len() > 0 && own != published {
        (
            BindingAuditStatus::DefiniteMismatch,
            "item hash "@ + own + " does not match published artifact "@ + published,
        )
    } else if own.len() == 0 {
        (BindingAuditStatus::IndexHashPending, "item content hash pending"@)
    } else {
        (BindingAuditStatus::VerifiedMatch, Seq::empty())
    }
}

/// The class of a binding to an item and what is said of it, in the order in which
/// it is looked at. `None` where it comes to the hashes and the job has none.
pub open spec fn classified(
    bound_to: i64,
    expected_length: i64,
    item: Option<EvidenceItem>,
    job: Option<PublishJob>,
) -> Option<(BindingAuditStatus, Seq<char>)> {
    let id = decimal_int(bound_to as int);
    match item {
        None => Some(
            (
                BindingAuditStatus::ItemNotFound,
                "item id "@ + id + " not found in items table"@,
            ),
        ),
        Some(item) => if item.missing {
            Some(
                (
                    BindingAuditStatus::ItemFileMissing,
                    "item "@ + id + " is marked missing in library"@,
                ),
            )
        } else if item.file_path@.len() > 0 && item.disk_size is None {
            Some(
                (
                    BindingAuditStatus::ItemFileMissing,
                    "file does not exist on disk at "@ + item.file_path@,
                ),
            )
        } else if expected_length > 0 && item.file_size > 0 && expected_length != item.file_size {
            Some(
                (
                    BindingAuditStatus::FileChanged,
                    "expected size "@ + decimal_int(expected_length as int) + " != item size "@
                        + decimal_int(item.file_size as int),
                ),
            )
        } else if expected_length > 0 && item.disk_size is Some && item.disk_size->Some_0
            != expected_length {
            Some(
                (
                    BindingAuditStatus::FileChanged,
                    "expected size "@ + decimal_int(expected_length as int) + " != file size "@
                        + decimal_int(item.disk_size->Some_0 as int),
                ),
            )
        } else {
            let own = plain_hash(item.content_hash);
            match job {
                None => Some(hash_class(own, Seq::empty())),
                Some(j) => match j.artifact_blake3 {
                    None => None,
                    Some(_) => Some(hash_class(own, plain_hash(j.artifact_blake3))),
                },
            }
        },
    }
}

/// A hash as it is compared.
fn compared_hash(hash: &Option<String>) -> (r: Vec<char>)
    ensures
        r@ == plain_hash(*hash),
{
    match hash {
        Some(h) => to_lower(&trim_text(h)),
        None => Vec::new(),
    }
}

/// The class of a binding by its hashes.
fn classify_hashes(own: &Vec<char>, published: &Vec<char>) -> (r: (BindingAuditStatus, String))
    ensures
        (r.0, r.1@) == hash_class(own@, published@),
{
    let mut out = String::new();
    if published.len() > 0 {
        if own.len() == 0 {
            out.append("item content hash pending; expected blake3 is ");
            out.append(&text_of(published));
            assert(out@ =~= "item content hash pending; expected blake3 is "@ + published@);
            return (BindingAuditStatus::IndexHashPending, out);
        }
        if !same_chars(own, published) {
            out.append("item hash ");
            out.append(&text_of(own));
            out.append(" does not match published artifact ");
            out.append(&text_of(published));
            assert(out@ =~= "item hash "@ + own@ + " does not match published artifact "@
                + published@);
            return (BindingAuditStatus::DefiniteMismatch, out);
        }
    }
    if own.len() == 0 {
        out.append("item content hash pending");
        assert(out@ =~= "item content hash pending"@);
        (BindingAuditStatus::IndexHashPending, out)
    } else {
        (BindingAuditStatus::VerifiedMatch, out)
    }
}

/// The value of a class and what is said of it.
pub open spec fn class_view(r: Option<(BindingAuditStatus, String)>) -> Option<
    (BindingAuditStatus, Seq<char>),
> {
    match r {
        Some((status, detail)) => Some((status, detail@)),
        None => None,
    }
}

/// The class of a binding to an item and what is said of it.
pub fn classify_binding(
    bound_to: i64,
    expected_length: i64,
    item: Option<&EvidenceItem>,
    job: Option<&PublishJob>,
) -> (r: Option<(BindingAuditStatus, String)>)
    ensures
        class_view(r) == classified(
            bound_to,
            expected_length,
            match item {
                Some(i) => Some(*i),
                None => None,
            },
            match job {
                Some(j) => Some(*j),
                None => None,
            },
        ),
{
    let mut out = String::new();
    let item = match item {
        None => {
            out.append("item id ");
            push_decimal_int(bound_to, &mut out);
            out.append(" not found in items table");
            assert(out@ =~= "item id "@ + decimal_int(bound_to as int)
                + " not found in items table"@);
            return Some((BindingAuditStatus::ItemNotFound, out));
        },
        Some(item) => item,
    };
    if item.missing {
        out.append("item ");
        push_decimal_int(bound_to, &mut out);
        out.append(" is marked missing in library");
        assert(out@ =~= "item "@ + decimal_int(bound_to as int)
            + " is marked missing in library"@);
        return Some((BindingAuditStatus::ItemFileMissing, out));
    }
    if !item.file_path.as_str().is_empty() && item.disk_size.is_none() {
        out.append("file does not exist on disk at ");
        out.append(&item.file_path);
        assert(out@ =~= "file does not exist on disk at "@ + item.file_path@);
        return Some((BindingAuditStatus::ItemFileMissing, out));
    }
    if expected_length > 0 && item.file_size > 0 && expected_length != item.file_size {
        out.append("expected size ");
        push_decimal_int(expected_length, &mut out);
        out.append(" != item size ");
        push_decimal_int(item.file_size, &mut out);
        assert(out@ =~= "expected size "@ + decimal_int(expected_length as int)
            + " != item size "@ + decimal_int(item.file_size as int));
        return Some((BindingAuditStatus::FileChanged, out));
    }
    if let Some(size) = item.disk_size {
        if expected_length > 0 && size != expected_length {
            out.append("expected size ");
            push_decimal_int(expected_length, &mut out);
            out.append(" != file size ");
            push_decimal_int(size, &mut out);
            assert(out@ =~= "expected size "@ + decimal_int(expected_length as int)
                + " != file size "@ + decimal_int(size as int));
            return Some((BindingAuditStatus::FileChanged, out));
        }
    }
    let published = match job {
        None => Vec::new(),
        Some(j) => {
            if j.artifact_blake3.is_none() {
                return None;
            }
            compared_hash(&j.artifact_blake3)
        },
    };
    let own = compared_hash(&item.content_hash);
    assert(job is None ==> published@ =~= Seq::<char>::empty());
    Some(classify_hashes(&own, &published))
}

/// The class of the binding of a file in a library.
pub open spec fn class_in(f: EvidenceFile, items: Seq<EvidenceItem>, jobs: Seq<PublishJob>) -> Option<
    (BindingAuditStatus, Seq<char>),
> {
    match f.evidence_item_id {
        Some(id) => classified(
            id,
            f.expected_length,
            item_with(items, id),
            job_of(jobs, f.publish_job_id),
        ),
        None => None,
    }
}

/// How many bindings of a list are of a class.
pub open spec fn of_class(
    files: Seq<EvidenceFile>,
    items: Seq<EvidenceItem>,
    jobs: Seq<PublishJob>,
    status: BindingAuditStatus,
) -> int
    decreases files.len(),
{
    if files.len() == 0 {
        0
    } else {
        of_class(files.drop_last(), items, jobs, status) + match class_in(
            files.last(),
            items,
            jobs,
        ) {
            Some(c) => if c.0 == status {
                1int
            } else {
                0int
            },
            None => 0int,
        }
    }
}

/// The value of a shown binding.
pub open spec fn sample_view(s: EvidenceAuditSample) -> (
    i64,
    Seq<char>,
    Seq<char>,
    i64,
    BindingAuditStatus,
    Seq<char>,
) {
    (s.file_id, s.post_id@, s.target_path@, s.evidence_item_id, s.status, s.detail@)
}

/// The bindings of a list that are shown: the first ones that do not match.
pub open spec fn shown_samples(
    files: Seq<EvidenceFile>,
    items: Seq<EvidenceItem>,
    jobs: Seq<PublishJob>,
) -> Seq<(i64, Seq<char>, Seq<char>, i64, BindingAuditStatus, Seq<char>)>
    decreases files.len(),
{
    if files.len() == 0 {
        Seq::empty()
    } else {
        let before = shown_samples(files.drop_last(), items, jobs);
        let f = files.last();
        match (f.evidence_item_id, class_in(f, items, jobs)) {
            (Some(id), Some((status, detail))) => if status != BindingAuditStatus::VerifiedMatch
                && before.len() < MAX_SAMPLES {
                before.push((f.file_id, f.post_id@, f.target_path@, id, status, detail))
            } else {
                before
            },
            _ => before,
        }
    }
}

/// The values of shown bindings.
pub open spec fn sample_views(samples: Seq<EvidenceAuditSample>) -> Seq<
    (i64, Seq<char>, Seq<char>, i64, BindingAuditStatus, Seq<char>),
> {
    samples.map_values(|s: EvidenceAuditSample| sample_view(s))
}

/// Whether a report is that of a list of bindings.
pub open spec fn reports(
    r: EvidenceAuditReport,
    files: Seq<EvidenceFile>,
    items: Seq<EvidenceItem>,
    jobs: Seq<PublishJob>,
) -> bool {
    &&& r.audited_total == files.len()
    &&& r.verified_match == of_class(files, items, jobs, BindingAuditStatus::VerifiedMatch)
    &&& r.index_hash_pending == of_class(files, items, jobs, BindingAuditStatus::IndexHashPending)
    &&& r.file_changed == of_class(files, items, jobs, BindingAuditStatus::FileChanged)
    &&& r.definite_mismatch == of_class(files, items, jobs, BindingAuditStatus::DefiniteMismatch)
    &&& r.item_missing == of_class(files, items, jobs, BindingAuditStatus::ItemNotFound) + of_class(
        files,
        items,
        jobs,
        BindingAuditStatus::ItemFileMissing,
    )
    &&& sample_views(r.samples@) == shown_samples(files, items, jobs)
}

/// The document of a shown binding.
pub open spec fn sample_tree(s: EvidenceAuditSample) -> JsonTree {
    JsonTree::Object(
        seq![
            ("file_id"@, JsonTree::Int(s.file_id)),
            ("post_id"@, JsonTree::Text(s.post_id@)),
            ("target_path"@, JsonTree::Text(s.target_path@)),
            ("evidence_item_id"@, JsonTree::Int(s.evidence_item_id)),
            ("status"@, JsonTree::Text(s.status.spelled())),
            ("detail"@, JsonTree::Text(s.detail@)),
        ],
    )
}

/// The document of a report.
pub open spec fn report_tree(r: EvidenceAuditReport) -> JsonTree {
    JsonTree::Object(
        seq![
            ("audited_total"@, JsonTree::Number(decimal(r.audited_total as nat))),
            ("verified_match"@, JsonTree::Number(decimal(r.verified_match as nat))),
            ("index_hash_pending"@, JsonTree::Number(decimal(r.index_hash_pending as nat))),
            ("file_changed"@, JsonTree::Number(decimal(r.file_changed as nat))),
            ("definite_mismatch"@, JsonTree::Number(decimal(r.definite_mismatch as nat))),
            ("item_missing"@, JsonTree::Number(decimal(r.item_missing as nat))),
            (
                "samples"@,
                JsonTree::Array(r.samples@.map_values(|s: EvidenceAuditSample| sample_tree(s))),
            ),
        ],
    )
}

impl EvidenceAuditSample {
    /// The shown binding as a document.
    pub fn to_json(&self) -> (r: Json)
        ensures
            r.tree() == sample_tree(*self),
    {
        let mut members: Vec<(String, Json)> = Vec::new();
        members.push(entry("file_id", Json::Int(self.file_id)));
        members.push(entry("post_id", Json::Text(self.post_id.clone())));
        members.push(entry("target_path", Json::Text(self.target_path.clone())));
        members.push(entry("evidence_item_id", Json::Int(self.evidence_item_id)));
        members.push(entry("status", Json::Text(self.status.label().to_owned())));
        members.push(entry("detail", Json::Text(self.detail.clone())));
        let r = Json::Object(members);
        assert(r.tree()->Object_0 =~= sample_tree(*self)->Object_0);
        r
    }
}

impl EvidenceAuditReport {
    /// The report as a document.
    pub fn to_json(&self) -> (r: Json)
        ensures
            r.tree() == report_tree(*self),
    {
        let ghost shown = self.samples@.map_values(|s: EvidenceAuditSample| sample_tree(s));
        let mut samples: Vec<Json> = Vec::new();
        let mut i: usize = 0;
        while i < self.samples.len()
            invariant
                i <= self.samples@.len(),
                samples@.len() == i,
                forall|k: int| 0 <= k < i ==> (#[trigger] samples@[k]).tree() == sample_tree(
                    self.samples@[k],
                ),
            decreases self.samples@.len() - i,
        {
            samples.push(self.samples[i].to_json());
            i += 1;
        }
        let list = Json::Array(samples);
        assert(list.tree()->Array_0 =~= shown);
        let mut members: Vec<(String, Json)> = Vec::new();
        members.push(entry("audited_total", number(self.audited_total as u64)));
        members.push(entry("verified_match", number(self.verified_match as u64)));
        members.push(entry("index_hash_pending", number(self.index_hash_pending as u64)));
        members.push(entry("file_changed", number(self.file_changed as u64)));
        members.push(entry("definite_mismatch", number(self.definite_mismatch as u64)));
        members.push(entry("item_missing", number(self.item_missing as u64)));
        members.push(entry("samples", list));
        let r = Json::Object(members);
        assert(r.tree()->Object_0 =~= report_tree(*self)->Object_0);
        r
    }
}

/// How many bindings an audit looks at.
pub open spec fn audit_bound(limit: usize) -> int {
    if limit < 1 {
        1
    } else if limit > 5000 {
        5000
    } else {
        limit as int
    }
}

/// How many bindings an audit looks at.
pub fn audit_limit(limit: usize) -> (r: usize)
    ensures
        r == audit_bound(limit),
{
    if limit < 1 {
        1
    } else if limit > 5000 {
        5000
    } else {
        limit
    }
}

/// The files that an audit looks at: the first that are bound, up to a bound.
pub open spec fn audited_files(files: Seq<EvidenceFile>, bound: int) -> Seq<EvidenceFile>
    decreases files.len(),
{
    if files.len() == 0 {
        Seq::empty()
    } else {
        let before = audited_files(files.drop_last(), bound);
        if files.last().evidence_item_id is Some && before.len() < bound {
            before.push(files.last())
        } else {
            before
        }
    }
}

/// The files of a beginning come first.
proof fn lemma_audited_prefix(files: Seq<EvidenceFile>, bound: int, n: int)
    requires
        0 <= n <= files.len(),
    ensures
        audited_files(files.take(n), bound).len() <= audited_files(files, bound).len(),
        forall|i: int|
            0 <= i < audited_files(files.take(n), bound).len() ==> audited_files(
                files.take(n),
                bound,
            )[i] == #[trigger] audited_files(files, bound)[i],
    decreases files.len() - n,
{
    if n == files.len() {
        assert(files.take(n) =~= files);
    } else {
        assert(files.take(n + 1).drop_last() =~= files.take(n));
        lemma_audited_prefix(files, bound, n + 1);
        let short = audited_files(files.take(n), bound);
        let long = audited_files(files.take(n + 1), bound);
        assert forall|i: int| 0 <= i < short.len() implies short[i] == #[trigger] audited_files(
            files,
            bound,
        )[i] by {
            assert(short[i] == long[i]);
        }
    }
}

/// Whether every binding of a list has a class.
pub open spec fn all_classified(
    files: Seq<EvidenceFile>,
    items: Seq<EvidenceItem>,
    jobs: Seq<PublishJob>,
) -> bool {
    forall|i: int| 0 <= i < files.len() ==> class_in(#[trigger] files[i], items, jobs) is Some
}

/// Audits the bindings of downloaded files, which come in the order of their ids, up
/// to a limit. Fails at the first binding whose job has no hash where that counts.
pub fn audit_evidence_bindings(
    files: &[EvidenceFile],
    items: &[EvidenceItem],
    jobs: &[PublishJob],
    limit: usize,
) -> (r: Result<EvidenceAuditReport, UnreadableHash>)
    ensures
        ({
            let audited = audited_files(files@, audit_bound(limit));
            match r {
                Ok(report) => all_classified(audited, items@, jobs@) && reports(
                    report,
                    audited,
                    items@,
                    jobs@,
                ),
                Err(e) => exists|i: int|
                    0 <= i < audited.len() && (#[trigger] audited[i]).file_id == e.file_id
                        && class_in(audited[i], items@, jobs@) is None && all_classified(
                        audited.take(i),
                        items@,
                        jobs@,
                    ),
            }
        }),
{
    let bound: usize = audit_limit(limit);
    let samples: Vec<EvidenceAuditSample> = Vec::new();
    let mut report = EvidenceAuditReport {
        audited_total: 0,
        verified_match: 0,
        index_hash_pending: 0,
        file_changed: 0,
        definite_mismatch: 0,
        item_missing: 0,
        samples,
    };
    let mut i: usize = 0;
    let ghost mut done: Seq<EvidenceFile> = Seq::empty();
    assert(sample_views(report.samples@) =~= shown_samples(done, items@, jobs@));
    while i < files.len()
        invariant
            i <= files@.len(),
            bound == audit_bound(limit),
            done == audited_files(files@.take(i as int), bound as int),
            done.len() <= i,
            all_classified(done, items@, jobs@),
            reports(report, done, items@, jobs@),
            report.verified_match + report.index_hash_pending + report.file_changed
                + report.definite_mismatch + report.item_missing == done.len(),
        decreases files@.len() - i,
    {
        assert(files@.take(i as int + 1).drop_last() =~= files@.take(i as int));
        if let Some(id) = files[i].evidence_item_id {
            if report.audited_total < bound {
                let ghost now = done.push(files@[i as int]);
                assert(now.drop_last() =~= done);
                let item = find_item(items, id);
                let job = find_job(jobs, files[i].publish_job_id);
                let found = classify_binding(id, files[i].expected_length, item, job);
                assert(class_view(found) == class_in(files@[i as int], items@, jobs@));
                let (status, detail) = match found {
                    Some(class) => class,
                    None => {
                        proof {
                            let audited = audited_files(files@, bound as int);
                            lemma_audited_prefix(files@, bound as int, i as int + 1);
                            assert(audited_files(files@.take(i as int + 1), bound as int) == now);
                            assert(now[done.len() as int] == audited[done.len() as int]);
                            assert(audited.take(done.len() as int) =~= done) by {
                                assert forall|k: int| 0 <= k < done.len() implies done[k]
                                    == #[trigger] audited[k] by {
                                    assert(now[k] == done[k]);
                                }
                            }
                        }
                        return Err(UnreadableHash { file_id: files[i].file_id });
                    },
                };
                report.audited_total = report.audited_total + 1;
                match status {
                    BindingAuditStatus::VerifiedMatch => {
                        report.verified_match = report.verified_match + 1;
                    },
                    BindingAuditStatus::IndexHashPending => {
                        report.index_hash_pending = report.index_hash_pending + 1;
                    },
                    BindingAuditStatus::FileChanged => {
                        report.file_changed = report.file_changed + 1;
                    },
                    BindingAuditStatus::DefiniteMismatch => {
                        report.definite_mismatch = report.definite_mismatch + 1;
                    },
                    BindingAuditStatus::ItemNotFound => {
                        report.item_missing = report.item_missing + 1;
                    },
                    BindingAuditStatus::ItemFileMissing => {
                        report.item_missing = report.item_missing + 1;
                    },
                }
                let ghost before = report.samples@;
                assert(sample_views(before).len() == before.len());
                if status != BindingAuditStatus::VerifiedMatch && report.samples.len()
                    < MAX_SAMPLES {
                    let sample = EvidenceAuditSample {
                        file_id: files[i].file_id,
                        post_id: files[i].post_id.clone(),
                        target_path: files[i].target_path.clone(),
                        evidence_item_id: id,
                        status,
                        detail,
                    };
                    let ghost v = sample_view(sample);
                    report.samples.push(sample);
                    assert(sample_views(report.samples@) =~= sample_views(before).push(v));
                }
                proof {
                    assert(all_classified(now, items@, jobs@)) by {
                        assert forall|k: int| 0 <= k < now.len() implies class_in(
                            #[trigger] now[k],
                            items@,
                            jobs@,
                        ) is Some by {
                            if k < done.len() {
                                assert(now[k] == done[k]);
                            }
                        }
                    }
                    done = now;
                }
            }
        }
        i += 1;
    }
    assert(files@.take(files@.len() as int) =~= files@);
    Ok(report)
}

/// Every binding that is audited is counted in exactly one class.
pub proof fn audits_count_every_binding(
    files: Seq<EvidenceFile>,
    items: Seq<EvidenceItem>,
    jobs: Seq<PublishJob>,
)
    requires
        all_classified(files, items, jobs),
    ensures
        of_class(files, items, jobs, BindingAuditStatus::VerifiedMatch) + of_class(
            files,
            items,
            jobs,
            BindingAuditStatus::IndexHashPending,
        ) + of_class(files, items, jobs, BindingAuditStatus::FileChanged) + of_class(
            files,
            items,
            jobs,
            BindingAuditStatus::DefiniteMismatch,
        ) + of_class(files, items, jobs, BindingAuditStatus::ItemNotFound) + of_class(
            files,
            items,
            jobs,
            BindingAuditStatus::ItemFileMissing,
        ) == files.len(),
    decreases files.len(),
{
    if files.len() > 0 {
        let before = files.drop_last();
        assert forall|i: int| 0 <= i < before.len() implies class_in(
            #[trigger] before[i],
            items,
            jobs,
        ) is Some by {
            assert(before[i] == files[i]);
        }
        audits_count_every_binding(before, items, jobs);
        assert(class_in(files[files.len() - 1], items, jobs) is Some);
    }
}

/// A binding counts as verified only where its item is there and not marked
/// missing, neither the size of its file on disk nor the recorded one contradicts the
/// expected one, its hash is known, and it is the published hash where there is one.
pub proof fn verified_bindings_match(
    f: EvidenceFile,
    items: Seq<EvidenceItem>,
    jobs: Seq<PublishJob>,
)
    requires
        class_in(f, items, jobs) is Some,
        class_in(f, items, jobs)->Some_0.0 == BindingAuditStatus::VerifiedMatch,
    ensures
        f.evidence_item_id is Some,
        item_with(items, f.evidence_item_id->Some_0) is Some,
        ({
            let item = item_with(items, f.evidence_item_id->Some_0)->Some_0;
            &&& !item.missing
            &&& item.file_path@.len() > 0 ==> item.disk_size is Some
            &&& f.expected_length > 0 && item.disk_size is Some ==> item.disk_size
                == Some(f.expected_length)
            &&& f.expected_length > 0 && item.file_size > 0 ==> f.expected_length == item.file_size
            &&& plain_hash(item.content_hash).len() > 0
            &&& job_of(jobs, f.publish_job_id) matches Some(job) ==> plain_hash(
                job.artifact_blake3,
            ).len() > 0 ==> plain_hash(item.content_hash) == plain_hash(job.artifact_blake3)
        }),
{
}

/// A binding to a present item whose file on disk, or whose recorded size, is not of
/// the expected length counts as changed.
pub proof fn changed_sizes_are_reported(
    f: EvidenceFile,
    items: Seq<EvidenceItem>,
    jobs: Seq<PublishJob>,
)
    requires
        f.evidence_item_id is Some,
        item_with(items, f.evidence_item_id->Some_0) is Some,
        ({
            let item = item_with(items, f.evidence_item_id->Some_0)->Some_0;
            &&& !item.missing
            &&& item.disk_size is Some
            &&& f.expected_length > 0
            &&& item.disk_size != Some(f.expected_length) || (item.file_size > 0
                && item.file_size != f.expected_length)
        }),
    ensures
        class_in(f, items, jobs) is Some,
        class_in(f, items, jobs)->Some_0.0 == BindingAuditStatus::FileChanged,
{
}

/// Each binding is told exactly by what is found: an unknown item, a missing file, a size that
/// is not the expected one, a hash that is not the published one, a hash that is still owed,
/// or none of these.
pub proof fn bindings_are_told_by_what_is_found(
    bound_to: i64,
    expected_length: i64,
    item: EvidenceItem,
    job: Option<PublishJob>,
)
    requires
        job matches Some(j) ==> j.artifact_blake3 is Some,
    ensures
        classified(bound_to, expected_length, None, job) is Some,
        classified(bound_to, expected_length, None, job)->Some_0.0
            == BindingAuditStatus::ItemNotFound,
        classified(bound_to, expected_length, Some(item), job) is Some,
        ({
            let status = classified(bound_to, expected_length, Some(item), job)->Some_0.0;
            let gone = item.missing || (item.file_path@.len() > 0 && item.disk_size is None);
            let resized = expected_length > 0 && ((item.file_size > 0 && item.file_size
                != expected_length) || (item.disk_size matches Some(n) && n != expected_length));
            let own = plain_hash(item.content_hash);
            let published = match job {
                Some(j) => plain_hash(j.artifact_blake3),
                None => Seq::empty(),
            };
            let differs = own.len() > 0 && published.len() > 0 && own != published;
            &&& status == BindingAuditStatus::ItemFileMissing <==> gone
            &&& status == BindingAuditStatus::FileChanged <==> !gone && resized
            &&& status == BindingAuditStatus::DefiniteMismatch <==> !gone && !resized && differs
            &&& status == BindingAuditStatus::IndexHashPending <==> !gone && !resized && own.len()
                == 0
            &&& status == BindingAuditStatus::VerifiedMatch <==> !gone && !resized && own.len() > 0
                && !differs
        }),
{
}

/// A published job without a readable hash stops the audit only where nothing else was found
/// before the hashes are compared.
pub proof fn unreadable_hashes_stop_late(
    bound_to: i64,
    expected_length: i64,
    item: EvidenceItem,
    job: PublishJob,
)
    requires
        classified(bound_to, expected_length, Some(item), Some(job)) is None,
    ensures
        job.artifact_blake3 is None,
        !item.missing,
        item.file_path@.len() > 0 ==> item.disk_size is Some,
        expected_length > 0 && item.file_size > 0 ==> item.file_size == expected_length,
        expected_length > 0 && item.disk_size is Some ==> item.disk_size == Some(expected_length),
{
}

/// Hashes are compared without regard to case and to white space around them.
pub proof fn hashes_are_compared_plainly(a: String, b: String)
    requires
        lower(trimmed(a@)) == lower(trimmed(b@)),
    ensures
        plain_hash(Some(a)) == plain_hash(Some(b)),
        plain_hash(None).len() == 0,
{
}

/// The audited files are bound ones, in their order, at most as many as asked for; fewer only
/// where no more are bound.
pub proof fn audits_take_bound_files(files: Seq<EvidenceFile>, bound: int)
    requires
        bound >= 1,
    ensures
        audited_files(files, bound).len() <= bound,
        forall|i: int|
            0 <= i < audited_files(files, bound).len() ==> (#[trigger] audited_files(
                files,
                bound,
            )[i]).evidence_item_id is Some && files.contains(audited_files(files, bound)[i]),
        audited_files(files, bound).len() < bound ==> forall|i: int|
            0 <= i < files.len() && (#[trigger] files[i]).evidence_item_id is Some
                ==> audited_files(files, bound).contains(files[i]),
    decreases files.len(),
{
    if files.len() > 0 {
        let d = files.drop_last();
        let before = audited_files(d, bound);
        let now = audited_files(files, bound);
        audits_take_bound_files(d, bound);
        assert(files.contains(files.last())) by {
            assert(files[files.len() - 1] == files.last());
        }
        assert forall|i: int| 0 <= i < now.len() implies (#[trigger] now[i]).evidence_item_id is Some
            && files.contains(now[i]) by {
            if i < before.len() {
                assert(d.contains(before[i]));
                let k = d.index_of(before[i]);
                assert(files[k] == d[k]);
            }
        }
        if now.len() < bound {
            assert forall|i: int|
                0 <= i < files.len() && (
                #[trigger] files[i]).evidence_item_id is Some implies now.contains(files[i]) by {
                if i < d.len() {
                    assert(d[i] == files[i]);
                    assert(before.contains(d[i]));
                    let k = before.index_of(d[i]);
                    assert(now[k] == before[k]);
                } else {
                    assert(now[now.len() - 1] == files[i]);
                }
            }
        }
    }
}

/// The samples of a report are its bindings that do not match, at most fifty, each as its
/// binding is told; fewer than fifty only where every such binding is shown.
pub proof fn samples_show_what_does_not_match(
    files: Seq<EvidenceFile>,
    items: Seq<EvidenceItem>,
    jobs: Seq<PublishJob>,
)
    ensures
        shown_samples(files, items, jobs).len() <= 50,
        forall|k: int|
            0 <= k < shown_samples(files, items, jobs).len() ==> (#[trigger] shown_samples(
                files,
                items,
                jobs,
            )[k]).4 != BindingAuditStatus::VerifiedMatch,
        shown_samples(files, items, jobs).len() < 50 ==> forall|i: int|
            #![trigger files[i]]
            0 <= i < files.len() && files[i].evidence_item_id is Some && (class_in(
                files[i],
                items,
                jobs,
            ) matches Some(c) && c.0 != BindingAuditStatus::VerifiedMatch) ==> shown_samples(
                files,
                items,
                jobs,
            ).contains(
                (
                    files[i].file_id,
                    files[i].post_id@,
                    files[i].target_path@,
                    files[i].evidence_item_id->Some_0,
                    class_in(files[i], items, jobs)->Some_0.0,
                    class_in(files[i], items, jobs)->Some_0.1,
                ),
            ),
    decreases files.len(),
{
    if files.len() > 0 {
        let d = files.drop_last();
        let before = shown_samples(d, items, jobs);
        let now = shown_samples(files, items, jobs);
        samples_show_what_does_not_match(d, items, jobs);
        if now.len() < 50 {
            assert forall|i: int|
                #![trigger files[i]]
                0 <= i < files.len() && files[i].evidence_item_id is Some && (class_in(
                    files[i],
                    items,
                    jobs,
                ) matches Some(c) && c.0 != BindingAuditStatus::VerifiedMatch) implies now.contains(
                (
                    files[i].file_id,
                    files[i].post_id@,
                    files[i].target_path@,
                    files[i].evidence_item_id->Some_0,
                    class_in(files[i], items, jobs)->Some_0.0,
                    class_in(files[i], items, jobs)->Some_0.1,
                ),
            ) by {
                let row = (
                    files[i].file_id,
                    files[i].post_id@,
                    files[i].target_path@,
                    files[i].evidence_item_id->Some_0,
                    class_in(files[i], items, jobs)->Some_0.0,
                    class_in(files[i], items, jobs)->Some_0.1,
                );
                if i < d.len() {
                    assert(d[i] == files[i]);
                    assert(before.contains(row));
                    let k = before.index_of(row);
                    assert(now[k] == before[k]);
                } else {
                    assert(now[now.len() - 1] == row);
                }
            }
        }
    }
}

/// An audit takes as many files as is asked for, from one up to five thousand.
pub proof fn audits_have_limits(limit: usize, more: usize)
    requires
        limit <= more,
    ensures
        1 <= audit_bound(limit) <= 5000,
        1 <= limit <= 5000 ==> audit_bound(limit) == limit,
        audit_bound(limit) <= audit_bound(more),
{
}

/// A file more is counted under its own class alone.
pub proof fn files_are_counted_by_class(
    files: Seq<EvidenceFile>,
    f: EvidenceFile,
    items: Seq<EvidenceItem>,
    jobs: Seq<PublishJob>,
    status: BindingAuditStatus,
)
    ensures
        of_class(Seq::empty(), items, jobs, status) == 0,
        of_class(files.push(f), items, jobs, status) == of_class(files, items, jobs, status) + if (
        class_in(f, items, jobs) matches Some(c) && c.0 == status) {
            1int
        } else {
            0
        },
{
    assert(files.push(f).drop_last() =~= files);
}

/// A binding is judged by the item that it names and by the job that published it.
pub proof fn bindings_are_judged_by_their_own(
    f: EvidenceFile,
    items: Seq<EvidenceItem>,
    jobs: Seq<PublishJob>,
    k: int,
    j: int,
)
    requires
        0 <= k < items.len(),
        0 <= j < jobs.len(),
        f.evidence_item_id == Some(items[k].id),
        f.publish_job_id == Some(jobs[j].id),
        forall|i: int| 0 <= i < k ==> (#[trigger] items[i]).id != items[k].id,
        forall|i: int| 0 <= i < j ==> (#[trigger] jobs[i]).id != jobs[j].id,
    ensures
        class_in(f, items, jobs) == classified(
            items[k].id,
            f.expected_length,
            Some(items[k]),
            Some(jobs[j]),
        ),
        class_in(EvidenceFile { publish_job_id: None, ..f }, items, jobs) == classified(
            items[k].id,
            f.expected_length,
            Some(items[k]),
            None,
        ),
{
    lemma_first_item(items, items[k].id, k);
    lemma_first_job(jobs, jobs[j].id, j);
}

/// The first item with a number.
proof fn lemma_first_item(items: Seq<EvidenceItem>, id: i64, k: int)
    requires
        0 <= k < items.len(),
        items[k].id == id,
        forall|i: int| 0 <= i < k ==> (#[trigger] items[i]).id != id,
    ensures
        item_with(items, id) == Some(items[k]),
{
    let wanted = |i: EvidenceItem| i.id == id;
    let head = items.take(k + 1);
    crate::tables::lemma_first(items.take(k), wanted);
    if first(items.take(k), wanted) is Some {
        let x = first(items.take(k), wanted)->Some_0;
        let i = items.take(k).index_of(x);
        assert(items[i].id == id);
    }
    assert(head.drop_last() =~= items.take(k));
    assert(first(head, wanted) == Some(items[k]));
    crate::tables::lemma_first_stays(items, wanted, k + 1);
}

/// The first job with a number.
proof fn lemma_first_job(jobs: Seq<PublishJob>, id: i64, k: int)
    requires
        0 <= k < jobs.len(),
        jobs[k].id == id,
        forall|i: int| 0 <= i < k ==> (#[trigger] jobs[i]).id != id,
    ensures
        job_of(jobs, Some(id)) == Some(jobs[k]),
{
    let wanted = |j: PublishJob| j.id == id;
    let head = jobs.take(k + 1);
    crate::tables::lemma_first(jobs.take(k), wanted);
    if first(jobs.take(k), wanted) is Some {
        let x = first(jobs.take(k), wanted)->Some_0;
        let i = jobs.take(k).index_of(x);
        assert(jobs[i].id == id);
    }
    assert(head.drop_last() =~= jobs.take(k));
    assert(first(head, wanted) == Some(jobs[k]));
    crate::tables::lemma_first_stays(jobs, wanted, k + 1);
}

/// The counts of a report add up to the bindings that were audited, and where all of them are of
/// one class, its count has them all.
pub proof fn reports_add_up(
    r: EvidenceAuditReport,
    files: Seq<EvidenceFile>,
    items: Seq<EvidenceItem>,
    jobs: Seq<PublishJob>,
)
    requires
        all_classified(files, items, jobs),
        reports(r, files, items, jobs),
    ensures
        r.audited_total == files.len(),
        r.verified_match + r.index_hash_pending + r.file_changed + r.definite_mismatch
            + r.item_missing == r.audited_total,
        (forall|i: int|
            0 <= i < files.len() ==> class_in(#[trigger] files[i], items, jobs)->Some_0.0
                == BindingAuditStatus::VerifiedMatch) ==> r.verified_match == r.audited_total,
        (forall|i: int|
            0 <= i < files.len() ==> class_in(#[trigger] files[i], items, jobs)->Some_0.0
                == BindingAuditStatus::IndexHashPending) ==> r.index_hash_pending
            == r.audited_total,
        (forall|i: int|
            0 <= i < files.len() ==> class_in(#[trigger] files[i], items, jobs)->Some_0.0
                == BindingAuditStatus::FileChanged) ==> r.file_changed == r.audited_total,
        (forall|i: int|
            0 <= i < files.len() ==> class_in(#[trigger] files[i], items, jobs)->Some_0.0
                == BindingAuditStatus::DefiniteMismatch) ==> r.definite_mismatch == r.audited_total,
{
    audits_count_every_binding(files, items, jobs);
    lemma_one_class(files, items, jobs, BindingAuditStatus::VerifiedMatch);
    lemma_one_class(files, items, jobs, BindingAuditStatus::IndexHashPending);
    lemma_one_class(files, items, jobs, BindingAuditStatus::FileChanged);
    lemma_one_class(files, items, jobs, BindingAuditStatus::DefiniteMismatch);
}

/// Where all bindings are of one class, it counts them all.
proof fn lemma_one_class(
    files: Seq<EvidenceFile>,
    items: Seq<EvidenceItem>,
    jobs: Seq<PublishJob>,
    status: BindingAuditStatus,
)
    requires
        all_classified(files, items, jobs),
    ensures
        (forall|i: int|
            0 <= i < files.len() ==> class_in(#[trigger] files[i], items, jobs)->Some_0.0 == status)
            ==> of_class(files, items, jobs, status) == files.len(),
    decreases files.len(),
{
    if files.len() > 0 && forall|i: int|
        0 <= i < files.len() ==> class_in(#[trigger] files[i], items, jobs)->Some_0.0 == status {
        let d = files.drop_last();
        assert forall|i: int| 0 <= i < d.len() implies class_in(#[trigger] d[i], items, jobs) is Some
            && class_in(d[i], items, jobs)->Some_0.0 == status by {
            assert(d[i] == files[i]);
        }
        lemma_one_class(d, items, jobs, status);
        assert(class_in(files[files.len() - 1], items, jobs) is Some);
        assert(files.last() == files[files.len() - 1]);
    }
}

}
