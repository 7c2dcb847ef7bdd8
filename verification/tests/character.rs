//! Character recognition.

use gallery_accel::character_ccip::{
    active_device, active_provider, allow_cpu_fallback, append_fallback_reason,
    character_model_path, core_attempts, core_code, core_label_to_type, embedding_model_meta,
    embedding_start, ensure_ort_loaded, env_bool, force_cpu_only, idle_check_interval,
    load_session, model_idle_timeout, note_once, openvino_active_device, openvino_cache_dir,
    openvino_device_type, ort_core_type, ort_dylib_candidates, requested_provider_raw,
    session_status, want_cuda, want_openvino, CcipSession, CcipSessionSlot, CoreDecision,
    InitOutcome, LoadAction, LoadEvent, LoadSettings, LoadStage, LoadState, ModelSettings,
    OrtCoreType, StatusReason,
};
use gallery_accel::character_ranking::{
    cached_reference_index, embed_item_source, frame_file_name, keeps_reference_index,
    load_index_vectors, prediction_counts, rank_characters, recognize_character_native,
    reference_cache_key, reference_table_signature, RecognitionReason, RecognitionSource, RecognitionStatus,
    ReferenceRow, ScoreTests, ScoredReference,
};
use gallery_accel::gpu_access::{gpu_access_probe, gpu_block, DriNode};

const SECOND: u128 = 1_000_000_000;

#[test]
fn session_slot_unloads_only_after_idle_timeout() {
    let now: u128 = 100 * SECOND;
    let mut slot = CcipSessionSlot {
        session: Some(Err("test session".into())),
        last_used: Some(now - 10 * SECOND),
    };
    assert!(!slot.unload_if_idle(now, 11 * SECOND));
    assert!(slot.unload_if_idle(now, 10 * SECOND));
    assert!(slot.session.is_none());
}

#[test]
fn cpu_fallback_allowed_by_default_and_prefers_new_var() {
    // Neither variable set -> default allows CPU fallback.
    assert!(allow_cpu_fallback(None, None));
    assert!(!allow_cpu_fallback(Some("0"), Some("1")));
    assert!(!allow_cpu_fallback(None, Some("0")));
}

#[test]
fn provider_aliases_map_gpu_to_openvino_not_cuda() {
    for (raw, cuda, openvino) in [
        ("auto", true, true),
        ("cuda", true, false),
        ("nvidia", true, false),
        ("cudaexecutionprovider", true, false),
        ("openvino", false, true),
        ("intel", false, true),
        ("gpu", false, true),
        ("openvinoexecutionprovider", false, true),
        ("cpu", false, false),
        ("cpuexecutionprovider", false, false),
    ] {
        assert_eq!(want_cuda(Some(raw)), cuda, "want_cuda({raw})");
        assert_eq!(want_openvino(Some(raw)), openvino, "want_openvino({raw})");
    }
    assert!(want_openvino(Some("")));
}

#[test]
fn clear_failed_session_cache_removes_error_state_only() {
    let mut slot = CcipSessionSlot::empty();
    slot.session = Some(Err("previous failure".into()));
    slot.last_used = Some(1);
    slot.clear_failed_session_cache();
    assert!(slot.session.is_none(), "failed cache must be cleared");
    assert!(slot.last_used.is_none());
    // An empty slot stays untouched (no successful session to unload).
    slot.clear_failed_session_cache();
    assert!(slot.session.is_none());
}

#[test]
fn rank_picks_best_character() {
    let refs = vec![
        ScoredReference { character_id: 1, reference_id: 10, score: 900 },
        ScoredReference { character_id: 2, reference_id: 20, score: 100 },
        ScoredReference { character_id: 1, reference_id: 11, score: 1000 },
    ];
    let ranked = rank_characters(&refs, 2);
    assert_eq!(ranked[0].character_id, 1);
    assert_eq!(ranked[0].reference_id, 11);
    assert_eq!(ranked.len(), 2);
    assert_eq!(rank_characters(&refs, 1).len(), 1);
    assert_eq!(rank_characters(&[], 5).len(), 0);
}

#[test]
fn settings_have_defaults() {
    let none = ModelSettings {
        model_dir: None, cache_root: None, variant: None, file: None, repo_id: None,
    };
    assert_eq!(
        character_model_path(none),
        "data/models/character/ccip-caformer_b36-24/model_feat.onnx"
    );
    let some = ModelSettings { cache_root: Some("/cache"), file: Some("m.onnx"), ..none };
    assert_eq!(character_model_path(some), "/cache/character/ccip-caformer_b36-24/m.onnx");
    assert_eq!(embedding_model_meta(none).0, "deepghs/ccip_onnx");
    assert_eq!(model_idle_timeout(None), 600);
    assert_eq!(model_idle_timeout(Some(" 30 ")), 30);
    assert_eq!(model_idle_timeout(Some("soon")), 600);
    assert_eq!(idle_check_interval(0), None);
    assert_eq!(idle_check_interval(30), Some(30));
    assert_eq!(idle_check_interval(600), Some(60));
    assert!(env_bool(Some(" YES "), false));
    assert!(!env_bool(Some("no"), true));
    assert!(env_bool(None, true));
    assert!(force_cpu_only(Some("CPU")));
    assert_eq!(requested_provider_raw(None), "auto");
    assert_eq!(openvino_device_type(Some("  ")), "GPU");
    assert_eq!(openvino_device_type(Some(" NPU ")), "NPU");
    assert_eq!(openvino_cache_dir(None), None);
    assert_eq!(active_provider(None), "unknown");
    assert_eq!(active_device(Some("cpu")), "cpu");
    assert_eq!(openvino_active_device("gpu.1"), "gpu:0:openvino:gpu.1");
    assert_eq!(openvino_active_device("CPU"), "openvino:CPU");
}

#[test]
fn cores_are_known_by_number_and_word() {
    assert_eq!(ort_core_type(0), None);
    for core in [OrtCoreType::Cpu, OrtCoreType::OpenVino, OrtCoreType::Cuda] {
        assert_eq!(ort_core_type(core_code(core)), Some(core.label()));
        assert_eq!(core_label_to_type(core.label()), core);
    }
    assert_eq!(core_label_to_type("other"), OrtCoreType::Cpu);
    let mut noted = None;
    note_once(&mut noted, "first");
    note_once(&mut noted, "second");
    assert_eq!(noted.as_deref(), Some("first"));
}

#[test]
fn cores_are_tried_in_order() {
    let places = ort_dylib_candidates(Some("/opt/ort.so"), Some("/app"));
    assert_eq!(places[0], "/opt/ort.so");
    assert_eq!(places[1], "/app/libonnxruntime.so");
    assert_eq!(places.last().unwrap(), "libonnxruntime.so");
    assert_eq!(places.len(), 6);
    let attempts = core_attempts(Some("auto"), Some("/cuda.so"), &["/opt/ort.so".to_string()]);
    assert_eq!(attempts.len(), 3);
    assert_eq!(attempts[0].core, OrtCoreType::Cuda);
    assert_eq!(core_attempts(Some("openvino"), Some("/cuda.so"), &[]).len(), 1);
    match ensure_ort_loaded(None, &attempts, &[]) {
        CoreDecision::Attempt(i) => assert_eq!(i, 0),
        other => panic!("{other:?}"),
    }
    let outcomes = vec![InitOutcome::Failed("no driver".into()), InitOutcome::NotCommitted];
    match ensure_ort_loaded(None, &attempts, &outcomes) {
        CoreDecision::Attempt(i) => assert_eq!(i, 2),
        other => panic!("{other:?}"),
    }
    let outcomes = vec![
        InitOutcome::Failed("no driver".into()), InitOutcome::NotCommitted, InitOutcome::Committed,
    ];
    match ensure_ort_loaded(None, &attempts, &outcomes) {
        CoreDecision::Locked(core, complaint) => {
            assert_eq!(core, OrtCoreType::Cpu);
            assert_eq!(complaint.as_deref(), Some("/opt/ort.so: commit returned false"));
        }
        other => panic!("{other:?}"),
    }
    let outcomes = vec![
        InitOutcome::Failed("a".into()), InitOutcome::NotCommitted, InitOutcome::NotCommitted,
    ];
    assert!(matches!(ensure_ort_loaded(None, &attempts, &outcomes), CoreDecision::Exhausted));
    assert!(matches!(
        ensure_ort_loaded(Some(OrtCoreType::OpenVino), &attempts, &[]),
        CoreDecision::Locked(OrtCoreType::OpenVino, None)
    ));
}

fn settings() -> LoadSettings {
    LoadSettings {
        force_cpu: false,
        want_cuda: true,
        want_openvino: true,
        auto_provider: true,
        allow_fallback: true,
        intel_gpu: false,
    }
}

fn start() -> LoadState {
    LoadState { stage: LoadStage::Start, reasons: None }
}

#[test]
fn sessions_fall_back_to_the_processor() {
    let s = settings();
    let (state, action) = load_session(s, start(), LoadEvent::Begin(false));
    assert!(matches!(action, LoadAction::WaitForModel));
    let (state, action) = load_session(s, state, LoadEvent::Waited);
    assert!(matches!(action, LoadAction::WaitForCuda));
    let (state, action) = load_session(s, state, LoadEvent::Waited);
    assert!(matches!(action, LoadAction::CheckModel));
    let (state, action) = load_session(s, state, LoadEvent::Model(true));
    assert!(matches!(action, LoadAction::ChooseCore));
    let (state, action) =
        load_session(s, state, LoadEvent::Core(OrtCoreType::Cuda, Some("x: old".into())));
    assert!(matches!(action, LoadAction::BuildCuda));
    let (state, action) = load_session(s, state, LoadEvent::Failed("no memory".into()));
    assert!(matches!(action, LoadAction::BuildCpu));
    let (state, action) = load_session(s, state, LoadEvent::Made);
    match action {
        LoadAction::Done(reasons) => assert_eq!(
            reasons.as_deref(),
            Some("x: old; CUDAExecutionProvider failed: no memory")
        ),
        other => panic!("{other:?}"),
    }
    assert_eq!(state.stage, LoadStage::Over);
}

#[test]
fn sessions_stop_where_no_fallback_is_allowed() {
    let s = LoadSettings { allow_fallback: false, auto_provider: false, want_cuda: false, ..settings() };
    let (state, _) = load_session(s, start(), LoadEvent::Begin(true));
    let (state, _) = load_session(s, state, LoadEvent::Model(true));
    let (state, action) = load_session(s, state, LoadEvent::Core(OrtCoreType::OpenVino, None));
    assert!(matches!(action, LoadAction::BuildOpenVino));
    let (_, action) = load_session(s, state, LoadEvent::Failed("denied".into()));
    match action {
        LoadAction::Fail(e) => assert_eq!(e, "denied"),
        other => panic!("{other:?}"),
    }
    let (state, _) = load_session(s, start(), LoadEvent::Begin(true));
    let (_, action) = load_session(s, state, LoadEvent::Model(false));
    assert!(matches!(action, LoadAction::ModelMissing));
    let auto = settings();
    let (state, _) = load_session(auto, start(), LoadEvent::Begin(true));
    let (state, _) = load_session(auto, state, LoadEvent::Waited);
    let (state, _) = load_session(auto, state, LoadEvent::Model(true));
    let (_, action) = load_session(auto, state, LoadEvent::Core(OrtCoreType::OpenVino, None));
    assert!(matches!(action, LoadAction::BuildCpu));
    let (_, action) = load_session(auto, start(), LoadEvent::Made);
    assert!(matches!(action, LoadAction::Ignore));
}

#[test]
fn the_status_tells_of_the_session() {
    let mut slot = CcipSessionSlot::empty();
    assert_eq!(session_status(false, true, &slot, false, 0).reason, StatusReason::Disabled);
    assert_eq!(session_status(true, false, &slot, false, 0).reason, StatusReason::ModelNotFound);
    assert_eq!(session_status(true, true, &slot, true, 0).reason, StatusReason::Preparing);
    assert_eq!(session_status(true, true, &slot, false, 0).reason, StatusReason::IdleUnloaded);
    assert_eq!(slot.with_session(1).unwrap_err(), "session not initialized");
    slot = CcipSessionSlot::empty();
    slot.keep(
        Ok(CcipSession {
            provider: "CPUExecutionProvider".into(),
            active_device: "cpu".into(),
            fallback_reason: None,
        }),
        SECOND,
    );
    slot.keep(Err("late".into()), 2 * SECOND);
    let status = session_status(true, true, &slot, false, 5 * SECOND);
    assert!(status.session_loaded());
    assert_eq!(status.reason.label(), "ready");
    assert_eq!(status.actual_provider, "CPUExecutionProvider");
    assert_eq!(status.idle_seconds, Some(4));
    assert!(slot.with_session(9).is_ok());
    assert_eq!(slot.last_used, Some(9));
    assert!(!slot.unload_if_idle(u128::MAX, 0));
    let failed = CcipSessionSlot { session: Some(Err("bad".into())), last_used: Some(0) };
    let status = session_status(true, true, &failed, false, SECOND);
    assert_eq!(status.actual_provider, "none");
    assert_eq!(status.error.as_deref(), Some("bad"));
    let mut reasons = None;
    append_fallback_reason(&mut reasons, "a");
    append_fallback_reason(&mut reasons, "b");
    assert_eq!(reasons.as_deref(), Some("a; b"));
}

#[test]
fn embeddings_are_taken_from_the_end() {
    assert_eq!(embedding_start(768), Ok(0));
    assert_eq!(embedding_start(770), Ok(2));
    assert_eq!(embedding_start(3), Err("unexpected embedding size 3 (want 768)".to_string()));
}

#[test]
fn access_to_devices_is_told() {
    let node = |name: &str, open_ok: bool| DriNode { name: name.to_string(), open_ok };
    let none = gpu_access_probe(&[], None, None);
    assert!(!none.ready);
    assert_eq!(none.message, "no /dev/dri nodes (no Intel GPU device nodes visible)");
    let status = "Name:\tx\nUid:\t1000\t1000\nGroups:\t44 109 \n";
    let groups = "root:x:0:\nvideo:x:44:me\nrender:x:109:\nbroken\n";
    let open = gpu_access_probe(&[node("renderD128", true)], Some(status), Some(groups));
    assert!(open.ready);
    assert_eq!(open.process_groups, vec!["video", "render"]);
    assert!(open.has_render_group && open.has_video_group);
    assert_eq!(open.uid_status, "Uid:\t1000\t1000");
    assert_eq!(open.message, "render device open ok");
    assert_eq!(gpu_block("GPU", &open), None);
    let denied = gpu_access_probe(&[node("card0", false), node("by-path", true)], Some(status), None);
    assert!(!denied.ready);
    assert_eq!(
        gpu_block("GPU", &denied).unwrap(),
        "OpenVINO device_type=GPU blocked: cannot open /dev/dri (missing render/video group or sg render at start)"
    );
    assert_eq!(gpu_block("CPU", &denied), None);
    let root = gpu_access_probe(&[node("card0", true)], None, Some(groups));
    assert_eq!(
        root.message,
        "/dev/dri open ok but process not in render group (may still work if root)"
    );
}

#[test]
fn items_are_looked_at_by_kind() {
    assert_eq!(embed_item_source("", false), Ok(RecognitionSource::Image));
    assert_eq!(embed_item_source("image", false), Ok(RecognitionSource::Image));
    assert_eq!(embed_item_source("video", false), Ok(RecognitionSource::VideoFrame));
    assert!(embed_item_source("", true).is_err());
    assert_eq!(
        embed_item_source("audio", false).unwrap_err(),
        "Item media type is not supported for character recognition"
    );
    let name = frame_file_name(7);
    assert!(name.starts_with("gallery-ccip-7-") && name.ends_with(".jpg"));
    assert_ne!(name, frame_file_name(7));
}

#[test]
fn references_of_other_models_do_not_count() {
    let row = |variant: &str, file: Option<&str>, repo: &str, dim: i64, readable: bool| ReferenceRow {
        embedding_dim: Some(dim),
        repo_id: Some(repo.to_string()),
        variant: Some(variant.to_string()),
        file: file.map(|f| f.to_string()),
        readable,
    };
    let rows = vec![
        row("v", Some("f"), "r", 768, true),
        row("v", None, "x", 768, true),
        row("v", Some(""), "x", 768, true),
        row("v", Some("g"), "r", 768, true),
        row("v", Some("g"), "x", 768, true),
        row("w", Some("f"), "r", 768, true),
        row("v", Some("f"), "r", 512, true),
        row("v", Some("f"), "r", 768, false),
    ];
    assert_eq!(load_index_vectors(&rows, "r", "v", "f", false), vec![0, 1, 2, 3]);
    let others = vec![row("w", Some("f"), "r", 768, true)];
    assert_eq!(load_index_vectors(&others, "r", "v", "f", false), Vec::<usize>::new());
    assert_eq!(load_index_vectors(&others, "r", "v", "f", true), vec![0]);
    let signature = reference_table_signature(3, 9, 4, -7);
    assert_eq!(signature, "3:9:4:-7");
    let key = reference_cache_key(Some("C:\\data\\g.db"), &signature);
    assert_eq!(key.as_deref(), Some("C:/data/g.db|3:9:4:-7"));
    assert_eq!(reference_cache_key(None, &signature), None);
    assert!(cached_reference_index(key.as_deref(), key.as_deref()));
    assert!(!cached_reference_index(None, None));
    assert!(keeps_reference_index(1, false));
    assert!(!keeps_reference_index(0, false));
    assert!(keeps_reference_index(0, true));
}

#[test]
fn decisions_follow_the_scores() {
    let tests = |a: bool, b: bool, c: bool| ScoreTests {
        reaches_threshold: a,
        comes_near: b,
        has_gap: c,
        lacks_gap: !c,
    };
    let d = recognize_character_native(true, Some(4), tests(true, true, true));
    assert_eq!((d.status, d.stored, d.shown), (RecognitionStatus::Accepted, Some(4), Some(4)));
    let d = recognize_character_native(true, Some(4), tests(true, true, false));
    assert_eq!((d.status, d.reason), (RecognitionStatus::NeedsReview, RecognitionReason::LowGap));
    assert_eq!((d.stored, d.shown), (None, Some(4)));
    let d = recognize_character_native(true, Some(4), tests(false, true, true));
    assert_eq!(d.reason.label(), "low_score");
    let d = recognize_character_native(true, Some(4), tests(false, false, true));
    assert_eq!((d.status.label(), d.reason.label()), ("unknown", "below_threshold"));
    let d = recognize_character_native(true, None, tests(true, true, true));
    assert_eq!(d.reason, RecognitionReason::NoReferences);
    let d = recognize_character_native(false, Some(4), tests(true, true, true));
    assert_eq!(d.status, RecognitionStatus::Unavailable);
    assert_eq!(prediction_counts(0), (1, 2));
    assert_eq!(prediction_counts(5), (5, 5));
    assert_eq!(prediction_counts(99), (20, 20));
}
