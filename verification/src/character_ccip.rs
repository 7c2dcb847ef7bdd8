//! The runtime of character recognition: its settings, the core that a process
//! is locked to, and the session with the model.

use vstd::prelude::*;
use crate::archive_ops::optional;
use crate::db::{number_setting, read_number_setting};
use crate::folder_archive::{join_path, path_joined};
use crate::text::{
    chars_of, contains_text, decimal, has_text, lower, push_decimal, same_chars, same_text,
    text_of, texts, to_lower, to_upper, trim_text, trimmed, upper,
};

verus! {

/// The value of an optional text.
pub open spec fn given(value: Option<&str>) -> Option<Seq<char>> {
    match value {
        Some(v) => Some(v@),
        None => None,
    }
}

/// The value of an optional text of one's own.
pub open spec fn held(value: Option<String>) -> Option<Seq<char>> {
    match value {
        Some(v) => Some(v@),
        None => None,
    }
}

/// The text that is given, or a default.
pub open spec fn or_default(value: Option<Seq<char>>, default: Seq<char>) -> Seq<char> {
    match value {
        Some(v) => v,
        None => default,
    }
}

/// The text that is given, or a default.
fn text_or(value: Option<&str>, default: &str) -> (r: String)
    ensures
        r@ == or_default(given(value), default@),
{
    match value {
        Some(v) => v.to_owned(),
        None => default.to_owned(),
    }
}

/// How many numbers an embedding has.
pub const CCIP_EMBEDDING_DIM: usize = 768;

/// After how many seconds without use the model is unloaded.
pub const DEFAULT_MODEL_IDLE_TIMEOUT_SECONDS: u64 = 600;

/// The runtime core that a process is locked to. A process has one core for all
/// its time.
#[derive(Clone, Copy, PartialEq, Eq, Debug, Structural)]
pub enum OrtCoreType {
    /// The default core.
    Cpu,
    /// The bundled core.
    OpenVino,
    /// The core for NVIDIA devices.
    Cuda,
}

impl OrtCoreType {
    /// The word for a core.
    pub open spec fn word(self) -> Seq<char> {
        match self {
            OrtCoreType::Cpu => "cpu"@,
            OrtCoreType::OpenVino => "openvino"@,
            OrtCoreType::Cuda => "cuda"@,
        }
    }

    /// The word for a core.
    pub fn label(self) -> (r: &'static str)
        ensures
            r@ == self.word(),
    {
        match self {
            OrtCoreType::Cpu => "cpu",
            OrtCoreType::OpenVino => "openvino",
            OrtCoreType::Cuda => "cuda",
        }
    }
}

/// The core that a stored number stands for.
pub open spec fn core_of(code: u8) -> Option<OrtCoreType> {
    if code == 1 {
        Some(OrtCoreType::Cpu)
    } else if code == 2 {
        Some(OrtCoreType::OpenVino)
    } else if code == 3 {
        Some(OrtCoreType::Cuda)
    } else {
        None
    }
}

/// The number under which a core is stored; zero stands for none.
pub fn core_code(core: OrtCoreType) -> (r: u8)
    ensures
        core_of(r) == Some(core),
{
    match core {
        OrtCoreType::Cpu => 1,
        OrtCoreType::OpenVino => 2,
        OrtCoreType::Cuda => 3,
    }
}

/// The word for the core that a stored number stands for.
pub fn ort_core_type(code: u8) -> (r: Option<&'static str>)
    ensures
        given(r) == (match core_of(code) {
            Some(c) => Some(c.word()),
            None => None,
        }),
{
    if code == 1 {
        Some(OrtCoreType::Cpu.label())
    } else if code == 2 {
        Some(OrtCoreType::OpenVino.label())
    } else if code == 3 {
        Some(OrtCoreType::Cuda.label())
    } else {
        None
    }
}

/// The core that a word stands for: the default one for a word that is not
/// known.
pub fn core_label_to_type(label: &str) -> (r: OrtCoreType)
    ensures
        r == (if label@ == OrtCoreType::Cuda.word() {
            OrtCoreType::Cuda
        } else if label@ == OrtCoreType::OpenVino.word() {
            OrtCoreType::OpenVino
        } else {
            OrtCoreType::Cpu
        }),
{
    if same_text(label, "cuda") {
        OrtCoreType::Cuda
    } else if same_text(label, "openvino") {
        OrtCoreType::OpenVino
    } else {
        OrtCoreType::Cpu
    }
}

/// A core is known again by its word.
pub proof fn core_words_are_distinct(a: OrtCoreType, b: OrtCoreType)
    requires
        a.word() == b.word(),
    ensures
        a == b,
{
    reveal_strlit("cpu");
    reveal_strlit("openvino");
    reveal_strlit("cuda");
    let (x, y, z) = ("cpu"@, "openvino"@, "cuda"@);
    assert(x.len() == 3 && y.len() == 8 && z.len() == 4);
}

/// Whether a word says yes.
pub open spec fn says_yes(word: Seq<char>) -> bool {
    let w = lower(trimmed(word));
    w == "1"@ || w == "true"@ || w == "yes"@ || w == "on"@
}

/// A switch among the settings.
pub fn env_bool(value: Option<&str>, default: bool) -> (r: bool)
    ensures
        r == (match given(value) {
            Some(v) => says_yes(v),
            None => default,
        }),
{
    match value {
        None => default,
        Some(v) => {
            let w = to_lower(&trim_text(v));
            same_chars(&w, &chars_of("1")) || same_chars(&w, &chars_of("true")) || same_chars(
                &w,
                &chars_of("yes"),
            ) || same_chars(&w, &chars_of("on"))
        },
    }
}

/// The settings that tell where the model is.
#[derive(Clone, Copy, Debug)]
pub struct ModelSettings<'a> {
    /// The folder of the models.
    pub model_dir: Option<&'a str>,
    /// The folder above the models, where that folder is not given.
    pub cache_root: Option<&'a str>,
    /// The variant of the model.
    pub variant: Option<&'a str>,
    /// The file of the model.
    pub file: Option<&'a str>,
    /// Where the model is published.
    pub repo_id: Option<&'a str>,
}

/// The folder of the models.
pub open spec fn model_dir_of(s: ModelSettings) -> Seq<char> {
    match given(s.model_dir) {
        Some(d) => d,
        None => match given(s.cache_root) {
            Some(r) => r + "/character"@,
            None => "data/models/character"@,
        },
    }
}

/// The folder of the models.
pub fn model_dir(settings: ModelSettings) -> (r: String)
    ensures
        r@ == model_dir_of(settings),
{
    match settings.model_dir {
        Some(d) => d.to_owned(),
        None => match settings.cache_root {
            Some(root) => {
                let mut out = root.to_owned();
                out.append("/character");
                out
            },
            None => "data/models/character".to_owned(),
        },
    }
}

/// The variant of the model.
pub open spec fn variant_of(s: ModelSettings) -> Seq<char> {
    or_default(given(s.variant), "ccip-caformer_b36-24"@)
}

/// The file of the model.
pub open spec fn file_of(s: ModelSettings) -> Seq<char> {
    or_default(given(s.file), "model_feat.onnx"@)
}

/// Where the model is published.
pub open spec fn repo_of(s: ModelSettings) -> Seq<char> {
    or_default(given(s.repo_id), "deepghs/ccip_onnx"@)
}

/// The path of the model.
pub fn character_model_path(settings: ModelSettings) -> (r: String)
    ensures
        r@ == path_joined(
            path_joined(model_dir_of(settings), variant_of(settings)),
            file_of(settings),
        ),
{
    let variant = text_or(settings.variant, "ccip-caformer_b36-24");
    let file = text_or(settings.file, "model_feat.onnx");
    join_path(&join_path(&model_dir(settings), &variant), &file)
}

/// What tells the embeddings of one model from those of another: where it is
/// published, its variant and its file.
pub fn embedding_model_meta(settings: ModelSettings) -> (r: (String, String, String))
    ensures
        r.0@ == repo_of(settings),
        r.1@ == variant_of(settings),
        r.2@ == file_of(settings),
{
    (
        text_or(settings.repo_id, "deepghs/ccip_onnx"),
        text_or(settings.variant, "ccip-caformer_b36-24"),
        text_or(settings.file, "model_feat.onnx"),
    )
}

/// After how many seconds without use the model is unloaded; zero keeps it.
pub fn model_idle_timeout(value: Option<&str>) -> (r: u64)
    ensures
        r == number_setting(given(value), DEFAULT_MODEL_IDLE_TIMEOUT_SECONDS as int),
{
    read_number_setting(value, DEFAULT_MODEL_IDLE_TIMEOUT_SECONDS)
}

/// How often it is looked whether the model is idle, in seconds; never where it
/// is kept.
pub fn idle_check_interval(timeout: u64) -> (r: Option<u64>)
    ensures
        r == (if timeout == 0 {
            None
        } else if timeout < 60 {
            Some(timeout)
        } else {
            Some(60u64)
        }),
{
    if timeout == 0 {
        None
    } else if timeout < 60 {
        Some(timeout)
    } else {
        Some(60)
    }
}

/// The provider that is asked for, as it is written.
pub fn requested_provider_raw(value: Option<&str>) -> (r: String)
    ensures
        r@ == or_default(given(value), "auto"@),
{
    text_or(value, "auto")
}

/// The provider that is asked for.
pub open spec fn provider_of(value: Option<Seq<char>>) -> Seq<char> {
    lower(trimmed(or_default(value, "auto"@)))
}

/// The provider that is asked for, in lower case.
pub fn provider_lower(value: Option<&str>) -> (r: String)
    ensures
        r@ == provider_of(given(value)),
{
    text_of(&to_lower(&trim_text(&text_or(value, "auto"))))
}

/// Whether a provider may be the one for NVIDIA devices.
pub open spec fn cuda_wanted(provider: Seq<char>) -> bool {
    provider == "auto"@ || provider == "cuda"@ || provider == "nvidia"@ || provider
        == "cudaexecutionprovider"@
}

/// Whether a provider may be the one for Intel devices.
pub open spec fn openvino_wanted(provider: Seq<char>) -> bool {
    provider == ""@ || provider == "auto"@ || provider == "openvino"@ || provider == "intel"@
        || provider == "gpu"@ || provider == "openvinoexecutionprovider"@
}

/// Whether a provider is the processor alone.
pub open spec fn cpu_only(provider: Seq<char>) -> bool {
    provider == "cpu"@ || provider == "cpuexecutionprovider"@
}

/// Whether the provider for NVIDIA devices may be used.
pub fn want_cuda(value: Option<&str>) -> (r: bool)
    ensures
        r == cuda_wanted(provider_of(given(value))),
{
    let p = provider_lower(value);
    same_text(&p, "auto") || same_text(&p, "cuda") || same_text(&p, "nvidia") || same_text(
        &p,
        "cudaexecutionprovider",
    )
}

/// Whether the provider for Intel devices may be used.
pub fn want_openvino(value: Option<&str>) -> (r: bool)
    ensures
        r == openvino_wanted(provider_of(given(value))),
{
    let p = provider_lower(value);
    same_text(&p, "") || same_text(&p, "auto") || same_text(&p, "openvino") || same_text(
        &p,
        "intel",
    ) || same_text(&p, "gpu") || same_text(&p, "openvinoexecutionprovider")
}

/// Whether only the processor may be used.
pub fn force_cpu_only(value: Option<&str>) -> (r: bool)
    ensures
        r == cpu_only(provider_of(given(value))),
{
    let p = provider_lower(value);
    same_text(&p, "cpu") || same_text(&p, "cpuexecutionprovider")
}

/// A setting without white space around it, where anything is left.
pub open spec fn filled(value: Option<Seq<char>>) -> Option<Seq<char>> {
    match value {
        Some(v) => if trimmed(v).len() == 0 {
            None
        } else {
            Some(trimmed(v))
        },
        None => None,
    }
}

/// The device for Intel devices.
pub open spec fn device_of(value: Option<Seq<char>>) -> Seq<char> {
    or_default(filled(value), "GPU"@)
}

/// The device for Intel devices.
pub fn openvino_device_type(value: Option<&str>) -> (r: String)
    ensures
        r@ == device_of(given(value)),
{
    match openvino_cache_dir(value) {
        Some(v) => v,
        None => "GPU".to_owned(),
    }
}

/// The folder for compiled models, where one is given.
pub fn openvino_cache_dir(value: Option<&str>) -> (r: Option<String>)
    ensures
        held(r) == filled(given(value)),
{
    match value {
        Some(v) => {
            let t = trim_text(v);
            if t.len() == 0 {
                None
            } else {
                Some(text_of(&t))
            }
        },
        None => None,
    }
}

/// Whether the processor may be used where a device fails: by the newer setting,
/// else by the older one, else yes.
pub open spec fn fallback_allowed(newer: Option<Seq<char>>, older: Option<Seq<char>>) -> bool {
    match newer {
        Some(v) => says_yes(v),
        None => match older {
            Some(v) => says_yes(v),
            None => true,
        },
    }
}

/// Whether the processor may be used where a device fails.
pub fn allow_cpu_fallback(newer: Option<&str>, older: Option<&str>) -> (r: bool)
    ensures
        r == fallback_allowed(given(newer), given(older)),
{
    if newer.is_some() {
        env_bool(newer, false)
    } else if older.is_some() {
        env_bool(older, false)
    } else {
        true
    }
}

/// The names of the runtime's library beside the executable.
pub open spec fn library_names() -> Seq<Seq<char>> {
    seq![
        "libonnxruntime.so"@,
        "libonnxruntime.so.1"@,
        "libonnxruntime.so.1.24.1"@,
        "libonnxruntime.so.1.24.0"@,
    ]
}

/// Where the runtime's library is looked for: where the environment says, beside
/// the executable, and in the search path.
pub open spec fn library_places(named: Option<Seq<char>>, exe_dir: Option<Seq<char>>) -> Seq<
    Seq<char>,
> {
    optional(
        match named {
            Some(p) => if trimmed(p).len() == 0 {
                None
            } else {
                Some(p)
            },
            None => None,
        },
    ) + (match exe_dir {
        Some(d) => library_names().map_values(|n: Seq<char>| path_joined(d, n)),
        None => Seq::empty(),
    }) + seq!["libonnxruntime.so"@]
}

/// Where the runtime's library is looked for.
pub fn ort_dylib_candidates(named: Option<&str>, exe_dir: Option<&str>) -> (r: Vec<String>)
    ensures
        texts(r@) == library_places(given(named), given(exe_dir)),
{
    let mut out: Vec<String> = Vec::new();
    match named {
        Some(p) => {
            if trim_text(p).len() > 0 {
                out.push(p.to_owned());
            }
        },
        None => {},
    }
    match exe_dir {
        Some(d) => {
            out.push(join_path(d, "libonnxruntime.so"));
            out.push(join_path(d, "libonnxruntime.so.1"));
            out.push(join_path(d, "libonnxruntime.so.1.24.1"));
            out.push(join_path(d, "libonnxruntime.so.1.24.0"));
        },
        None => {},
    }
    out.push("libonnxruntime.so".to_owned());
    assert(texts(out@) =~= library_places(given(named), given(exe_dir)));
    out
}

/// A try to load the runtime.
#[derive(Debug)]
pub struct CoreAttempt {
    /// The core that the process is locked to where it succeeds.
    pub core: OrtCoreType,
    /// The library; none for the default loader.
    pub path: Option<String>,
}

/// The value of a [`CoreAttempt`].
pub struct AttemptView {
    /// The core.
    pub core: OrtCoreType,
    /// The library.
    pub path: Option<Seq<char>>,
}

impl View for CoreAttempt {
    type V = AttemptView;

    open spec fn view(&self) -> AttemptView {
        AttemptView { core: self.core, path: held(self.path) }
    }
}

/// The tries to load the runtime, in order: the prepared library for NVIDIA
/// devices where that provider may be used, the places of the bundled library,
/// and the default loader. `cuda_library` and `places` are files that are there.
pub open spec fn attempts(
    provider: Option<Seq<char>>,
    cuda_library: Option<Seq<char>>,
    places: Seq<Seq<char>>,
) -> Seq<AttemptView> {
    (if cuda_wanted(provider_of(provider)) && cuda_library is Some {
        seq![AttemptView { core: OrtCoreType::Cuda, path: cuda_library }]
    } else {
        Seq::empty()
    }) + places.map_values(
        |p: Seq<char>| AttemptView { core: OrtCoreType::OpenVino, path: Some(p) },
    ) + seq![AttemptView { core: OrtCoreType::Cpu, path: None }]
}

/// The tries to load the runtime.
pub fn core_attempts(provider: Option<&str>, cuda_library: Option<&str>, places: &[String]) -> (r:
    Vec<CoreAttempt>)
    ensures
        crate::tables::views(r@) == attempts(given(provider), given(cuda_library), texts(places@)),
{
    let mut out: Vec<CoreAttempt> = Vec::new();
    let ghost head = if cuda_wanted(provider_of(given(provider))) && cuda_library is Some {
        seq![AttemptView { core: OrtCoreType::Cuda, path: given(cuda_library) }]
    } else {
        Seq::empty()
    };
    if want_cuda(provider) {
        match cuda_library {
            Some(p) => {
                out.push(CoreAttempt { core: OrtCoreType::Cuda, path: Some(p.to_owned()) });
            },
            None => {},
        }
    }
    assert(crate::tables::views(out@) =~= head);
    let ghost model = |p: Seq<char>| AttemptView { core: OrtCoreType::OpenVino, path: Some(p) };
    let ghost all = texts(places@);
    let mut i: usize = 0;
    assert(crate::tables::views(out@) =~= head + all.take(0).map_values(model));
    while i < places.len()
        invariant
            i <= places@.len(),
            all == texts(places@),
            model == (|p: Seq<char>|
                AttemptView { core: OrtCoreType::OpenVino, path: Some(p) }),
            crate::tables::views(out@) == head + all.take(i as int).map_values(model),
        decreases places@.len() - i,
    {
        let ghost before = crate::tables::views(out@);
        let attempt = CoreAttempt { core: OrtCoreType::OpenVino, path: Some(places[i].clone()) };
        let ghost value = attempt@;
        out.push(attempt);
        proof {
            assert(crate::tables::views(out@) =~= before.push(value));
            assert(all.take(i as int + 1) =~= all.take(i as int).push(all[i as int]));
            assert(value == model(all[i as int]));
            assert(crate::tables::views(out@) =~= head + all.take(i as int + 1).map_values(model));
        }
        i += 1;
    }
    assert(all.take(all.len() as int) =~= all);
    let ghost before = crate::tables::views(out@);
    let attempt = CoreAttempt { core: OrtCoreType::Cpu, path: None };
    let ghost value = attempt@;
    out.push(attempt);
    assert(crate::tables::views(out@) =~= before.push(value));
    assert(crate::tables::views(out@) =~= attempts(
        given(provider),
        given(cuda_library),
        texts(places@),
    ));
    out
}

/// What a try came to.
#[derive(Debug)]
pub enum InitOutcome {
    /// The process is locked to the core.
    Committed,
    /// The runtime did not take the core.
    NotCommitted,
    /// The library could not be loaded, and why.
    Failed(String),
}

/// The value of an [`InitOutcome`].
pub enum InitView {
    /// The process is locked to the core.
    Committed,
    /// The runtime did not take the core.
    NotCommitted,
    /// The library could not be loaded.
    Failed(Seq<char>),
}

impl View for InitOutcome {
    type V = InitView;

    open spec fn view(&self) -> InitView {
        match self {
            InitOutcome::Committed => InitView::Committed,
            InitOutcome::NotCommitted => InitView::NotCommitted,
            InitOutcome::Failed(e) => InitView::Failed(e@),
        }
    }
}

/// What is to be done about the core.
#[derive(Debug)]
pub enum CoreDecision {
    /// The process is locked to a core; with what went wrong last before it.
    Locked(OrtCoreType, Option<String>),
    /// The next try is to be made.
    Attempt(usize),
    /// Every try failed.
    Exhausted,
}

/// The value of a [`CoreDecision`].
pub enum DecisionView {
    /// The process is locked to a core.
    Locked(OrtCoreType, Option<Seq<char>>),
    /// The next try is to be made.
    Attempt(int),
    /// Every try failed.
    Exhausted,
}

impl View for CoreDecision {
    type V = DecisionView;

    open spec fn view(&self) -> DecisionView {
        match self {
            CoreDecision::Locked(c, e) => DecisionView::Locked(*c, held(*e)),
            CoreDecision::Attempt(i) => DecisionView::Attempt(*i as int),
            CoreDecision::Exhausted => DecisionView::Exhausted,
        }
    }
}

/// What a try that failed leaves to be told.
pub open spec fn init_complaint(attempt: AttemptView, outcome: InitView) -> Option<Seq<char>> {
    match (attempt.path, outcome) {
        (Some(p), InitView::NotCommitted) => Some(p + ": commit returned false"@),
        (Some(p), InitView::Failed(e)) => Some(p + ": "@ + e),
        _ => None,
    }
}

/// What went wrong last in the first tries.
pub open spec fn last_complaint(
    attempts: Seq<AttemptView>,
    outcomes: Seq<InitView>,
    n: int,
) -> Option<Seq<char>>
    decreases n,
{
    if n <= 0 {
        None
    } else {
        match init_complaint(attempts[n - 1], outcomes[n - 1]) {
            Some(c) => Some(c),
            None => last_complaint(attempts, outcomes, n - 1),
        }
    }
}

/// The first try that succeeded, from one on; the number of outcomes where none
/// did.
pub open spec fn first_commit(outcomes: Seq<InitView>, from: int) -> int
    decreases outcomes.len() - from,
{
    if from >= outcomes.len() || from < 0 {
        outcomes.len() as int
    } else if outcomes[from] is Committed {
        from
    } else {
        first_commit(outcomes, from + 1)
    }
}

/// What is to be done about the core: a core that the process is locked to
/// stays; else the tries are made in order up to the first that succeeds.
pub open spec fn core_decision(
    locked: Option<OrtCoreType>,
    attempts: Seq<AttemptView>,
    outcomes: Seq<InitView>,
) -> DecisionView {
    let k = first_commit(outcomes, 0);
    match locked {
        Some(c) => DecisionView::Locked(c, None),
        None => if k < outcomes.len() && k < attempts.len() {
            DecisionView::Locked(attempts[k].core, last_complaint(attempts, outcomes, k))
        } else if outcomes.len() < attempts.len() {
            DecisionView::Attempt(outcomes.len() as int)
        } else {
            DecisionView::Exhausted
        },
    }
}

/// Decides on the core of the process. `outcomes` holds what the tries made so
/// far came to.
pub fn ensure_ort_loaded(
    locked: Option<OrtCoreType>,
    attempts: &[CoreAttempt],
    outcomes: &[InitOutcome],
) -> (r: CoreDecision)
    requires
        outcomes@.len() <= attempts@.len(),
    ensures
        r@ == core_decision(
            locked,
            crate::tables::views(attempts@),
            crate::tables::views(outcomes@),
        ),
{
    match locked {
        Some(c) => {
            return CoreDecision::Locked(c, None);
        },
        None => {},
    }
    let ghost tries = crate::tables::views(attempts@);
    let ghost results = crate::tables::views(outcomes@);
    let mut complaint: Option<String> = None;
    let mut i: usize = 0;
    while i < outcomes.len()
        invariant
            i <= outcomes@.len() <= attempts@.len(),
            locked is None,
            tries == crate::tables::views(attempts@),
            results == crate::tables::views(outcomes@),
            first_commit(results, 0) == first_commit(results, i as int),
            held(complaint) == last_complaint(tries, results, i as int),
        decreases outcomes@.len() - i,
    {
        proof {
            assert(tries[i as int] == attempts@[i as int]@);
            assert(results[i as int] == outcomes@[i as int]@);
        }
        match &outcomes[i] {
            InitOutcome::Committed => {
                return CoreDecision::Locked(attempts[i].core, complaint);
            },
            InitOutcome::NotCommitted => {
                match &attempts[i].path {
                    Some(p) => {
                        let mut text = p.clone();
                        text.append(": commit returned false");
                        complaint = Some(text);
                    },
                    None => {},
                }
            },
            InitOutcome::Failed(e) => {
                match &attempts[i].path {
                    Some(p) => {
                        let mut text = p.clone();
                        text.append(": ");
                        text.append(e);
                        complaint = Some(text);
                    },
                    None => {},
                }
            },
        }
        i += 1;
    }
    if outcomes.len() < attempts.len() {
        CoreDecision::Attempt(outcomes.len())
    } else {
        CoreDecision::Exhausted
    }
}

/// A process that is locked to a core stays with it, whatever else is tried.
pub proof fn cores_are_never_swapped(
    core: OrtCoreType,
    attempts: Seq<AttemptView>,
    outcomes: Seq<InitView>,
)
    ensures
        core_decision(Some(core), attempts, outcomes) == DecisionView::Locked(core, None),
{
}

/// The core for NVIDIA devices is taken only where that provider may be used and
/// its library is there.
pub proof fn cuda_cores_are_asked_for(
    provider: Option<Seq<char>>,
    cuda_library: Option<Seq<char>>,
    places: Seq<Seq<char>>,
    outcomes: Seq<InitView>,
)
    requires
        core_decision(None, attempts(provider, cuda_library, places), outcomes) is Locked,
        core_decision(None, attempts(provider, cuda_library, places), outcomes)->Locked_0
            == OrtCoreType::Cuda,
    ensures
        cuda_wanted(provider_of(provider)),
        cuda_library is Some,
{
    let tries = attempts(provider, cuda_library, places);
    let k = first_commit(outcomes, 0);
    lemma_first_commit(outcomes, 0);
    assert(tries[k].core == OrtCoreType::Cuda);
}

/// The first try that succeeded is one of the tries.
proof fn lemma_first_commit(outcomes: Seq<InitView>, from: int)
    requires
        0 <= from <= outcomes.len(),
    ensures
        from <= first_commit(outcomes, from) <= outcomes.len(),
        first_commit(outcomes, from) < outcomes.len() ==> outcomes[first_commit(
            outcomes,
            from,
        )] is Committed,
    decreases outcomes.len() - from,
{
    if from < outcomes.len() && !(outcomes[from] is Committed) {
        lemma_first_commit(outcomes, from + 1);
    }
}

/// A reason put behind earlier reasons.
pub open spec fn with_reason(reasons: Option<Seq<char>>, reason: Seq<char>) -> Option<Seq<char>> {
    match reasons {
        Some(r) => Some(r + "; "@ + reason),
        None => Some(reason),
    }
}

/// Puts a reason behind earlier reasons.
pub fn append_fallback_reason(reasons: &mut Option<String>, reason: &str)
    ensures
        held(*final(reasons)) == with_reason(held(*old(reasons)), reason@),
{
    let mut text = match reasons.take() {
        Some(r) => {
            let mut t = r;
            t.append("; ");
            t
        },
        None => "".to_owned(),
    };
    proof {
        reveal_strlit("");
        assert(""@ + reason@ =~= reason@);
    }
    text.append(reason);
    *reasons = Some(text);
}

/// A session with the model.
#[derive(Debug)]
pub struct CcipSession {
    /// The provider that it runs on.
    pub provider: String,
    /// The device that it runs on.
    pub active_device: String,
    /// Why it does not run on the device that was asked for.
    pub fallback_reason: Option<String>,
}

/// The session of a process, or why there is none, and when it was used last.
/// Times are nanoseconds of a clock that does not go back.
#[derive(Debug)]
pub struct CcipSessionSlot {
    /// The session, or why it could not be made.
    pub session: Option<Result<CcipSession, String>>,
    /// When it was used last.
    pub last_used: Option<u128>,
}

impl CcipSessionSlot {
    /// A slot without a session.
    pub fn empty() -> (r: CcipSessionSlot)
        ensures
            r.session is None,
            r.last_used is None,
    {
        CcipSessionSlot { session: None, last_used: None }
    }

    /// Whether the session was not used for a time.
    pub open spec fn idle(self, now: u128, timeout: u128) -> bool {
        match self.last_used {
            Some(t) => (if now >= t {
                now - t
            } else {
                0
            }) >= timeout,
            None => false,
        }
    }

    /// Drops the session where it was not used for a time; never where that time
    /// is zero. Whether it did so comes back.
    pub fn unload_if_idle(&mut self, now: u128, timeout: u128) -> (r: bool)
        ensures
            r == (timeout > 0 && old(self).session is Some && old(self).idle(now, timeout)),
            *final(self) == (if r {
                CcipSessionSlot { session: None, last_used: None }
            } else {
                *old(self)
            }),
    {
        let idle = match self.last_used {
            Some(t) => {
                let age: u128 = if now >= t {
                    now - t
                } else {
                    0
                };
                age >= timeout
            },
            None => false,
        };
        if timeout > 0 && self.session.is_some() && idle {
            self.session = None;
            self.last_used = None;
            true
        } else {
            false
        }
    }

    /// Drops why there is no session, so that a new one can be made. A session
    /// stays.
    pub fn clear_failed_session_cache(&mut self) -> (r: bool)
        ensures
            r == (old(self).session matches Some(Err(_))),
            *final(self) == (if r {
                CcipSessionSlot { session: None, last_used: None }
            } else {
                *old(self)
            }),
    {
        let failed = match &self.session {
            Some(Err(_)) => true,
            _ => false,
        };
        if failed {
            self.session = None;
            self.last_used = None;
        }
        failed
    }

    /// Keeps what making a session came to, unless another is there already.
    pub fn keep(&mut self, made: Result<CcipSession, String>, now: u128)
        ensures
            *final(self) == (if old(self).session is None {
                CcipSessionSlot { session: Some(made), last_used: Some(now) }
            } else {
                *old(self)
            }),
    {
        if self.session.is_none() {
            self.session = Some(made);
            self.last_used = Some(now);
        }
    }

    /// Notes that the session is used now. Why it cannot be used comes back as an
    /// error.
    pub fn with_session(&mut self, now: u128) -> (r: Result<(), String>)
        ensures
            final(self).session == old(self).session,
            final(self).last_used == Some(now),
            match old(self).session {
                Some(Ok(_)) => r is Ok,
                Some(Err(e)) => r is Err && r->Err_0@ == e@,
                None => r is Err && r->Err_0@ == "session not initialized"@,
            },
    {
        let r = match &self.session {
            Some(Ok(_)) => Ok(()),
            Some(Err(e)) => Err(e.clone()),
            None => Err("session not initialized".to_owned()),
        };
        self.last_used = Some(now);
        r
    }
}

/// What is known before a session is made.
#[derive(Clone, Copy, PartialEq, Eq, Debug, Structural)]
pub struct LoadSettings {
    /// Whether only the processor may be used.
    pub force_cpu: bool,
    /// Whether the provider for NVIDIA devices may be used.
    pub want_cuda: bool,
    /// Whether the provider for Intel devices may be used.
    pub want_openvino: bool,
    /// Whether the provider is left to the process.
    pub auto_provider: bool,
    /// Whether the processor may be used where a device fails.
    pub allow_fallback: bool,
    /// Whether there is an Intel device.
    pub intel_gpu: bool,
}

/// How far the making of a session is.
#[derive(Clone, Copy, PartialEq, Eq, Debug, Structural)]
pub enum LoadStage {
    /// Nothing is done.
    Start,
    /// The model is awaited.
    AwaitModel,
    /// The library for NVIDIA devices is awaited.
    AwaitCuda,
    /// It is looked once more whether the model is there.
    RecheckModel,
    /// The core is being chosen.
    ChooseCore,
    /// A session on NVIDIA devices is being made.
    Cuda,
    /// A session on Intel devices is being made.
    OpenVino,
    /// A session on the processor is being made.
    Cpu,
    /// It is over.
    Over,
}

/// What happened.
#[derive(Debug)]
pub enum LoadEvent {
    /// The making begins; whether the model is there.
    Begin(bool),
    /// The wait is over.
    Waited,
    /// Whether the model is there.
    Model(bool),
    /// The process is locked to a core, and what went wrong before.
    Core(OrtCoreType, Option<String>),
    /// The session was made.
    Made,
    /// It could not be made, and why.
    Failed(String),
}

/// The value of a [`LoadEvent`].
pub enum LoadEventView {
    /// The making begins.
    Begin(bool),
    /// The wait is over.
    Waited,
    /// Whether the model is there.
    Model(bool),
    /// The process is locked to a core.
    Core(OrtCoreType, Option<Seq<char>>),
    /// The session was made.
    Made,
    /// It could not be made.
    Failed(Seq<char>),
}

impl View for LoadEvent {
    type V = LoadEventView;

    open spec fn view(&self) -> LoadEventView {
        match self {
            LoadEvent::Begin(b) => LoadEventView::Begin(*b),
            LoadEvent::Waited => LoadEventView::Waited,
            LoadEvent::Model(b) => LoadEventView::Model(*b),
            LoadEvent::Core(c, e) => LoadEventView::Core(*c, held(*e)),
            LoadEvent::Made => LoadEventView::Made,
            LoadEvent::Failed(e) => LoadEventView::Failed(e@),
        }
    }
}

/// What is to be done.
#[derive(Debug)]
pub enum LoadAction {
    /// Wait for the model.
    WaitForModel,
    /// Wait for the library for NVIDIA devices.
    WaitForCuda,
    /// Look whether the model is there.
    CheckModel,
    /// Choose the core.
    ChooseCore,
    /// Make a session on NVIDIA devices.
    BuildCuda,
    /// Make a session on Intel devices.
    BuildOpenVino,
    /// Make a session on the processor.
    BuildCpu,
    /// Take the session, with the reasons why it is not another.
    Done(Option<String>),
    /// Give up: the model is not there.
    ModelMissing,
    /// Give up, and why.
    Fail(String),
    /// The event does not fit.
    Ignore,
}

/// The value of a [`LoadAction`].
pub enum LoadActionView {
    /// Wait for the model.
    WaitForModel,
    /// Wait for the library for NVIDIA devices.
    WaitForCuda,
    /// Look whether the model is there.
    CheckModel,
    /// Choose the core.
    ChooseCore,
    /// Make a session on NVIDIA devices.
    BuildCuda,
    /// Make a session on Intel devices.
    BuildOpenVino,
    /// Make a session on the processor.
    BuildCpu,
    /// Take the session.
    Done(Option<Seq<char>>),
    /// Give up: the model is not there.
    ModelMissing,
    /// Give up, and why.
    Fail(Seq<char>),
    /// The event does not fit.
    Ignore,
}

impl View for LoadAction {
    type V = LoadActionView;

    open spec fn view(&self) -> LoadActionView {
        match self {
            LoadAction::WaitForModel => LoadActionView::WaitForModel,
            LoadAction::WaitForCuda => LoadActionView::WaitForCuda,
            LoadAction::CheckModel => LoadActionView::CheckModel,
            LoadAction::ChooseCore => LoadActionView::ChooseCore,
            LoadAction::BuildCuda => LoadActionView::BuildCuda,
            LoadAction::BuildOpenVino => LoadActionView::BuildOpenVino,
            LoadAction::BuildCpu => LoadActionView::BuildCpu,
            LoadAction::Done(r) => LoadActionView::Done(held(*r)),
            LoadAction::ModelMissing => LoadActionView::ModelMissing,
            LoadAction::Fail(e) => LoadActionView::Fail(e@),
            LoadAction::Ignore => LoadActionView::Ignore,
        }
    }
}

/// The making of a session.
#[derive(Debug)]
pub struct LoadState {
    /// How far it is.
    pub stage: LoadStage,
    /// Why the session is not another, so far.
    pub reasons: Option<String>,
}

/// The value of a [`LoadState`].
pub struct LoadView {
    /// How far it is.
    pub stage: LoadStage,
    /// Why the session is not another.
    pub reasons: Option<Seq<char>>,
}

impl View for LoadState {
    type V = LoadView;

    open spec fn view(&self) -> LoadView {
        LoadView { stage: self.stage, reasons: held(self.reasons) }
    }
}

/// A step on which a session is being made.
pub open spec fn building(
    stage: LoadStage,
    reasons: Option<Seq<char>>,
    action: LoadActionView,
) -> (LoadView, LoadActionView) {
    (LoadView { stage, reasons }, action)
}

/// What follows once the core is known.
pub open spec fn with_core(s: LoadSettings, core: OrtCoreType, reasons: Option<Seq<char>>) -> (
    LoadView,
    LoadActionView,
) {
    if s.want_cuda && core == OrtCoreType::Cuda {
        building(LoadStage::Cuda, reasons, LoadActionView::BuildCuda)
    } else if s.want_openvino && core != OrtCoreType::Cuda && (!s.auto_provider || s.intel_gpu) {
        building(LoadStage::OpenVino, reasons, LoadActionView::BuildOpenVino)
    } else {
        building(LoadStage::Cpu, reasons, LoadActionView::BuildCpu)
    }
}

/// What follows once the model was looked for the last time.
pub open spec fn with_model(s: LoadSettings, there: bool) -> (LoadView, LoadActionView) {
    if !there {
        building(LoadStage::Over, None, LoadActionView::ModelMissing)
    } else if s.force_cpu {
        building(LoadStage::Cpu, None, LoadActionView::BuildCpu)
    } else {
        building(LoadStage::ChooseCore, None, LoadActionView::ChooseCore)
    }
}

/// What follows once the wait for the model is over: the library for NVIDIA
/// devices is awaited where it may be used.
pub open spec fn past_model_wait(s: LoadSettings) -> (LoadView, LoadActionView) {
    if s.want_cuda {
        building(LoadStage::AwaitCuda, None, LoadActionView::WaitForCuda)
    } else {
        building(LoadStage::RecheckModel, None, LoadActionView::CheckModel)
    }
}

/// What follows where a device failed.
pub open spec fn past_failure(
    s: LoadSettings,
    reasons: Option<Seq<char>>,
    prefix: Seq<char>,
    error: Seq<char>,
) -> (LoadView, LoadActionView) {
    if s.allow_fallback {
        building(
            LoadStage::Cpu,
            with_reason(reasons, prefix + error),
            LoadActionView::BuildCpu,
        )
    } else {
        building(LoadStage::Over, reasons, LoadActionView::Fail(error))
    }
}

/// One step in the making of a session.
pub open spec fn load_step(s: LoadSettings, state: LoadView, event: LoadEventView) -> (
    LoadView,
    LoadActionView,
) {
    match (state.stage, event) {
        (LoadStage::Start, LoadEventView::Begin(there)) => if !there {
            building(LoadStage::AwaitModel, None, LoadActionView::WaitForModel)
        } else {
            past_model_wait(s)
        },
        (LoadStage::AwaitModel, LoadEventView::Waited) => past_model_wait(s),
        (LoadStage::AwaitCuda, LoadEventView::Waited) => building(
            LoadStage::RecheckModel,
            None,
            LoadActionView::CheckModel,
        ),
        (LoadStage::RecheckModel, LoadEventView::Model(there)) => with_model(s, there),
        (LoadStage::ChooseCore, LoadEventView::Core(core, complaint)) => with_core(
            s,
            core,
            complaint,
        ),
        (LoadStage::ChooseCore, LoadEventView::Failed(e)) => building(
            LoadStage::Over,
            state.reasons,
            LoadActionView::Fail(e),
        ),
        (LoadStage::Cuda, LoadEventView::Made) => building(
            LoadStage::Over,
            state.reasons,
            LoadActionView::Done(state.reasons),
        ),
        (LoadStage::OpenVino, LoadEventView::Made) => building(
            LoadStage::Over,
            state.reasons,
            LoadActionView::Done(state.reasons),
        ),
        (LoadStage::Cpu, LoadEventView::Made) => building(
            LoadStage::Over,
            state.reasons,
            LoadActionView::Done(state.reasons),
        ),
        (LoadStage::Cuda, LoadEventView::Failed(e)) => past_failure(
            s,
            state.reasons,
            "CUDAExecutionProvider failed: "@,
            e,
        ),
        (LoadStage::OpenVino, LoadEventView::Failed(e)) => past_failure(
            s,
            state.reasons,
            "OpenVINOExecutionProvider failed: "@,
            e,
        ),
        (LoadStage::Cpu, LoadEventView::Failed(e)) => building(
            LoadStage::Over,
            state.reasons,
            LoadActionView::Fail(e),
        ),
        _ => (state, LoadActionView::Ignore),
    }
}

/// Goes on once the wait for the model is over.
fn go_past_model_wait(s: LoadSettings) -> (r: (LoadState, LoadAction))
    ensures
        (r.0@, r.1@) == past_model_wait(s),
{
    if s.want_cuda {
        (LoadState { stage: LoadStage::AwaitCuda, reasons: None }, LoadAction::WaitForCuda)
    } else {
        (LoadState { stage: LoadStage::RecheckModel, reasons: None }, LoadAction::CheckModel)
    }
}

/// Goes on where a device failed.
fn go_past_failure(s: LoadSettings, reasons: Option<String>, prefix: &str, error: String) -> (r: (
    LoadState,
    LoadAction,
))
    ensures
        (r.0@, r.1@) == past_failure(s, held(reasons), prefix@, error@),
{
    if s.allow_fallback {
        let mut reason = prefix.to_owned();
        reason.append(&error);
        let mut all = reasons;
        append_fallback_reason(&mut all, &reason);
        (LoadState { stage: LoadStage::Cpu, reasons: all }, LoadAction::BuildCpu)
    } else {
        (LoadState { stage: LoadStage::Over, reasons }, LoadAction::Fail(error))
    }
}

/// Ends with a session.
fn take_session(reasons: Option<String>) -> (r: (LoadState, LoadAction))
    ensures
        (r.0@, r.1@) == building(
            LoadStage::Over,
            held(reasons),
            LoadActionView::Done(held(reasons)),
        ),
{
    let told = reasons.clone();
    (LoadState { stage: LoadStage::Over, reasons }, LoadAction::Done(told))
}

/// One step in the making of a session: NVIDIA devices where the process is
/// locked to their core, Intel devices else, and the processor where these are
/// not asked for or fail.
pub fn load_session(s: LoadSettings, state: LoadState, event: LoadEvent) -> (r: (
    LoadState,
    LoadAction,
))
    ensures
        (r.0@, r.1@) == load_step(s, state@, event@),
{
    let stage = state.stage;
    match (stage, event) {
        (LoadStage::Start, LoadEvent::Begin(there)) => if !there {
            (LoadState { stage: LoadStage::AwaitModel, reasons: None }, LoadAction::WaitForModel)
        } else {
            go_past_model_wait(s)
        },
        (LoadStage::AwaitModel, LoadEvent::Waited) => go_past_model_wait(s),
        (LoadStage::AwaitCuda, LoadEvent::Waited) => (
            LoadState { stage: LoadStage::RecheckModel, reasons: None },
            LoadAction::CheckModel,
        ),
        (LoadStage::RecheckModel, LoadEvent::Model(there)) => if !there {
            (LoadState { stage: LoadStage::Over, reasons: None }, LoadAction::ModelMissing)
        } else if s.force_cpu {
            (LoadState { stage: LoadStage::Cpu, reasons: None }, LoadAction::BuildCpu)
        } else {
            (LoadState { stage: LoadStage::ChooseCore, reasons: None }, LoadAction::ChooseCore)
        },
        (LoadStage::ChooseCore, LoadEvent::Core(core, complaint)) => if s.want_cuda && core
            == OrtCoreType::Cuda {
            (LoadState { stage: LoadStage::Cuda, reasons: complaint }, LoadAction::BuildCuda)
        } else if s.want_openvino && core != OrtCoreType::Cuda && (!s.auto_provider
            || s.intel_gpu) {
            (LoadState { stage: LoadStage::OpenVino, reasons: complaint }, LoadAction::BuildOpenVino)
        } else {
            (LoadState { stage: LoadStage::Cpu, reasons: complaint }, LoadAction::BuildCpu)
        },
        (LoadStage::ChooseCore, LoadEvent::Failed(e)) => (
            LoadState { stage: LoadStage::Over, reasons: state.reasons },
            LoadAction::Fail(e),
        ),
        (LoadStage::Cuda, LoadEvent::Made) => take_session(state.reasons),
        (LoadStage::OpenVino, LoadEvent::Made) => take_session(state.reasons),
        (LoadStage::Cpu, LoadEvent::Made) => take_session(state.reasons),
        (LoadStage::Cuda, LoadEvent::Failed(e)) => go_past_failure(
            s,
            state.reasons,
            "CUDAExecutionProvider failed: ",
            e,
        ),
        (LoadStage::OpenVino, LoadEvent::Failed(e)) => go_past_failure(
            s,
            state.reasons,
            "OpenVINOExecutionProvider failed: ",
            e,
        ),
        (LoadStage::Cpu, LoadEvent::Failed(e)) => (
            LoadState { stage: LoadStage::Over, reasons: state.reasons },
            LoadAction::Fail(e),
        ),
        _ => (state, LoadAction::Ignore),
    }
}

/// The state after events, one after the other, from the beginning.
pub open spec fn load_run(s: LoadSettings, events: Seq<LoadEventView>) -> LoadView
    decreases events.len(),
{
    if events.len() == 0 {
        LoadView { stage: LoadStage::Start, reasons: None }
    } else {
        load_step(s, load_run(s, events.drop_last()), events.last()).0
    }
}

/// On the core for NVIDIA devices a session on Intel devices is never made.
pub proof fn cuda_cores_never_use_openvino(
    s: LoadSettings,
    state: LoadView,
    reasons: Option<Seq<char>>,
)
    ensures
        !(load_step(s, state, LoadEventView::Core(OrtCoreType::Cuda, reasons)).1
            is BuildOpenVino),
{
}

/// Where the provider is left to the process and there is no Intel device, a
/// session on Intel devices is never made.
pub proof fn openvino_needs_its_device(s: LoadSettings, state: LoadView, event: LoadEventView)
    requires
        s.auto_provider,
        !s.intel_gpu,
    ensures
        !(load_step(s, state, event).1 is BuildOpenVino),
{
}

/// Where a fallback is not allowed, a failure on a device ends the making.
pub proof fn failures_end_without_fallback(s: LoadSettings, state: LoadView, error: Seq<char>)
    requires
        !s.allow_fallback,
        state.stage == LoadStage::Cuda || state.stage == LoadStage::OpenVino,
    ensures
        load_step(s, state, LoadEventView::Failed(error)).1 == LoadActionView::Fail(error),
        load_step(s, state, LoadEventView::Failed(error)).0.stage == LoadStage::Over,
{
}

/// A run that is over stays over.
pub proof fn finished_loads_stay_finished(
    s: LoadSettings,
    events: Seq<LoadEventView>,
    event: LoadEventView,
)
    requires
        load_run(s, events).stage == LoadStage::Over,
    ensures
        load_run(s, events.push(event)) == load_run(s, events),
{
    assert(events.push(event).drop_last() =~= events);
}

/// Notes something that is told for all time: the first value stays.
pub fn note_once(slot: &mut Option<String>, value: &str)
    ensures
        held(*final(slot)) == (match held(*old(slot)) {
            Some(v) => Some(v),
            None => Some(value@),
        }),
{
    if slot.is_none() {
        *slot = Some(value.to_owned());
    }
}

/// The provider that the process has used first.
pub fn active_provider(noted: Option<&str>) -> (r: String)
    ensures
        r@ == or_default(given(noted), "unknown"@),
{
    text_or(noted, "unknown")
}

/// The device that the process has used first.
pub fn active_device(noted: Option<&str>) -> (r: String)
    ensures
        r@ == or_default(given(noted), "unknown"@),
{
    text_or(noted, "unknown")
}

/// Whether a device is a graphics device.
pub open spec fn is_gpu(device: Seq<char>) -> bool {
    contains_text(upper(device), "GPU"@)
}

/// Whether a device is a graphics device.
pub fn wants_gpu(device: &str) -> (r: bool)
    ensures
        r == is_gpu(device@),
{
    has_text(&to_upper(&chars_of(device)), &chars_of("GPU"))
}

/// The name of the device that a session on Intel devices runs on.
pub fn openvino_active_device(device: &str) -> (r: String)
    ensures
        r@ == (if is_gpu(device@) {
            "gpu:0:openvino:"@ + device@
        } else {
            "openvino:"@ + device@
        }),
{
    let mut out = if wants_gpu(device) {
        "gpu:0:openvino:".to_owned()
    } else {
        "openvino:".to_owned()
    };
    out.append(device);
    out
}

/// Why there is a session, or none.
#[derive(Clone, Copy, PartialEq, Eq, Debug, Structural)]
pub enum StatusReason {
    /// Recognition is switched off.
    Disabled,
    /// The model is not there.
    ModelNotFound,
    /// There is a session.
    Ready,
    /// A session could not be made.
    LoadFailed,
    /// A session is being made.
    Preparing,
    /// The session was dropped or not made yet.
    IdleUnloaded,
}

impl StatusReason {
    /// The word for a reason.
    pub open spec fn word(self) -> Seq<char> {
        match self {
            StatusReason::Disabled => "disabled"@,
            StatusReason::ModelNotFound => "ccip_model_not_found"@,
            StatusReason::Ready => "ready"@,
            StatusReason::LoadFailed => "session_load_failed"@,
            StatusReason::Preparing => "preparing"@,
            StatusReason::IdleUnloaded => "idle_unloaded"@,
        }
    }

    /// The word for a reason.
    pub fn label(self) -> (r: &'static str)
        ensures
            r@ == self.word(),
    {
        match self {
            StatusReason::Disabled => "disabled",
            StatusReason::ModelNotFound => "ccip_model_not_found",
            StatusReason::Ready => "ready",
            StatusReason::LoadFailed => "session_load_failed",
            StatusReason::Preparing => "preparing",
            StatusReason::IdleUnloaded => "idle_unloaded",
        }
    }
}

/// What is told of the session.
#[derive(Debug)]
pub struct SessionStatus {
    /// Why there is a session, or none.
    pub reason: StatusReason,
    /// The provider, or a word for none.
    pub actual_provider: String,
    /// Why a session could not be made.
    pub error: Option<String>,
    /// The device.
    pub active_device: Option<String>,
    /// Why the session is not another.
    pub fallback_reason: Option<String>,
    /// For how many seconds it was not used.
    pub idle_seconds: Option<u128>,
}

impl SessionStatus {
    /// Whether there is a session.
    pub fn session_loaded(&self) -> (r: bool)
        ensures
            r == (self.reason == StatusReason::Ready),
    {
        match self.reason {
            StatusReason::Ready => true,
            _ => false,
        }
    }
}

/// Why there is a session, or none.
pub open spec fn status_reason(
    enabled: bool,
    model_there: bool,
    slot: CcipSessionSlot,
    preparing: bool,
) -> StatusReason {
    if !enabled {
        StatusReason::Disabled
    } else if !model_there {
        StatusReason::ModelNotFound
    } else {
        match slot.session {
            Some(Ok(_)) => StatusReason::Ready,
            Some(Err(_)) => StatusReason::LoadFailed,
            None => if preparing {
                StatusReason::Preparing
            } else {
                StatusReason::IdleUnloaded
            },
        }
    }
}

/// For how many seconds a session was not used.
pub open spec fn idle_seconds_of(slot: CcipSessionSlot, now: u128) -> Option<u128> {
    match slot.last_used {
        Some(t) => Some(
            if now >= t {
                ((now - t) / 1_000_000_000) as u128
            } else {
                0
            },
        ),
        None => None,
    }
}

/// Tells of the session.
pub fn session_status(
    enabled: bool,
    model_there: bool,
    slot: &CcipSessionSlot,
    preparing: bool,
    now: u128,
) -> (r: SessionStatus)
    ensures
        r.reason == status_reason(enabled, model_there, *slot, preparing),
        r.actual_provider@ == (match r.reason {
            StatusReason::Ready => slot.session->Some_0->Ok_0.provider@,
            StatusReason::LoadFailed => "none"@,
            _ => "not_initialized"@,
        }),
        held(r.error) == (if r.reason == StatusReason::LoadFailed {
            Some(slot.session->Some_0->Err_0@)
        } else {
            None
        }),
        held(r.active_device) == (if r.reason == StatusReason::Ready {
            Some(slot.session->Some_0->Ok_0.active_device@)
        } else {
            None
        }),
        held(r.fallback_reason) == (if r.reason == StatusReason::Ready {
            held(slot.session->Some_0->Ok_0.fallback_reason)
        } else {
            None
        }),
        r.idle_seconds == (match r.reason {
            StatusReason::Ready => idle_seconds_of(*slot, now),
            StatusReason::LoadFailed => idle_seconds_of(*slot, now),
            _ => None,
        }),
{
    let idle: Option<u128> = match slot.last_used {
        Some(t) => if now >= t {
            Some((now - t) / 1_000_000_000)
        } else {
            Some(0)
        },
        None => None,
    };
    let nothing = |reason: StatusReason| -> (s: SessionStatus)
        ensures
            s.reason == reason,
            s.actual_provider@ == "not_initialized"@,
            s.error is None,
            s.active_device is None,
            s.fallback_reason is None,
            s.idle_seconds is None,
        {
            SessionStatus {
                reason,
                actual_provider: "not_initialized".to_owned(),
                error: None,
                active_device: None,
                fallback_reason: None,
                idle_seconds: None,
            }
        };
    if !enabled {
        return nothing(StatusReason::Disabled);
    }
    if !model_there {
        return nothing(StatusReason::ModelNotFound);
    }
    match &slot.session {
        Some(Ok(session)) => SessionStatus {
            reason: StatusReason::Ready,
            actual_provider: session.provider.clone(),
            error: None,
            active_device: Some(session.active_device.clone()),
            fallback_reason: match &session.fallback_reason {
                Some(f) => Some(f.clone()),
                None => None,
            },
            idle_seconds: idle,
        },
        Some(Err(error)) => SessionStatus {
            reason: StatusReason::LoadFailed,
            actual_provider: "none".to_owned(),
            error: Some(error.clone()),
            active_device: None,
            fallback_reason: None,
            idle_seconds: idle,
        },
        None => if preparing {
            nothing(StatusReason::Preparing)
        } else {
            nothing(StatusReason::IdleUnloaded)
        },
    }
}

/// Where the embedding stands in what the model gives: at the end. Too few
/// numbers are refused.
pub fn embedding_start(count: usize) -> (r: Result<usize, String>)
    ensures
        if count < CCIP_EMBEDDING_DIM {
            r is Err && r->Err_0@ == "unexpected embedding size "@ + decimal(count as nat)
                + " (want 768)"@
        } else {
            r is Ok && r->Ok_0 == count - CCIP_EMBEDDING_DIM
        },
{
    if count < CCIP_EMBEDDING_DIM {
        let mut text = "unexpected embedding size ".to_owned();
        push_decimal(count as u64, &mut text);
        text.append(" (want 768)");
        Err(text)
    } else {
        Ok(count - CCIP_EMBEDDING_DIM)
    }
}

/// A switch is on for each of the four words, whatever their case and with white space around
/// them or without, and off for every other word.
pub proof fn switches_are_read(word: Seq<char>, front: Seq<char>, back: Seq<char>)
    requires
        forall|i: int| 0 <= i < front.len() ==> crate::text::white_space(#[trigger] front[i]),
        forall|i: int| 0 <= i < back.len() ==> crate::text::white_space(#[trigger] back[i]),
        word.len() > 0,
        !crate::text::white_space(word[0]),
        !crate::text::white_space(word.last()),
    ensures
        says_yes(front + word + back) <==> lower(word) == "1"@ || lower(word) == "true"@ || lower(
            word,
        ) == "yes"@ || lower(word) == "on"@,
        !says_yes(Seq::empty()),
{
    crate::text_laws::trimming_takes_the_white_ends(front, word, back);
    crate::text_laws::white_texts_are_trimmed_away(Seq::empty());
    let none = trimmed(Seq::<char>::empty());
    assert(lower(none).len() == 0);
    reveal_strlit("1");
    reveal_strlit("true");
    reveal_strlit("yes");
    reveal_strlit("on");
}

/// The providers: `auto` wants both accelerators, `cpu` wants none, and no provider but `auto`
/// wants two.
pub proof fn providers_are_told_apart(provider: Seq<char>)
    ensures
        cuda_wanted("auto"@) && openvino_wanted("auto"@) && !cpu_only("auto"@),
        cpu_only(provider) ==> !cuda_wanted(provider) && !openvino_wanted(provider),
        cuda_wanted(provider) && openvino_wanted(provider) ==> provider == "auto"@,
        cuda_wanted("cuda"@) && cuda_wanted("nvidia"@) && cuda_wanted("cudaexecutionprovider"@),
        openvino_wanted("openvino"@) && openvino_wanted("intel"@) && openvino_wanted("gpu"@)
            && openvino_wanted("openvinoexecutionprovider"@),
        cpu_only("cpu"@) && cpu_only("cpuexecutionprovider"@),
        provider_of(None) == "auto"@,
{
    reveal_strlit("auto");
    reveal_strlit("cuda");
    reveal_strlit("nvidia");
    reveal_strlit("cudaexecutionprovider");
    reveal_strlit("");
    reveal_strlit("openvino");
    reveal_strlit("intel");
    reveal_strlit("gpu");
    reveal_strlit("openvinoexecutionprovider");
    reveal_strlit("cpu");
    reveal_strlit("cpuexecutionprovider");
    assert("cuda"@.len() == 4 && "auto"@.len() == 4 && "nvidia"@.len() == 6 && "cpu"@.len() == 3);
    assert("cuda"@[0] == 'c' && "auto"@[0] == 'a' && "gpu"@[0] == 'g' && "cpu"@[0] == 'c');
    assert("cpuexecutionprovider"@.len() == 20 && "cudaexecutionprovider"@.len() == 21);
    assert("openvinoexecutionprovider"@.len() == 25 && "openvino"@.len() == 8);
    assert("intel"@.len() == 5);
    let a = "auto"@;
    crate::text::lemma_trim_fixed(a, crate::text::CharClass::White);
    assert(lower(a) =~= a);
}

/// Whatever was committed first is the core that stays; while nothing was committed the next
/// attempt is due, and after the last there is none.
pub proof fn the_first_commit_decides(
    attempts: Seq<AttemptView>,
    outcomes: Seq<InitView>,
    k: int,
)
    requires
        0 <= k <= outcomes.len() <= attempts.len(),
        forall|i: int| 0 <= i < k ==> !(#[trigger] outcomes[i] is Committed),
        k < outcomes.len() ==> outcomes[k] is Committed,
    ensures
        k < outcomes.len() ==> core_decision(None, attempts, outcomes) is Locked && core_decision(
            None,
            attempts,
            outcomes,
        )->Locked_0 == attempts[k].core,
        k == outcomes.len() && k < attempts.len() ==> core_decision(None, attempts, outcomes)
            == DecisionView::Attempt(k),
        k == outcomes.len() && k == attempts.len() ==> core_decision(None, attempts, outcomes)
            is Exhausted,
{
    lemma_commit_found(outcomes, 0, k);
}

/// Where the first commit is.
proof fn lemma_commit_found(outcomes: Seq<InitView>, from: int, k: int)
    requires
        0 <= from <= k <= outcomes.len(),
        forall|i: int| from <= i < k ==> !(#[trigger] outcomes[i] is Committed),
        k < outcomes.len() ==> outcomes[k] is Committed,
    ensures
        first_commit(outcomes, from) == k,
    decreases k - from,
{
    if from < k {
        assert(!(outcomes[from] is Committed));
        lemma_commit_found(outcomes, from + 1, k);
    }
}

/// The cores are tried in order: the one with the fast library where it is wanted and there,
/// then each place of the other library, and the plain processor last.
pub proof fn cores_are_tried_in_order(
    provider: Option<Seq<char>>,
    library: Option<Seq<char>>,
    places: Seq<Seq<char>>,
    i: int,
)
    requires
        0 <= i < places.len(),
    ensures
        ({
            let all = attempts(provider, library, places);
            let first: int = if cuda_wanted(provider_of(provider)) && library is Some {
                1
            } else {
                0
            };
            &&& all.len() == first + places.len() + 1
            &&& first == 1 ==> all[0] == (AttemptView { core: OrtCoreType::Cuda, path: library })
            &&& all[first + i] == (AttemptView {
                core: OrtCoreType::OpenVino,
                path: Some(places[i]),
            })
            &&& all.last() == (AttemptView { core: OrtCoreType::Cpu, path: None })
        }),
{
}

/// A load in which the model is there builds for the core that was chosen, where that core is
/// wanted, and for the plain processor otherwise; what was built ends the load.
pub proof fn loads_build_for_the_chosen_core(
    s: LoadSettings,
    core: OrtCoreType,
    complaint: Option<Seq<char>>,
)
    requires
        !s.force_cpu,
        !s.want_cuda ==> core != OrtCoreType::Cuda,
    ensures
        ({
            let waits = if s.want_cuda {
                seq![LoadEventView::Begin(true), LoadEventView::Waited]
            } else {
                seq![LoadEventView::Begin(true)]
            };
            let events = waits.push(LoadEventView::Model(true)).push(
                LoadEventView::Core(core, complaint),
            );
            let chosen = load_run(s, events);
            &&& core == OrtCoreType::Cuda ==> chosen.stage == LoadStage::Cuda
            &&& core != OrtCoreType::Cuda && s.want_openvino && (s.intel_gpu || !s.auto_provider)
                ==> chosen.stage == LoadStage::OpenVino
            &&& core != OrtCoreType::Cuda && !s.want_openvino ==> chosen.stage == LoadStage::Cpu
            &&& chosen.reasons == complaint
            &&& load_run(s, events.push(LoadEventView::Made)).stage == LoadStage::Over
            &&& load_step(s, chosen, LoadEventView::Made).1 == LoadActionView::Done(complaint)
        }),
{
    let begin = seq![LoadEventView::Begin(true)];
    let waits = if s.want_cuda {
        seq![LoadEventView::Begin(true), LoadEventView::Waited]
    } else {
        begin
    };
    let model = waits.push(LoadEventView::Model(true));
    let events = model.push(LoadEventView::Core(core, complaint));
    assert(begin.drop_last() =~= Seq::<LoadEventView>::empty());
    assert(load_run(s, begin.drop_last()).stage == LoadStage::Start);
    assert(begin.last() == LoadEventView::Begin(true));
    assert(load_run(s, begin) == past_model_wait(s).0);
    if s.want_cuda {
        assert(waits.drop_last() =~= begin);
        assert(load_run(s, waits).stage == LoadStage::RecheckModel);
    }
    assert(load_run(s, waits).stage == LoadStage::RecheckModel);
    assert(model.drop_last() =~= waits);
    assert(load_run(s, model).stage == LoadStage::ChooseCore);
    assert(events.drop_last() =~= model);
    assert(events.push(LoadEventView::Made).drop_last() =~= events);
}

/// Where the plain processor is forced, or an accelerator fails and falling back is allowed,
/// the session is built for the plain processor, and the failure is told.
pub proof fn the_plain_processor_is_the_fallback(
    s: LoadSettings,
    state: LoadView,
    error: Seq<char>,
)
    ensures
        s.force_cpu && state.stage == LoadStage::RecheckModel ==> load_step(
            s,
            state,
            LoadEventView::Model(true),
        ).1 is BuildCpu,
        state.stage == LoadStage::RecheckModel ==> load_step(
            s,
            state,
            LoadEventView::Model(false),
        ).1 is ModelMissing,
        s.allow_fallback && (state.stage == LoadStage::Cuda || state.stage == LoadStage::OpenVino)
            ==> {
            let (next, action) = load_step(s, state, LoadEventView::Failed(error));
            &&& action is BuildCpu
            &&& next.stage == LoadStage::Cpu
            &&& next.reasons matches Some(r) && crate::text::ends_with(r, error)
            &&& state.reasons matches Some(old) ==> crate::text::starts_with(
                next.reasons->Some_0,
                old,
            )
        },
{
    if s.allow_fallback && (state.stage == LoadStage::Cuda || state.stage == LoadStage::OpenVino) {
        let prefix = if state.stage == LoadStage::Cuda {
            "CUDAExecutionProvider failed: "@
        } else {
            "OpenVINOExecutionProvider failed: "@
        };
        match state.reasons {
            Some(old) => {
                let r = old + "; "@ + (prefix + error);
                assert(r =~= old + ("; "@ + prefix + error));
                assert(r =~= old + "; "@ + prefix + error);
                crate::text_laws::parts_are_found(old, "; "@ + prefix + error, Seq::empty());
                crate::text_laws::parts_are_found(Seq::empty(), old + "; "@ + prefix, error);
            },
            None => {
                crate::text_laws::parts_are_found(Seq::empty(), prefix, error);
            },
        }
    }
}

/// What a status tells: nothing is ready that is switched off, has no model, failed or is not
/// loaded.
pub proof fn ready_sessions_are_loaded(
    enabled: bool,
    model_there: bool,
    slot: CcipSessionSlot,
    preparing: bool,
)
    ensures
        status_reason(enabled, model_there, slot, preparing) == StatusReason::Ready <==> enabled
            && model_there && (slot.session matches Some(Ok(_))),
        status_reason(enabled, model_there, slot, preparing) == StatusReason::LoadFailed <==> enabled
            && model_there && (slot.session matches Some(Err(_))),
        status_reason(enabled, model_there, slot, preparing) == StatusReason::Disabled <==> !enabled,
        status_reason(enabled, model_there, slot, preparing) == StatusReason::ModelNotFound <==> enabled
            && !model_there,
        status_reason(enabled, model_there, slot, preparing) == StatusReason::Preparing <==> enabled
            && model_there && slot.session is None && preparing,
{
}

/// A graphics device is told by its name, whatever its case and wherever in it that stands.
pub proof fn graphics_devices_are_told_by_name(front: Seq<char>, word: Seq<char>, back: Seq<char>)
    requires
        upper(word) == "GPU"@,
    ensures
        is_gpu(front + word + back),
{
    assert(upper(front + word + back) =~= upper(front) + upper(word) + upper(back));
    crate::text_laws::parts_are_found(upper(front), "GPU"@, upper(back));
}

/// The codes of the cores: each core has one, and no other code has a core.
pub proof fn codes_tell_cores_apart(a: u8, b: u8)
    ensures
        core_of(a) is Some && core_of(a) == core_of(b) ==> a == b,
        core_of(a) is Some <==> 1 <= a <= 3,
        core_of(1) == Some(OrtCoreType::Cpu),
        core_of(2) == Some(OrtCoreType::OpenVino),
        core_of(3) == Some(OrtCoreType::Cuda),
{
}

/// The device is what is given for it, trimmed, and the graphics device where nothing is; a
/// blank setting counts as none.
pub proof fn devices_default_to_graphics(value: Seq<char>)
    ensures
        device_of(None) == "GPU"@,
        trimmed(value).len() == 0 ==> device_of(Some(value)) == "GPU"@ && filled(
            Some(value),
        ) is None,
        trimmed(value).len() > 0 ==> device_of(Some(value)) == trimmed(value) && filled(Some(value))
            == Some(trimmed(value)),
        filled(None) is None,
{
}

/// Falling back is allowed unless a setting says otherwise, and the newer setting counts before
/// the older one.
pub proof fn newer_settings_decide_on_the_fallback(value: Seq<char>, other: Option<Seq<char>>)
    ensures
        fallback_allowed(None, None),
        fallback_allowed(Some(value), other) == says_yes(value),
        fallback_allowed(None, Some(value)) == says_yes(value),
{
}

/// The library is looked for where it is named, then beside the program under each of its
/// names, and by its plain name last; a blank name counts as none.
pub proof fn libraries_are_looked_for_in_order(named: Seq<char>, dir: Seq<char>)
    requires
        trimmed(named).len() > 0,
    ensures
        ({
            let all = library_places(Some(named), Some(dir));
            &&& all.len() == 6
            &&& all[0] == named
            &&& all[1] == path_joined(dir, "libonnxruntime.so"@)
            &&& all[2] == path_joined(dir, "libonnxruntime.so.1"@)
            &&& all[5] == "libonnxruntime.so"@
        }),
        library_places(None, None) == seq!["libonnxruntime.so"@],
        library_places(Some(Seq::empty()), Some(dir)) == library_places(None, Some(dir)),
        library_places(Some(named), None) == seq![named, "libonnxruntime.so"@],
{
    crate::text_laws::white_texts_are_trimmed_away(Seq::empty());
    assert(library_places(None, None) =~= seq!["libonnxruntime.so"@]);
    assert(library_places(Some(named), None) =~= seq![named, "libonnxruntime.so"@]);
}

/// A session is idle once it was not used for as long as the timeout; one that was never used
/// is not, and a clock that went back counts as no time.
pub proof fn unused_sessions_become_idle(slot: CcipSessionSlot, at: u128, now: u128, timeout: u128)
    requires
        slot.last_used == Some(at),
        timeout > 0,
    ensures
        slot.idle(now, timeout) <==> now >= at + timeout,
        !(CcipSessionSlot { last_used: None, ..slot }).idle(now, timeout),
        now >= at ==> idle_seconds_of(slot, now) == Some(((now - at) / 1_000_000_000) as u128),
        now < at ==> idle_seconds_of(slot, now) == Some(0u128),
{
}

/// The model lies in the folder that is given for it, else below the cache, else below the
/// data folder.
pub proof fn models_lie_where_they_are_set(s: ModelSettings)
    ensures
        s.model_dir matches Some(d) ==> model_dir_of(s) == d@,
        s.model_dir is None && (s.cache_root is Some) ==> model_dir_of(s) == s.cache_root->Some_0@
            + "/character"@,
        s.model_dir is None && s.cache_root is None ==> model_dir_of(s) == "data/models/character"@,
        s.variant matches Some(v) ==> variant_of(s) == v@,
        s.file matches Some(f) ==> file_of(s) == f@,
        s.repo_id matches Some(r) ==> repo_of(s) == r@,
        s.variant is None ==> variant_of(s) == "ccip-caformer_b36-24"@,
        s.file is None ==> file_of(s) == "model_feat.onnx"@,
        s.repo_id is None ==> repo_of(s) == "deepghs/ccip_onnx"@,
{
}

/// Reasons are told one behind the other, and none is lost.
pub proof fn reasons_are_told_in_order(first: Seq<char>, second: Seq<char>)
    ensures
        with_reason(None, first) == Some(first),
        ({
            let both = with_reason(with_reason(None, first), second)->Some_0;
            &&& both.take(first.len() as int) == first
            &&& both.skip(both.len() - second.len()) == second
            &&& both.len() == first.len() + second.len() + 2
        }),
{
    reveal_strlit("; ");
    let both = with_reason(with_reason(None, first), second)->Some_0;
    assert(both.take(first.len() as int) =~= first);
    assert(both.skip(both.len() - second.len()) =~= second);
}

}
