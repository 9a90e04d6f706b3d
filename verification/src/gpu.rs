//! Backend selection for batch signal conditioning: which compute APIs this
//! build can open, the order in which a request tries them, and what is
//! reported when one is missing.
//!
//! This build carries the scalar CPU processor only; Metal and CUDA report
//! that they were left out of the build. The conditioning arithmetic itself
//! is floating point and runs in the host.

use vstd::prelude::*;
use vstd::string::StringExecFns;
use crate::routing::{append_number, decimal};

verus! {

/// A compute API, or `Auto` for the selection policy.
#[derive(Debug, Clone, Copy, PartialEq, Eq, Structural)]
pub enum BackendKind {
    Auto,
    Cpu,
    Metal,
    Cuda,
}

/// Display label of a backend.
pub open spec fn label_of(kind: BackendKind) -> Seq<char> {
    match kind {
        BackendKind::Auto => "Auto"@,
        BackendKind::Cpu => "CPU"@,
        BackendKind::Metal => "Metal"@,
        BackendKind::Cuda => "CUDA"@,
    }
}

/// Debug name of a backend (its variant name).
pub open spec fn debug_name(kind: BackendKind) -> Seq<char> {
    match kind {
        BackendKind::Auto => "Auto"@,
        BackendKind::Cpu => "Cpu"@,
        BackendKind::Metal => "Metal"@,
        BackendKind::Cuda => "Cuda"@,
    }
}

impl BackendKind {
    /// Every backend kind, `Auto` first.
    pub fn all() -> (r: [BackendKind; 4])
        ensures
            r@ == seq![BackendKind::Auto, BackendKind::Cpu, BackendKind::Metal, BackendKind::Cuda],
    {
        [BackendKind::Auto, BackendKind::Cpu, BackendKind::Metal, BackendKind::Cuda]
    }

    pub fn label(self) -> (r: &'static str)
        ensures
            r@ == label_of(self),
    {
        match self {
            BackendKind::Auto => "Auto",
            BackendKind::Cpu => "CPU",
            BackendKind::Metal => "Metal",
            BackendKind::Cuda => "CUDA",
        }
    }

    /// The variant name, as `{:?}` prints it.
    pub fn debug_label(self) -> (r: &'static str)
        ensures
            r@ == debug_name(self),
    {
        match self {
            BackendKind::Auto => "Auto",
            BackendKind::Cpu => "Cpu",
            BackendKind::Metal => "Metal",
            BackendKind::Cuda => "Cuda",
        }
    }
}

/// Backend named on a command line, case-insensitively; anything else asks
/// for `Auto`.
pub open spec fn backend_named(text: Seq<char>) -> BackendKind {
    if same_ignoring_ascii_case(text, "cpu"@) {
        BackendKind::Cpu
    } else if same_ignoring_ascii_case(text, "metal"@) {
        BackendKind::Metal
    } else if same_ignoring_ascii_case(text, "cuda"@) {
        BackendKind::Cuda
    } else {
        BackendKind::Auto
    }
}

/// Code of a character after `char::to_ascii_lowercase`.
pub open spec fn lower_code(c: char) -> u32 {
    if 65 <= (c as u32) <= 90 {
        ((c as u32) + 32) as u32
    } else {
        c as u32
    }
}

/// `text.to_ascii_lowercase() == word`, for a lower-case `word`.
pub open spec fn same_ignoring_ascii_case(text: Seq<char>, word: Seq<char>) -> bool {
    &&& text.len() == word.len()
    &&& forall|i: int| 0 <= i < text.len() ==> lower_code(#[trigger] text[i]) == word[i] as u32
}

fn matches_lower(chars: &Vec<char>, word: &str) -> (b: bool)
    ensures
        b == same_ignoring_ascii_case(chars@, word@),
{
    let n = word.unicode_len();
    if chars.len() != n {
        return false;
    }
    let mut i: usize = 0;
    while i < n
        invariant
            i <= n,
            n == chars@.len(),
            n == word@.len(),
            forall|q: int| 0 <= q < i ==> lower_code(#[trigger] chars@[q]) == word@[q] as u32,
        decreases n - i,
    {
        let w = word.get_char(i) as u32;
        let c = chars[i] as u32;
        let l: u32 = if 65 <= c && c <= 90 { c + 32 } else { c };
        if l != w {
            return false;
        }
        i = i + 1;
    }
    true
}

/// Backend requested by name, as the info tool reads its argument.
pub fn parse_backend(value: &str) -> (r: BackendKind)
    ensures
        r == backend_named(value@),
{
    let chars = crate::text::chars_of(value);
    if matches_lower(&chars, "cpu") {
        BackendKind::Cpu
    } else if matches_lower(&chars, "metal") {
        BackendKind::Metal
    } else if matches_lower(&chars, "cuda") {
        BackendKind::Cuda
    } else {
        BackendKind::Auto
    }
}

// ---------------------------------------------------------------------------
// Errors
// ---------------------------------------------------------------------------

/// Why a backend could not be used.
#[derive(Debug, Clone, PartialEq, Eq)]
pub enum GpuError {
    Unavailable { backend: BackendKind, reason: String },
    LengthMismatch { input: usize, output: usize },
    Compute { backend: BackendKind, reason: String },
}

/// The message of an error, as the host prints it.
pub open spec fn error_text(e: GpuError) -> Seq<char> {
    match e {
        GpuError::Unavailable { backend, reason } => debug_name(backend) + " unavailable: "@ + reason@,
        GpuError::LengthMismatch { input, output } => "GPU input length "@ + decimal(input as nat)
            + " does not match output length "@ + decimal(output as nat),
        GpuError::Compute { backend, reason } => debug_name(backend) + " compute failed: "@ + reason@,
    }
}

impl GpuError {
    /// The error's message.
    pub fn message(&self) -> (r: String)
        ensures
            r@ == error_text(*self),
    {
        match self {
            GpuError::Unavailable { backend, reason } => {
                let mut s = String::from_str(backend.debug_label());
                s.append(" unavailable: ");
                s.append(reason.as_str());
                s
            },
            GpuError::LengthMismatch { input, output } => {
                let mut s = String::from_str("GPU input length ");
                append_number(&mut s, *input as u64);
                s.append(" does not match output length ");
                append_number(&mut s, *output as u64);
                s
            },
            GpuError::Compute { backend, reason } => {
                let mut s = String::from_str(backend.debug_label());
                s.append(" compute failed: ");
                s.append(reason.as_str());
                s
            },
        }
    }
}

// ---------------------------------------------------------------------------
// Processors
// ---------------------------------------------------------------------------

/// The scalar CPU processor, always available.
#[derive(Debug, Clone, Copy, PartialEq, Eq, Structural)]
pub struct CpuProcessor;

impl CpuProcessor {
    pub fn kind(&self) -> (r: BackendKind)
        ensures
            r == BackendKind::Cpu,
    {
        BackendKind::Cpu
    }

    pub fn device_name(&self) -> (r: &'static str)
        ensures
            r@ == cpu_device_name(),
    {
        "Scalar CPU fallback"
    }
}

pub open spec fn cpu_device_name() -> Seq<char> {
    "Scalar CPU fallback"@
}

/// Why opening a backend fails in this build, or `None` where it opens.
pub open spec fn unavailable_reason(kind: BackendKind) -> Option<Seq<char>> {
    match kind {
        BackendKind::Auto => Some("Auto is a selection policy, not a compute API"@),
        BackendKind::Cpu => None,
        BackendKind::Metal => Some("Schisma was built without the metal feature"@),
        BackendKind::Cuda => Some("Schisma was built without the cuda feature"@),
    }
}

/// Opens the processor of a backend.
pub fn create_processor(kind: BackendKind) -> (r: Result<CpuProcessor, GpuError>)
    ensures
        match unavailable_reason(kind) {
            None => r is Ok,
            Some(reason) => r matches Err(GpuError::Unavailable { backend, reason: why }) && backend == kind
                && why@ == reason,
        },
{
    match kind {
        BackendKind::Auto => Err(
            GpuError::Unavailable {
                backend: kind,
                reason: String::from_str("Auto is a selection policy, not a compute API"),
            },
        ),
        BackendKind::Cpu => Ok(CpuProcessor),
        BackendKind::Metal => Err(
            GpuError::Unavailable {
                backend: kind,
                reason: String::from_str("Schisma was built without the metal feature"),
            },
        ),
        BackendKind::Cuda => Err(
            GpuError::Unavailable {
                backend: kind,
                reason: String::from_str("Schisma was built without the cuda feature"),
            },
        ),
    }
}

/// What `discover` reports of one backend.
#[derive(Debug, Clone, PartialEq, Eq)]
pub struct BackendStatus {
    pub kind: BackendKind,
    pub available: bool,
    pub device_name: String,
    pub detail: String,
}

/// The report on one backend: its device where it opens, else why not.
pub open spec fn status_holds(s: BackendStatus, kind: BackendKind) -> bool {
    &&& s.kind == kind
    &&& match unavailable_reason(kind) {
        None => s.available && s.device_name@ == cpu_device_name() && s.detail@ == "ready"@,
        Some(reason) => !s.available && s.device_name@ == "Unavailable"@ && s.detail@ == debug_name(kind)
            + " unavailable: "@ + reason,
    }
}

fn status_of(kind: BackendKind) -> (s: BackendStatus)
    ensures
        status_holds(s, kind),
{
    match create_processor(kind) {
        Ok(processor) => BackendStatus {
            kind,
            available: true,
            device_name: String::from_str(processor.device_name()),
            detail: String::from_str("ready"),
        },
        Err(error) => BackendStatus {
            kind,
            available: false,
            device_name: String::from_str("Unavailable"),
            detail: error.message(),
        },
    }
}

/// Reports Metal, CUDA and the CPU, in that order.
pub fn discover() -> (r: Vec<BackendStatus>)
    ensures
        r@.len() == 3,
        status_holds(r@[0], BackendKind::Metal),
        status_holds(r@[1], BackendKind::Cuda),
        status_holds(r@[2], BackendKind::Cpu),
{
    let mut r: Vec<BackendStatus> = Vec::new();
    r.push(status_of(BackendKind::Metal));
    r.push(status_of(BackendKind::Cuda));
    r.push(status_of(BackendKind::Cpu));
    r
}

// ---------------------------------------------------------------------------
// Selection
// ---------------------------------------------------------------------------

/// The order in which a request tries backends. `Auto` prefers Metal on
/// macOS and CUDA elsewhere; every order ends with the CPU.
pub open spec fn candidates(requested: BackendKind, on_macos: bool) -> Seq<BackendKind> {
    match requested {
        BackendKind::Auto => if on_macos {
            seq![BackendKind::Metal, BackendKind::Cuda, BackendKind::Cpu]
        } else {
            seq![BackendKind::Cuda, BackendKind::Metal, BackendKind::Cpu]
        },
        BackendKind::Cpu => seq![BackendKind::Cpu],
        BackendKind::Metal => seq![BackendKind::Metal, BackendKind::Cpu],
        BackendKind::Cuda => seq![BackendKind::Cuda, BackendKind::Cpu],
    }
}

pub fn backend_candidates(requested: BackendKind, on_macos: bool) -> (r: Vec<BackendKind>)
    ensures
        r@ == candidates(requested, on_macos),
{
    match requested {
        BackendKind::Auto => if on_macos {
            vec![BackendKind::Metal, BackendKind::Cuda, BackendKind::Cpu]
        } else {
            vec![BackendKind::Cuda, BackendKind::Metal, BackendKind::Cpu]
        },
        BackendKind::Cpu => vec![BackendKind::Cpu],
        BackendKind::Metal => vec![BackendKind::Metal, BackendKind::Cpu],
        BackendKind::Cuda => vec![BackendKind::Cuda, BackendKind::Cpu],
    }
}

/// Messages of the candidates before the first one that opens.
pub open spec fn failures_before(c: Seq<BackendKind>, n: int) -> Seq<Seq<char>>
    decreases n,
{
    if n <= 0 {
        seq![]
    } else {
        failures_before(c, n - 1).push(
            debug_name(c[n - 1]) + " unavailable: "@ + unavailable_reason(c[n - 1])->Some_0,
        )
    }
}

/// Index of the first candidate that opens.
pub open spec fn first_open(c: Seq<BackendKind>, i: int) -> int
    decreases c.len() - i,
{
    if i >= c.len() || unavailable_reason(c[i]) is None {
        i
    } else {
        first_open(c, i + 1)
    }
}

/// Messages joined with `"; "`.
pub open spec fn joined(parts: Seq<Seq<char>>) -> Seq<char>
    decreases parts.len(),
{
    if parts.len() == 0 {
        seq![]
    } else if parts.len() == 1 {
        parts[0]
    } else {
        joined(parts.drop_last()) + "; "@ + parts.last()
    }
}

/// A selected backend and the reasons the ones tried before it failed.
#[derive(Debug, Clone)]
pub struct Accelerator {
    requested: BackendKind,
    processor: CpuProcessor,
    fallback_reason: Option<String>,
}

impl Accelerator {
    pub closed spec fn requested_kind(&self) -> BackendKind {
        self.requested
    }

    pub closed spec fn active_kind(&self) -> BackendKind {
        BackendKind::Cpu
    }

    pub closed spec fn fallback_text(&self) -> Option<Seq<char>> {
        match self.fallback_reason {
            Some(s) => Some(s@),
            None => None,
        }
    }

    /// Tries the candidates of `requested` in order and keeps the first
    /// that opens; the failures before it, joined with `"; "`, are the
    /// fallback reason. `on_macos` is the platform the build targets.
    pub fn new(requested: BackendKind, on_macos: bool) -> (a: Self)
        ensures
            a.requested_kind() == requested,
            a.active_kind() == candidates(requested, on_macos)[
                first_open(candidates(requested, on_macos), 0)],
            ({
                let c = candidates(requested, on_macos);
                let k = first_open(c, 0);
                if k == 0 {
                    a.fallback_text() is None
                } else {
                    a.fallback_text() == Some(joined(failures_before(c, k)))
                }
            }),
    {
        let cands = backend_candidates(requested, on_macos);
        let ghost c = cands@;
        let mut failures: Vec<String> = Vec::new();
        let mut i: usize = 0;
        proof {
            lemma_cpu_last(requested, on_macos);
        }
        while i < cands.len()
            invariant_except_break
                i <= cands@.len(),
                c == cands@,
                c == candidates(requested, on_macos),
                c.len() >= 1,
                c.last() == BackendKind::Cpu,
                forall|q: int| 0 <= q < i ==> unavailable_reason(#[trigger] c[q]) is Some,
                failures@.len() == i,
                forall|q: int| 0 <= q < i ==> (#[trigger] failures@[q])@ == failures_before(c, i as int)[q],
            ensures
                i < cands@.len(),
                unavailable_reason(c[i as int]) is None,
                forall|q: int| 0 <= q < i ==> unavailable_reason(#[trigger] c[q]) is Some,
                failures@.len() == i,
                forall|q: int| 0 <= q < i ==> (#[trigger] failures@[q])@ == failures_before(c, i as int)[q],
            decreases cands@.len() - i,
        {
            match create_processor(cands[i]) {
                Ok(_) => {
                    break;
                },
                Err(error) => {
                    let ghost before = failures@;
                    failures.push(error.message());
                    proof {
                        lemma_failures_len(c, i as int);
                        assert(unavailable_reason(c[i as int]) is Some);
                        assert forall|q: int| 0 <= q < i + 1 implies (#[trigger] failures@[q])@
                            == failures_before(c, i + 1)[q] by {
                            if q < i {
                                assert(failures@[q] == before[q]);
                            }
                        }
                    }
                    i = i + 1;
                    if i == cands.len() {
                        proof {
                            assert(c[i - 1] == BackendKind::Cpu);
                        }
                    }
                },
            }
        }
        proof {
            lemma_first_open(c, 0, i as int);
            lemma_failures_len(c, i as int);
            assert(Seq::new(failures@.len(), |q: int| failures@[q]@) =~= failures_before(c, i as int));
        }
        let fallback_reason = if failures.len() == 0 {
            None
        } else {
            Some(join_messages(&failures))
        };
        Accelerator { requested, processor: CpuProcessor, fallback_reason }
    }

    pub fn requested(&self) -> (r: BackendKind)
        ensures
            r == self.requested_kind(),
    {
        self.requested
    }

    pub fn active(&self) -> (r: BackendKind)
        ensures
            r == self.active_kind(),
    {
        self.processor.kind()
    }

    pub fn device_name(&self) -> (r: &'static str)
        ensures
            r@ == cpu_device_name(),
    {
        self.processor.device_name()
    }

    pub fn fallback_reason(&self) -> (r: Option<&str>)
        ensures
            match self.fallback_text() {
                Some(t) => r matches Some(s) && s@ == t,
                None => r is None,
            },
    {
        match &self.fallback_reason {
            Some(s) => Some(s.as_str()),
            None => None,
        }
    }

    /// Checks that an input and an output buffer have one length, as
    /// conditioning needs.
    pub fn check_lengths(&self, input: usize, output: usize) -> (r: Result<(), GpuError>)
        ensures
            input == output ==> r is Ok,
            input != output ==> r == Err::<(), GpuError>(GpuError::LengthMismatch { input, output }),
    {
        if input != output {
            Err(GpuError::LengthMismatch { input, output })
        } else {
            Ok(())
        }
    }
}

proof fn lemma_cpu_last(requested: BackendKind, on_macos: bool)
    ensures
        candidates(requested, on_macos).len() >= 1,
        candidates(requested, on_macos).last() == BackendKind::Cpu,
{
}

proof fn lemma_failures_len(c: Seq<BackendKind>, n: int)
    requires
        n >= 0,
    ensures
        failures_before(c, n).len() == n,
    decreases n,
{
    if n > 0 {
        lemma_failures_len(c, n - 1);
    }
}

proof fn lemma_first_open(c: Seq<BackendKind>, from: int, i: int)
    requires
        0 <= from <= i < c.len(),
        unavailable_reason(c[i]) is None,
        forall|q: int| from <= q < i ==> unavailable_reason(#[trigger] c[q]) is Some,
    ensures
        first_open(c, from) == i,
    decreases i - from,
{
    if from < i {
        lemma_first_open(c, from + 1, i);
    }
}

fn join_messages(parts: &Vec<String>) -> (r: String)
    requires
        parts@.len() >= 1,
    ensures
        r@ == joined(Seq::new(parts@.len(), |q: int| parts@[q]@)),
{
    let mut r = parts[0].clone();
    let mut i: usize = 1;
    proof {
        let first = Seq::new(1, |q: int| parts@[q]@);
        assert(first.len() == 1);
    }
    while i < parts.len()
        invariant
            1 <= i <= parts@.len(),
            r@ == joined(Seq::new(i as nat, |q: int| parts@[q]@)),
        decreases parts@.len() - i,
    {
        r.append("; ");
        r.append(parts[i].as_str());
        proof {
            let next = Seq::new((i + 1) as nat, |q: int| parts@[q]@);
            assert(next.drop_last() =~= Seq::new(i as nat, |q: int| parts@[q]@));
        }
        i = i + 1;
    }
    r
}


proof fn lemma_open_from(c: Seq<BackendKind>, i: int)
    requires
        c.len() >= 1,
        c.last() == BackendKind::Cpu,
        0 <= i < c.len(),
        forall|j: int| 0 <= j < i ==> unavailable_reason(#[trigger] c[j]) is Some,
    ensures
        0 <= first_open(c, 0) < c.len(),
        unavailable_reason(c[first_open(c, 0)]) is None,
        forall|j: int| 0 <= j < first_open(c, 0) ==> unavailable_reason(#[trigger] c[j]) is Some,
    decreases c.len() - i,
{
    if unavailable_reason(c[i]) is None {
        lemma_first_open(c, 0, i);
    } else {
        lemma_open_from(c, i + 1);
    }
}

/// Every request, `Auto` or explicit, on any platform, ends at a backend
/// that opens: the CPU is the last candidate and always opens, so the
/// selected backend is the first candidate that opens.
pub proof fn law_every_request_falls_back(requested: BackendKind, on_macos: bool)
    ensures
        ({
            let c = candidates(requested, on_macos);
            let k = first_open(c, 0);
            &&& 0 <= k < c.len()
            &&& unavailable_reason(c[k]) is None
            &&& forall|j: int| 0 <= j < k ==> unavailable_reason(#[trigger] c[j]) is Some
        }),
{
    let c = candidates(requested, on_macos);
    lemma_open_from(c, 0);
}

} // verus!
