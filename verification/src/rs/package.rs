//! What lowering a whole package decides.
//!
//! The caller runs `cargo check` with the lowering as compiler wrapper and
//! reports what came of it. A package that cargo considers fresh is never seen
//! by the wrapper, so its fingerprints are cleared and the check runs again.

use vstd::prelude::*;

use crate::rs::driver::{hash_of, hash_text, hex_digits, hex_text, hex_width};
use crate::rs::wire::{
    module_of, wire_to_module, LoweredModule, ModuleView, WireModule, WireModuleView,
};
use crate::text::{after_prefix, chars_of, decimal, decimal_text, joined, replace, replaced, starts_with, texts};

verus! {

/// The toolchain that the lowering is pinned to: dependencies and the analyzed
/// crate share one compiler version.
pub const PINNED_TOOLCHAIN: &'static str = "nightly-2026-08-13";

/// Something went wrong invoking or reading the MIR lowering.
#[derive(Debug, Clone)]
pub enum RsError {
    /// The helper could not be found anywhere.
    HelperMissing,
    /// The helper could not be spawned.
    Spawn(String),
    /// The helper exited non-zero, usually a compile error in the target.
    Failed {
        /// Exit status, rendered.
        status: String,
        /// The helper's stderr, which carries the compiler's own diagnostics.
        stderr: String,
    },
    /// The helper produced output that could not be read.
    Decode(String),
}

/// A failure as plain text.
pub enum RsErrorView {
    HelperMissing,
    Spawn(Seq<char>),
    Failed { status: Seq<char>, stderr: Seq<char> },
    Decode(Seq<char>),
}

impl View for RsError {
    type V = RsErrorView;

    open spec fn view(&self) -> RsErrorView {
        match *self {
            RsError::HelperMissing => RsErrorView::HelperMissing,
            RsError::Spawn(text) => RsErrorView::Spawn(text@),
            RsError::Failed { status, stderr } => RsErrorView::Failed {
                status: status@,
                stderr: stderr@,
            },
            RsError::Decode(text) => RsErrorView::Decode(text@),
        }
    }
}

impl RsErrorView {
    /// The message of the error.
    pub open spec fn text(self) -> Seq<char> {
        match self {
            RsErrorView::HelperMissing =>
                "vikt-rust-lower not found. Build it once with:\n    cd tools/rust-lower && cargo build --release\n(rustup fetches the pinned nightly automatically), then either put it on PATH or set VIKT_RUST_LOWER to the binary."@,
            RsErrorView::Spawn(text) => "could not run the MIR lowering: "@ + text,
            RsErrorView::Failed { status, stderr } => "vikt-rust-lower exited with "@ + status
                + ": "@ + stderr,
            RsErrorView::Decode(text) => "could not parse the lowering output: "@ + text,
        }
    }
}

impl RsError {
    /// The message of the error.
    pub fn message(&self) -> (r: String)
        ensures
            r@ == self@.text(),
    {
        match self {
            RsError::HelperMissing =>
                "vikt-rust-lower not found. Build it once with:\n    cd tools/rust-lower && cargo build --release\n(rustup fetches the pinned nightly automatically), then either put it on PATH or set VIKT_RUST_LOWER to the binary.".to_owned(),
            RsError::Spawn(text) => joined("could not run the MIR lowering: ", text.as_str()),
            RsError::Failed { status, stderr } => {
                let a = joined("vikt-rust-lower exited with ", status.as_str());
                let b = joined(a.as_str(), ": ");
                joined(b.as_str(), stderr.as_str())
            },
            RsError::Decode(text) => joined("could not parse the lowering output: ", text.as_str()),
        }
    }
}

/// Where the helper is looked for, in order: where the environment names it,
/// the directories of the search path, the places where it is built.
pub open spec fn candidates(named: Option<Seq<char>>, on_path: Seq<Seq<char>>) -> Seq<Seq<char>> {
    let first = match named {
        Some(p) => seq![p],
        None => Seq::empty(),
    };
    first + on_path + seq![
        "tools/rust-lower/target/release/vikt-rust-lower"@,
        "tools/rust-lower/target/debug/vikt-rust-lower"@,
    ]
}

/// Where the helper is looked for, in order.
pub fn helper_candidates(named: Option<&str>, on_path: &Vec<String>) -> (r: Vec<String>)
    ensures
        texts(r@) == candidates(
            match named {
                Some(p) => Some(p@),
                None => None,
            },
            texts(on_path@),
        ),
{
    let mut out: Vec<String> = Vec::new();
    let ghost mut first: Seq<Seq<char>> = Seq::empty();
    if let Some(p) = named {
        out.push(p.to_owned());
        proof {
            first = seq![p@];
        }
    }
    assert(texts(out@) =~= first);
    let mut k: usize = 0;
    while k < on_path.len()
        invariant
            k <= on_path.len(),
            texts(out@) =~= first + texts(on_path@).take(k as int),
        decreases on_path.len() - k,
    {
        let ghost before = out@;
        assert(texts(on_path@)[k as int] == on_path@[k as int]@);
        out.push(on_path[k].clone());
        assert(texts(out@) =~= texts(before).push(on_path@[k as int]@));
        k += 1;
    }
    let ghost before = out@;
    out.push("tools/rust-lower/target/release/vikt-rust-lower".to_owned());
    out.push("tools/rust-lower/target/debug/vikt-rust-lower".to_owned());
    proof {
        assert(texts(out@) =~= texts(before) + seq![
            "tools/rust-lower/target/release/vikt-rust-lower"@,
            "tools/rust-lower/target/debug/vikt-rust-lower"@,
        ]);
        assert(texts(on_path@).take(on_path@.len() as int) =~= texts(on_path@));
    }
    out
}

/// The directory that a run's output goes to: parallel runs over different
/// packages do not collide.
pub open spec fn out_dir_named(process: u32, package_root: Seq<char>) -> Seq<char> {
    let h = hash_of(seq![package_root], 1) as nat;
    "vikt-lower-"@ + decimal(process as nat) + "-"@ + hex_digits(h, hex_width(h))
}

/// The directory that a run's output goes to.
pub fn out_dir_name(process: u32, package_root: &str) -> (r: String)
    ensures
        r@ == out_dir_named(process, package_root@),
{
    let a = joined("vikt-lower-", decimal_text(process as u128).as_str());
    let b = joined(a.as_str(), "-");
    joined(b.as_str(), hex_text(hash_text(package_root)).as_str())
}

/// Whether a fingerprint belongs to a package: every one does where no package
/// is selected.
pub open spec fn belongs(package: Option<Seq<char>>, fingerprint: Seq<char>) -> bool {
    match package {
        None => true,
        Some(p) => starts_with(fingerprint, replaced(p, "-"@, "_"@)) || starts_with(fingerprint, p),
    }
}

/// Whether a fingerprint belongs to a package.
pub fn matches_package(package: Option<&str>, fingerprint: &str) -> (r: bool)
    ensures
        r == belongs(
            match package {
                Some(p) => Some(p@),
                None => None,
            },
            fingerprint@,
        ),
{
    match package {
        None => true,
        Some(p) => {
            proof {
                reveal_strlit("-");
            }
            let chars = chars_of(fingerprint);
            let spelled = replace(p, "-", "_");
            after_prefix(chars.as_slice(), spelled.as_str()).is_some() || after_prefix(
                chars.as_slice(),
                p,
            ).is_some()
        },
    }
}

/// How far a run is.
#[derive(Debug, Clone, Copy, PartialEq, Eq, Structural)]
pub enum Phase {
    /// The first check runs.
    First,
    /// The fingerprints are being cleared.
    Clearing,
    /// The check runs again.
    Again,
}

/// What a check came to.
#[derive(Debug, Clone)]
pub struct Checked {
    pub success: bool,
    pub status: String,
    pub stderr: String,
    /// Whether it left any output.
    pub produced: bool,
}

/// What happens next in a run.
#[derive(Debug, Clone)]
pub enum Step {
    /// Clear the package's fingerprints.
    Clear,
    /// Check again.
    Check,
    /// Give up.
    Fail(RsError),
    /// Read the output, in the order of its file names.
    Read,
}

pub enum StepView {
    Clear,
    Check,
    Fail(RsErrorView),
    Read,
}

impl View for Step {
    type V = StepView;

    open spec fn view(&self) -> StepView {
        match *self {
            Step::Clear => StepView::Clear,
            Step::Check => StepView::Check,
            Step::Fail(e) => StepView::Fail(e@),
            Step::Read => StepView::Read,
        }
    }
}

/// What follows a check: a failed one ends the run with what cargo said; a
/// first one that left nothing is tried again once the fingerprints are gone.
pub open spec fn step_after(phase: Phase, c: Checked) -> StepView {
    if phase is Clearing {
        StepView::Check
    } else if phase is First && c.success && !c.produced {
        StepView::Clear
    } else if !c.success {
        StepView::Fail(RsErrorView::Failed { status: c.status@, stderr: c.stderr@ })
    } else {
        StepView::Read
    }
}

/// What follows a check, or the clearing behind it.
pub fn next_step(phase: Phase, checked: &Checked) -> (r: Step)
    ensures
        r@ == step_after(phase, *checked),
{
    match phase {
        Phase::Clearing => Step::Check,
        Phase::First => {
            if checked.success && !checked.produced {
                Step::Clear
            } else if !checked.success {
                failed(checked)
            } else {
                Step::Read
            }
        },
        Phase::Again => {
            if !checked.success {
                failed(checked)
            } else {
                Step::Read
            }
        },
    }
}

fn failed(checked: &Checked) -> (r: Step)
    ensures
        r@ == StepView::Fail(
            RsErrorView::Failed { status: checked.status@, stderr: checked.stderr@ },
        ),
{
    Step::Fail(
        RsError::Failed { status: checked.status.clone(), stderr: checked.stderr.clone() },
    )
}

/// The phase behind a step that is not the last.
pub open spec fn phase_after(phase: Phase) -> Phase {
    match phase {
        Phase::First => Phase::Clearing,
        Phase::Clearing | Phase::Again => Phase::Again,
    }
}

/// The phase behind a step that is not the last.
pub fn next_phase(phase: Phase) -> (r: Phase)
    ensures
        r == phase_after(phase),
{
    match phase {
        Phase::First => Phase::Clearing,
        Phase::Clearing | Phase::Again => Phase::Again,
    }
}

/// A run checks at most twice: behind the second check it reads or fails.
pub proof fn a_run_checks_at_most_twice(c: Checked, d: Checked, e: Checked)
    ensures
        phase_after(phase_after(Phase::First)) == Phase::Again,
        step_after(Phase::Again, e) is Read || step_after(Phase::Again, e) is Fail,
        step_after(Phase::First, c) is Clear ==> step_after(phase_after(Phase::First), d) is Check,
{
}

/// A failed check is never read.
pub proof fn a_failed_check_is_never_read(phase: Phase, c: Checked)
    requires
        !c.success,
    ensures
        !(step_after(phase, c) is Read),
{
}

pub open spec fn wire_modules(v: Seq<WireModule>) -> Seq<WireModuleView> {
    v.map_values(|m: WireModule| m@)
}

pub open spec fn module_views(v: Seq<LoweredModule>) -> Seq<ModuleView> {
    v.map_values(|m: LoweredModule| m@)
}

/// What is said of a run that left nothing to read.
pub open spec fn nothing_lowered() -> RsErrorView {
    RsErrorView::Failed {
        status: "0"@,
        stderr:
            "cargo check succeeded but produced no lowering; is the                      package a proc-macro or build-script-only crate?"@,
    }
}

/// Reads the modules of a run: there is at least one.
///
/// # Errors
///
/// `Failed` when the run left nothing to read.
pub fn read_modules(wire: Vec<WireModule>) -> (r: Result<Vec<LoweredModule>, RsError>)
    ensures
        match r {
            Ok(v) => wire@.len() > 0 && module_views(v@) == wire_modules(wire@).map_values(
                |m: WireModuleView| module_of(m),
            ),
            Err(e) => wire@.len() == 0 && e@ == nothing_lowered(),
        },
{
    if wire.len() == 0 {
        return Err(
            RsError::Failed {
                status: "0".to_owned(),
                stderr:
                    "cargo check succeeded but produced no lowering; is the                      package a proc-macro or build-script-only crate?".to_owned(),
            },
        );
    }
    let ghost all = wire@;
    let mut out: Vec<LoweredModule> = Vec::new();
    for m in it: wire
        invariant
            it.seq() == all,
            out@.len() == it.index(),
            forall|k: int| 0 <= k < it.index() ==> (#[trigger] out@[k])@ == module_of(all[k]@),
    {
        out.push(wire_to_module(m));
    }
    assert(module_views(out@) =~= wire_modules(all).map_values(
        |m: WireModuleView| module_of(m),
    ));
    Ok(out)
}

} // verus!
