//! Rust frontend.
//!
//! The faithful substrate for Rust is MIR: the compiler has already desugared
//! `?`, loops, pattern matches and drops into plain control flow, with spans
//! intact. A helper that links the compiler hands its bodies over.

pub mod calibrate;
pub mod driver;
pub mod mir;
pub mod package;
pub mod wire;

use vstd::prelude::*;

use crate::rs::package::{RsError, RsErrorView};
use crate::rs::wire::{module_of, wire_to_module, LoweredModule, ModuleView, WireModule};

verus! {

/// What the helper came to on one source file.
#[derive(Debug)]
pub struct HelperOutput {
    pub success: bool,
    /// Exit status, rendered.
    pub status: String,
    pub stderr: String,
    /// The module that it printed, or why that could not be read.
    pub module: Result<WireModule, String>,
}

/// What a source file is lowered to: a failed run is reported as such,
/// whatever it printed.
pub open spec fn output_lowered(o: HelperOutput) -> Result<ModuleView, RsErrorView> {
    if !o.success {
        Err(RsErrorView::Failed { status: o.status@, stderr: o.stderr@ })
    } else {
        match o.module {
            Ok(m) => Ok(module_of(m@)),
            Err(text) => Err(RsErrorView::Decode(text@)),
        }
    }
}

/// Lowers a Rust source file, given what the helper came to on it.
///
/// # Errors
///
/// `Failed` when the helper did, with its diagnostics; `Decode` when its
/// output could not be read.
pub fn lower_file(output: HelperOutput) -> (r: Result<LoweredModule, RsError>)
    ensures
        match r {
            Ok(m) => output_lowered(output) == Ok::<ModuleView, RsErrorView>(m@),
            Err(e) => output_lowered(output) == Err::<ModuleView, RsErrorView>(e@),
        },
{
    if !output.success {
        return Err(RsError::Failed { status: output.status, stderr: output.stderr });
    }
    match output.module {
        Ok(m) => Ok(wire_to_module(m)),
        Err(text) => Err(RsError::Decode(text)),
    }
}

} // verus!
