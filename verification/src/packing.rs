//! Collection followed by packaging: the shared "collect then pack" flow.
//!
//! The archive engine itself is supplied by the caller as a function from the
//! collected files (and the caller's packing options) to its output.
use vstd::prelude::*;

use crate::collector::{
    collect_failure, collect_inputs, collected_from, file_views, normalized_files, CollectError,
    CollectOptions, InputFile,
};

verus! {

/// The stages a packing run reports to its progress callback.
pub enum PackProgressEvent {
    /// The files are being handed from a JavaScript host to the WebAssembly module.
    TransferringFilesToWasm,
    /// Source-side files are being collected.
    CollectingSourceInputs,
}

/// Why collection and packaging failed.
pub enum PackError<E> {
    /// Collection of the source files failed.
    Collect(CollectError),
    /// The packing engine, or the progress callback, failed.
    Engine(E),
}

pub open spec fn engine_result<O, E>(out: Result<O, E>) -> Result<O, PackError<E>> {
    match out {
        Ok(o) => Ok(o),
        Err(e) => Err(PackError::Engine(e)),
    }
}

/// Collects source files and hands the collected files, with `pack_options`,
/// to the packing engine `pack`.
pub fn pack_source_files<P, O, E, F>(
    files: Vec<InputFile>,
    collect_options: &CollectOptions,
    pack_options: P,
    pack: F,
) -> (r: Result<O, PackError<E>>)
    where
        F: FnOnce(Vec<InputFile>, P) -> Result<O, E>,
    requires
        forall|v: Vec<InputFile>| call_requires(pack, (v, pack_options)),
    ensures
        match collect_failure(file_views(files@)) {
            Some(e) => r matches Err(PackError::Collect(x)) && x@ == e,
            None => exists|v: Vec<InputFile>, out: Result<O, E>|
                collected_from(normalized_files(file_views(files@)), file_views(v@), collect_options.exclude_rule_file)
                    && call_ensures(pack, (v, pack_options), out) && r == engine_result(out),
        },
{
    match collect_inputs(files, collect_options) {
        Ok(collected) => {
            let out = pack(collected, pack_options);
            match out {
                Ok(o) => Ok(o),
                Err(e) => Err(PackError::Engine(e)),
            }
        },
        Err(e) => Err(PackError::Collect(e)),
    }
}

/// Reports [`PackProgressEvent::CollectingSourceInputs`] to `progress`, collects
/// the source files, and hands them with `pack_options` and `progress` to the
/// packing engine `pack`.
pub fn pack_source_files_with_progress<P, O, E, G, F>(
    files: Vec<InputFile>,
    collect_options: &CollectOptions,
    pack_options: P,
    progress: G,
    pack: F,
) -> (r: Result<O, PackError<E>>)
    where
        G: FnMut(PackProgressEvent) -> Result<(), E>,
        F: FnOnce(Vec<InputFile>, P, G) -> Result<O, E>,
    requires
        call_requires(progress, (PackProgressEvent::CollectingSourceInputs,)),
        forall|v: Vec<InputFile>, g: G| call_requires(pack, (v, pack_options, g)),
    ensures
        exists|first: Result<(), E>|
            call_ensures(progress, (PackProgressEvent::CollectingSourceInputs,), first) && match first {
                Err(e) => r == Err::<O, PackError<E>>(PackError::Engine(e)),
                Ok(_) => match collect_failure(file_views(files@)) {
                    Some(e) => r matches Err(PackError::Collect(x)) && x@ == e,
                    None => exists|v: Vec<InputFile>, g: G, out: Result<O, E>|
                        collected_from(normalized_files(file_views(files@)), file_views(v@), collect_options.exclude_rule_file)
                            && call_ensures(pack, (v, pack_options, g), out) && r == engine_result(out),
                },
            },
{
    let mut progress = progress;
    match progress(PackProgressEvent::CollectingSourceInputs) {
        Ok(()) => {},
        Err(e) => {
            return Err(PackError::Engine(e));
        },
    }
    match collect_inputs(files, collect_options) {
        Ok(collected) => {
            let out = pack(collected, pack_options, progress);
            match out {
                Ok(o) => Ok(o),
                Err(e) => Err(PackError::Engine(e)),
            }
        },
        Err(e) => Err(PackError::Collect(e)),
    }
}

} // verus!
