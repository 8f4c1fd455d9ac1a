//! How an ontology file is loaded, given the binary-cache switches and what
//! lies on disk: the decision alone, with no file touched.

use vstd::prelude::*;

verus! {

/// What loading an ontology file does.
#[derive(Debug, Clone, Copy, PartialEq, Eq, Structural)]
pub enum LoadAction {
    /// Fail: only the binary file may be read, and it is missing.
    RequiredBinaryMissing,
    /// Read the binary file beside the input, with no fallback.
    ReadRequiredBinary,
    /// Fail: text parsing was forced on a binary input.
    TextForcedOnBinary,
    /// Read the input itself as a binary ontology.
    ReadInputAsBinary,
    /// Read the binary file beside the input; parse the text if that fails.
    TryBinaryThenText,
    /// Parse the input as text.
    ParseText,
}

/// The action for the switches `bin_only` (only the binary file may be
/// read) and `force_text` (the binary file is ignored), an input that is
/// `path_is_bin` itself, and a binary file beside it that `bin_exists`.
pub open spec fn planned_action(bin_only: bool, force_text: bool, path_is_bin: bool, bin_exists: bool) -> LoadAction {
    if bin_only {
        if bin_exists { LoadAction::ReadRequiredBinary } else { LoadAction::RequiredBinaryMissing }
    } else if path_is_bin {
        if force_text { LoadAction::TextForcedOnBinary } else { LoadAction::ReadInputAsBinary }
    } else if !force_text && bin_exists {
        LoadAction::TryBinaryThenText
    } else {
        LoadAction::ParseText
    }
}

/// Chooses how to load an ontology file (see `planned_action`).
pub fn load_plan(bin_only: bool, force_text: bool, path_is_bin: bool, bin_exists: bool) -> (r: LoadAction)
    ensures
        r == planned_action(bin_only, force_text, path_is_bin, bin_exists),
{
    if bin_only {
        if bin_exists {
            LoadAction::ReadRequiredBinary
        } else {
            LoadAction::RequiredBinaryMissing
        }
    } else if path_is_bin {
        if force_text {
            LoadAction::TextForcedOnBinary
        } else {
            LoadAction::ReadInputAsBinary
        }
    } else if !force_text && bin_exists {
        LoadAction::TryBinaryThenText
    } else {
        LoadAction::ParseText
    }
}

} // verus!
