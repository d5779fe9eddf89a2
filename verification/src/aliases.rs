//! What the texts that stand for mods and their versions are called, and the paths of files.

use vstd::prelude::*;

verus! {

pub type ModID = String;

pub type ModName = String;

pub type ModVersion = String;

pub type ModFileName = String;

pub type DownloadURL = String;

#[verifier::external_type_specification]
#[verifier::external_body]
pub struct ExPathBuf(std::path::PathBuf);

} // verus!
