//! What the last sync found in the mod directory.

use crate::aliases::{DownloadURL, ModFileName, ModName, ModVersion};
use vstd::prelude::*;

verus! {

/// What the last sync knows of an installed mod.
#[derive(Debug)]
pub struct ModSyncInfo {
    pub mod_name: ModName,
    pub installed_version: ModVersion,
    /// The latest version that the mod site has, empty where it has none.
    pub latest_known_version: ModVersion,
    pub latest_download_url: DownloadURL,
    pub file_name: ModFileName,
    /// Whether the file is a link into a modpack.
    pub is_symlink: bool,
}

/// What the sync information of a mod says.
#[verifier::ext_equal]
pub struct SyncModel {
    pub mod_name: Seq<char>,
    pub installed_version: Seq<char>,
    pub latest_known_version: Seq<char>,
    pub latest_download_url: Seq<char>,
    pub file_name: Seq<char>,
    pub is_symlink: bool,
}

impl DeepView for ModSyncInfo {
    type V = SyncModel;

    open spec fn deep_view(&self) -> SyncModel {
        SyncModel {
            mod_name: self.mod_name@,
            installed_version: self.installed_version@,
            latest_known_version: self.latest_known_version@,
            latest_download_url: self.latest_download_url@,
            file_name: self.file_name@,
            is_symlink: self.is_symlink,
        }
    }
}

impl Clone for ModSyncInfo {
    fn clone(&self) -> (r: Self)
        ensures
            r.deep_view() == self.deep_view(),
    {
        ModSyncInfo {
            mod_name: self.mod_name.clone(),
            installed_version: self.installed_version.clone(),
            latest_known_version: self.latest_known_version.clone(),
            latest_download_url: self.latest_download_url.clone(),
            file_name: self.file_name.clone(),
            is_symlink: self.is_symlink,
        }
    }
}

} // verus!
