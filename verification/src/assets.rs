//! Records describing files and stored assets. The records themselves are
//! plain data; enumerating directories and reading metadata is I/O and is
//! done by the caller, which fills these in.

use vstd::prelude::*;

verus! {

/// Metadata of one file or directory.
#[derive(Debug, Clone, PartialEq, Eq)]
pub struct FileInfo {
    pub path: String,
    pub name: String,
    pub extension: Option<String>,
    pub size_bytes: u64,
    /// Creation time as seconds since the epoch, where the platform has it.
    pub created: Option<u64>,
    /// Modification time as seconds since the epoch, where the platform has it.
    pub modified: Option<u64>,
    pub is_directory: bool,
}

/// One asset directory in storage: which model files and thumbnail it holds.
#[derive(Debug, Clone, PartialEq, Eq)]
pub struct StorageAsset {
    pub id: String,
    pub path: String,
    pub has_glb: bool,
    pub has_obj: bool,
    pub has_fbx: bool,
    pub has_thumbnail: bool,
    pub glb_size: Option<u64>,
    pub thumbnail_path: Option<String>,
}

} // verus!
