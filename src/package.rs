//! Patch packages: what one entry says about one file, and the package that
//! orders the entries.

use vstd::prelude::*;

use crate::text::replace_backslashes;

verus! {

/// The encoding version this library writes and the only one it applies.
pub const PATCH_PACKAGE_VERSION: u32 = 1;

/// Which binary diff algorithm produced a delta.
#[derive(Clone, Copy, Debug, PartialEq, Eq, Structural)]
pub enum DeltaAlgorithm {
    Rsync020,
    Bidiff1,
}

/// How a delta's payload is compressed.
#[derive(Clone, Copy, Debug, PartialEq, Eq, Structural)]
pub enum DeltaCompression {
    Uncompressed,
    Zstd,
}

/// An opaque binary delta together with the fingerprints of the content it
/// starts from and the content it produces.
#[derive(Clone, Debug)]
pub struct Delta {
    pub diff_algorithm: DeltaAlgorithm,
    pub compress_algorithm: DeltaCompression,
    pub before_hash: String,
    pub after_hash: String,
    pub patch: Vec<u8>,
}

/// The mathematical value of a [`Delta`].
pub struct DeltaModel {
    pub algorithm: DeltaAlgorithm,
    pub compression: DeltaCompression,
    pub before_hash: Seq<char>,
    pub after_hash: Seq<char>,
    pub payload: Seq<u8>,
}

impl View for Delta {
    type V = DeltaModel;

    open spec fn view(&self) -> DeltaModel {
        DeltaModel {
            algorithm: self.diff_algorithm,
            compression: self.compress_algorithm,
            before_hash: self.before_hash@,
            after_hash: self.after_hash@,
            payload: self.patch@,
        }
    }
}

/// What an entry does to its file.
#[derive(Clone, Debug)]
pub enum PatchOperation {
    /// The file is new; the entry carries its full content.
    Add(Vec<u8>),
    /// The file is gone.
    Remove,
    /// The file changed; the entry carries a delta from the old content.
    Modify(Delta),
}

pub enum OperationModel {
    Add(Seq<u8>),
    Remove,
    Modify(DeltaModel),
}

impl View for PatchOperation {
    type V = OperationModel;

    open spec fn view(&self) -> OperationModel {
        match self {
            PatchOperation::Add(data) => OperationModel::Add(data@),
            PatchOperation::Remove => OperationModel::Remove,
            PatchOperation::Modify(d) => OperationModel::Modify(d@),
        }
    }
}

/// One operation on the file at a relative, forward-slash path.
#[derive(Clone, Debug)]
pub struct PatchEntry {
    pub operation: PatchOperation,
    pub rel_path: String,
}

pub struct EntryModel {
    pub operation: OperationModel,
    pub rel_path: Seq<char>,
}

impl View for PatchEntry {
    type V = EntryModel;

    open spec fn view(&self) -> EntryModel {
        EntryModel { operation: self.operation@, rel_path: self.rel_path@ }
    }
}

/// A path with every backslash turned into a forward slash.
pub open spec fn forward_slashes(s: Seq<char>) -> Seq<char> {
    s.map_values(|c: char| if c == '\\' { '/' } else { c })
}

impl PatchEntry {
    /// An entry whose path is normalized to forward slashes.
    pub fn new(operation: PatchOperation, rel_path: String) -> (r: Self)
        ensures
            r.operation@ == operation@,
            r.rel_path@ == forward_slashes(rel_path@),
    {
        let rel_path = replace_backslashes(rel_path.as_str());
        PatchEntry { operation, rel_path }
    }
}

/// A versioned, ordered list of entries.
#[derive(Clone, Debug)]
pub struct PatchPackage {
    pub version: u32,
    pub entries: Vec<PatchEntry>,
}

pub struct PackageModel {
    pub version: u32,
    pub entries: Seq<EntryModel>,
}

impl View for PatchPackage {
    type V = PackageModel;

    open spec fn view(&self) -> PackageModel {
        PackageModel { version: self.version, entries: self.entries@.map_values(|e: PatchEntry| e@) }
    }
}

impl PatchPackage {
    pub fn new(version: u32, entries: Vec<PatchEntry>) -> (r: Self)
        ensures
            r.version == version,
            r.entries@ == entries@,
    {
        PatchPackage { version, entries }
    }
}

/// Why building, decoding or applying a package failed.
#[derive(Clone, Debug)]
pub enum PatchError {
    /// Reading or writing the file system failed.
    Io(String),
    /// The content differ failed on the file at this path.
    DiffFailed(String),
    /// The bytes are not a well-formed package.
    CorruptPackage,
    /// The package has this version, which is not the supported one.
    UnsupportedVersion(u32),
    /// The entry path resolves outside the target directory, or is not
    /// relative.
    PathEscape(String),
    /// This path does not come after the one before it, once both use
    /// forward slashes.
    PathOrder(String),
    /// A component of this path is, or would overwrite, a symbolic link.
    SymlinkRefused(String),
    /// A fingerprint did not match what the delta expects; `actual` is absent
    /// where the content differ reported the mismatch itself.
    IntegrityMismatch { stage: IntegrityStage, expected: String, actual: Option<String> },
}

/// Which fingerprint check failed.
#[derive(Clone, Copy, Debug, PartialEq, Eq, Structural)]
pub enum IntegrityStage {
    /// The file changed since the patch was built.
    BeforeApply,
    /// The reconstructed content is not what the patch promised.
    AfterApply,
}

} // verus!
