//! Manifest entries, the freshness of their artifacts, and which of them a
//! build regenerates.
use vstd::prelude::*;
use crate::lz77::{buffer_compress, compress_spec};

verus! {

/// How a resource's bytes are stored in the pack.
#[derive(Clone, Copy, Debug, PartialEq, Eq, Structural)]
pub enum CompressionType {
    /// Stored as they are.
    NONE,
    /// Stored as an LZ77 codeword stream.
    LZ77,
}

/// One entry of the manifest.
#[derive(Clone, Debug, PartialEq, Eq)]
pub struct Resource {
    /// The resource's unique ID.
    pub id: String,
    /// How the resource is stored.
    pub compression: CompressionType,
    /// Path of the source file, relative to the manifest's directory.
    pub filepath: String,
}

/// Why a build fails.
#[derive(Clone, Debug, PartialEq, Eq)]
pub enum PackError {
    /// A file could not be opened, created, read or written.
    FilesystemError(String),
    /// The manifest does not match its schema.
    ParseError(String),
    /// The source file of a manifest entry does not exist.
    MissingBaseFile(String),
    /// A count, length or offset does not fit its field in the pack.
    LayoutOverflow,
}

/// The path of the artifact generated for the source at `path`.
pub uninterp spec fn bin_path_of(path: Seq<char>) -> Seq<char>;

/// Relies on `std::path::PathBuf::set_extension`: the path with its file
/// name's extension replaced by `bin`, which depends on the path alone
/// (under Unix path syntax, the only one the packer is built for).
#[verifier::external_body]
fn with_bin_extension(path: &str) -> (r: String)
    ensures
        r@ == bin_path_of(path@),
{
    let mut out = std::path::PathBuf::from(path);
    out.set_extension("bin");
    out.to_string_lossy().into_owned()
}

impl Resource {
    /// The source file's path, relative to the manifest's directory.
    pub fn get_file_path(&self) -> (r: String)
        ensures
            r@ == self.filepath@,
    {
        self.filepath.clone()
    }

    /// The artifact's path: the source's, with the extension `bin`.
    pub fn get_data_file_path(&self) -> (r: String)
        ensures
            r@ == bin_path_of(self.filepath@),
    {
        with_bin_extension(self.filepath.as_str())
    }
}

/// The state of a resource's artifact relative to its source.
#[derive(Clone, Copy, Debug, PartialEq, Eq, Structural)]
pub enum FileCheckResult {
    /// The artifact is at least as new as the source.
    FileOkay,
    /// The artifact is older than the source.
    BinOutOfDate,
    /// There is no artifact.
    BinMissing,
    /// There is no source.
    BaseMissing,
}

/// Whether an artifact in state `c` is generated again.
pub open spec fn regenerates(c: FileCheckResult) -> bool {
    c == FileCheckResult::BinOutOfDate || c == FileCheckResult::BinMissing
}

impl FileCheckResult {
    /// Whether the artifact has to be generated again.
    pub fn needs_regeneration(&self) -> (r: bool)
        ensures
            r == regenerates(*self),
    {
        match self {
            FileCheckResult::BinOutOfDate | FileCheckResult::BinMissing => true,
            _ => false,
        }
    }
}

/// Classifies an artifact from the modification times, in seconds, of the
/// source and of the artifact (`None` for a file that does not exist).
pub fn check_file(source_mtime: Option<i64>, artifact_mtime: Option<i64>) -> (r: FileCheckResult)
    ensures
        source_mtime.is_none() ==> r == FileCheckResult::BaseMissing,
        source_mtime.is_some() && artifact_mtime.is_none() ==> r == FileCheckResult::BinMissing,
        source_mtime.is_some() && artifact_mtime.is_some() ==> r == (if artifact_mtime.unwrap()
            < source_mtime.unwrap() {
            FileCheckResult::BinOutOfDate
        } else {
            FileCheckResult::FileOkay
        }),
{
    match (source_mtime, artifact_mtime) {
        (None, _) => FileCheckResult::BaseMissing,
        (Some(_), None) => FileCheckResult::BinMissing,
        (Some(source), Some(artifact)) => {
            if artifact < source {
                FileCheckResult::BinOutOfDate
            } else {
                FileCheckResult::FileOkay
            }
        },
    }
}

/// Decides which artifacts a build regenerates, given the check of each
/// manifest entry in manifest order. A build with a missing source fails as a
/// whole, naming the first such entry's path, so that no entry is left out of
/// some sections of the pack and kept in others.
pub fn plan_build(resources: &Vec<Resource>, checks: &Vec<FileCheckResult>) -> (r: Result<Vec<usize>, PackError>)
    requires
        resources@.len() == checks@.len(),
    ensures
        match r {
            Ok(v) => {
                &&& forall|i: int| 0 <= i < checks@.len() ==> checks@[i] != FileCheckResult::BaseMissing
                &&& forall|k1: int, k2: int| 0 <= k1 < k2 < v@.len() ==> v@[k1] < v@[k2]
                &&& forall|k: int| 0 <= k < v@.len() ==> #[trigger] v@[k] < checks@.len() && regenerates(checks@[v@[k] as int])
                &&& forall|i: int| 0 <= i < checks@.len() && regenerates(#[trigger] checks@[i]) ==> v@.contains(i as usize)
            },
            Err(e) => exists|i: int| {
                &&& 0 <= i < checks@.len()
                &&& checks@[i] == FileCheckResult::BaseMissing
                &&& forall|j: int| 0 <= j < i ==> checks@[j] != FileCheckResult::BaseMissing
                &&& e == PackError::MissingBaseFile(resources@[i].filepath)
            },
        },
{
    let mut out: Vec<usize> = Vec::new();
    let mut i: usize = 0;
    while i < checks.len()
        invariant
            resources@.len() == checks@.len(),
            i <= checks@.len(),
            forall|j: int| 0 <= j < i ==> checks@[j] != FileCheckResult::BaseMissing,
            forall|k1: int, k2: int| 0 <= k1 < k2 < out@.len() ==> out@[k1] < out@[k2],
            forall|k: int| 0 <= k < out@.len() ==> #[trigger] out@[k] < i && regenerates(checks@[out@[k] as int]),
            forall|j: int| 0 <= j < i && regenerates(#[trigger] checks@[j]) ==> out@.contains(j as usize),
        decreases checks@.len() - i,
    {
        if checks[i] == FileCheckResult::BaseMissing {
            return Err(PackError::MissingBaseFile(resources[i].filepath.clone()));
        }
        let ghost before = out@;
        if checks[i].needs_regeneration() {
            out.push(i);
        }
        proof {
            assert forall|k: int| 0 <= k < out@.len() implies #[trigger] out@[k] < i + 1 && regenerates(checks@[out@[k] as int]) by {
                if k < before.len() {
                    assert(out@[k] == before[k]);
                }
            }
            assert forall|j: int| 0 <= j < i + 1 && regenerates(#[trigger] checks@[j]) implies out@.contains(j as usize) by {
                if j < i {
                    let k = choose|k: int| 0 <= k < before.len() && before[k] == j as usize;
                    assert(out@[k] == j as usize);
                } else {
                    assert(out@[out@.len() - 1] == j as usize);
                }
            }
        }
        i += 1;
    }
    Ok(out)
}

/// The artifact stored for a source: its bytes as they are, or their
/// compressed form.
pub fn generate_artifact(source: &[u8], compression: CompressionType) -> (r: Vec<u8>)
    ensures
        compression == CompressionType::NONE ==> r@ == source@,
        compression == CompressionType::LZ77 ==> r@ == compress_spec(source@),
{
    match compression {
        CompressionType::NONE => vstd::slice::slice_to_vec(source),
        CompressionType::LZ77 => buffer_compress(source),
    }
}

} // verus!
