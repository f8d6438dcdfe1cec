//! The content differ: fingerprints, deltas, and rebuilding a file's content
//! from a delta under integrity checks.

use vstd::prelude::*;

use crate::package::{
    Delta, DeltaAlgorithm, DeltaCompression, DeltaModel, IntegrityStage, PatchError,
};
use crate::text::str_eq;

verus! {

/// files_diff's algorithm and compression enums and its patch struct, with
/// their variants and public fields, so that deltas convert to and from them.
#[verifier::external_type_specification]
pub struct ExDiffAlgorithm(files_diff::DiffAlgorithm);

#[verifier::external_type_specification]
pub struct ExCompressAlgorithm(files_diff::CompressAlgorithm);

#[verifier::external_type_specification]
pub struct ExPatch(files_diff::Patch);

/// The fingerprint (MD5 digest, as hex) of some content.
pub uninterp spec fn fingerprint_of(data: Seq<u8>) -> Seq<char>;

/// Relies on files_diff::hash: the digest depends on the bytes alone.
#[verifier::external_body]
pub(crate) fn fingerprint(data: &[u8]) -> (r: String)
    ensures
        r@ == fingerprint_of(data@),
{
    files_diff::hash(data)
}

/// Our name for one of files_diff's diff algorithms.
pub open spec fn algorithm_of(a: files_diff::DiffAlgorithm) -> DeltaAlgorithm {
    match a {
        files_diff::DiffAlgorithm::Rsync020 => DeltaAlgorithm::Rsync020,
        files_diff::DiffAlgorithm::Bidiff1 => DeltaAlgorithm::Bidiff1,
    }
}

/// Our name for one of files_diff's compression methods.
pub open spec fn compression_of(c: files_diff::CompressAlgorithm) -> DeltaCompression {
    match c {
        files_diff::CompressAlgorithm::None => DeltaCompression::Uncompressed,
        files_diff::CompressAlgorithm::Zstd => DeltaCompression::Zstd,
    }
}

/// The payload that the content differ produces from `before` to `after`
/// with the given algorithm and compression, or `None` where it fails.
pub uninterp spec fn delta_payload_of(
    before: Seq<u8>,
    after: Seq<u8>,
    algorithm: DeltaAlgorithm,
    compression: DeltaCompression,
) -> Option<Seq<u8>>;

/// The content that the content differ rebuilds from `base` and a payload of
/// the given algorithm and compression, or `None` where the payload cannot be
/// decompressed or replayed on `base`.
pub uninterp spec fn rebuilt_of(
    base: Seq<u8>,
    algorithm: DeltaAlgorithm,
    compression: DeltaCompression,
    payload: Seq<u8>,
) -> Option<Seq<u8>>;

/// What a delta rebuilds from `base`.
pub open spec fn rebuilt_by(base: Seq<u8>, d: DeltaModel) -> Option<Seq<u8>> {
    rebuilt_of(base, d.algorithm, d.compression, d.payload)
}

/// What a files_diff patch rebuilds from `base`.
pub open spec fn rebuilt_by_patch(base: Seq<u8>, p: &files_diff::Patch) -> Option<Seq<u8>> {
    rebuilt_of(base, algorithm_of(p.diff_algorithm), compression_of(p.compress_algorithm), p.patch@)
}

/// Relies on files_diff::diff: it fails or succeeds on the arguments alone,
/// and a patch it returns names the algorithms it was given, carries the
/// fingerprints of both inputs, and a payload that depends on the arguments
/// alone.
#[verifier::external_body]
fn diff_patch(
    before: &[u8],
    after: &[u8],
    algorithm: files_diff::DiffAlgorithm,
    compression: files_diff::CompressAlgorithm,
) -> (r: Result<files_diff::Patch, String>)
    ensures
        r is Ok <==> delta_payload_of(
            before@,
            after@,
            algorithm_of(algorithm),
            compression_of(compression),
        ) is Some,
        r matches Ok(p) ==> {
            &&& p.diff_algorithm == algorithm
            &&& p.compress_algorithm == compression
            &&& p.before_hash@ == fingerprint_of(before@)
            &&& p.after_hash@ == fingerprint_of(after@)
            &&& delta_payload_of(before@, after@, algorithm_of(algorithm), compression_of(compression))
                == Some(p.patch@)
        },
{
    files_diff::diff(before, after, algorithm, compression).map_err(|e| format!("{:?}", e))
}

/// Why the content differ could not rebuild a file.
enum ReconstructFailure {
    /// It found a fingerprint that does not match the patch.
    FingerprintMismatch,
    /// The patch data could not be decompressed or replayed.
    Malformed,
}

/// Relies on files_diff::apply: it checks the base's fingerprint first, then
/// rebuilds the content, then checks the output's fingerprint, and returns
/// the output exactly when both checks pass.
#[verifier::external_body]
fn apply_patch_bytes(base: &[u8], p: &files_diff::Patch) -> (r: Result<Vec<u8>, ReconstructFailure>)
    ensures
        r is Ok <==> (fingerprint_of(base@) == p.before_hash@ && rebuilt_by_patch(base@, p) is Some
            && fingerprint_of(rebuilt_by_patch(base@, p)->Some_0) == p.after_hash@),
        r matches Ok(out) ==> rebuilt_of(
            base@,
            algorithm_of(p.diff_algorithm),
            compression_of(p.compress_algorithm),
            p.patch@,
        ) == Some(out@),
        fingerprint_of(base@) == p.before_hash@ ==> (rebuilt_by_patch(base@, p) is None <==> r matches Err(
            ReconstructFailure::Malformed,
        )),
{
    match files_diff::apply(base, p) {
        Ok(out) => Ok(out),
        Err(files_diff::Error::BeforeHashMismatch) => Err(ReconstructFailure::FingerprintMismatch),
        Err(files_diff::Error::AfterHashMismatch) => Err(ReconstructFailure::FingerprintMismatch),
        Err(_) => Err(ReconstructFailure::Malformed),
    }
}

fn delta_from_patch(p: files_diff::Patch) -> (d: Delta)
    ensures
        d.before_hash@ == p.before_hash@,
        d.after_hash@ == p.after_hash@,
        d.patch@ == p.patch@,
        d.diff_algorithm == algorithm_of(p.diff_algorithm),
        d.compress_algorithm == compression_of(p.compress_algorithm),
{
    let diff_algorithm = match p.diff_algorithm {
        files_diff::DiffAlgorithm::Rsync020 => DeltaAlgorithm::Rsync020,
        files_diff::DiffAlgorithm::Bidiff1 => DeltaAlgorithm::Bidiff1,
    };
    let compress_algorithm = match p.compress_algorithm {
        files_diff::CompressAlgorithm::None => DeltaCompression::Uncompressed,
        files_diff::CompressAlgorithm::Zstd => DeltaCompression::Zstd,
    };
    Delta {
        diff_algorithm,
        compress_algorithm,
        before_hash: p.before_hash,
        after_hash: p.after_hash,
        patch: p.patch,
    }
}

fn patch_from_delta(d: &Delta) -> (p: files_diff::Patch)
    ensures
        p.before_hash@ == d.before_hash@,
        p.after_hash@ == d.after_hash@,
        p.patch@ == d.patch@,
        algorithm_of(p.diff_algorithm) == d.diff_algorithm,
        compression_of(p.compress_algorithm) == d.compress_algorithm,
{
    let diff_algorithm = match d.diff_algorithm {
        DeltaAlgorithm::Rsync020 => files_diff::DiffAlgorithm::Rsync020,
        DeltaAlgorithm::Bidiff1 => files_diff::DiffAlgorithm::Bidiff1,
    };
    let compress_algorithm = match d.compress_algorithm {
        DeltaCompression::Uncompressed => files_diff::CompressAlgorithm::None,
        DeltaCompression::Zstd => files_diff::CompressAlgorithm::Zstd,
    };
    files_diff::Patch {
        diff_algorithm,
        compress_algorithm,
        before_hash: d.before_hash.clone(),
        after_hash: d.after_hash.clone(),
        patch: d.patch.clone(),
    }
}

/// The payload that the builder's deltas carry: rsync, compressed with zstd.
pub open spec fn build_payload_of(before: Seq<u8>, after: Seq<u8>) -> Option<Seq<u8>> {
    delta_payload_of(before, after, DeltaAlgorithm::Rsync020, DeltaCompression::Zstd)
}

/// A delta from `before` to `after` (rsync, zstd-compressed), carrying the
/// fingerprints of both. It fails exactly where the content differ does.
pub fn compute_delta(before: &[u8], after: &[u8]) -> (r: Result<Delta, String>)
    ensures
        r is Ok <==> build_payload_of(before@, after@) is Some,
        r matches Ok(d) ==> {
            &&& d.before_hash@ == fingerprint_of(before@)
            &&& d.after_hash@ == fingerprint_of(after@)
            &&& d.diff_algorithm == DeltaAlgorithm::Rsync020
            &&& d.compress_algorithm == DeltaCompression::Zstd
            &&& build_payload_of(before@, after@) == Some(d.patch@)
        },
{
    let algorithm = files_diff::DiffAlgorithm::Rsync020;
    let compression = files_diff::CompressAlgorithm::Zstd;
    match diff_patch(before, after, algorithm, compression) {
        Ok(p) => Ok(delta_from_patch(p)),
        Err(e) => Err(e),
    }
}

/// The new content of a file that a delta modifies.
///
/// A file that already has the delta's after fingerprint is done and stays
/// as it is, so a package can be applied again. Otherwise the file must have
/// the before fingerprint, checked before anything is rebuilt, and the rebuilt
/// content must have the after fingerprint. Nothing is written here: a caller
/// writes the result only when it is `Ok`.
pub fn modify_contents(current: &[u8], delta: &Delta) -> (r: Result<Vec<u8>, PatchError>)
    ensures
        fingerprint_of(current@) == delta.after_hash@ ==> (r matches Ok(out) && out@ == current@),
        fingerprint_of(current@) != delta.after_hash@ && fingerprint_of(current@)
            != delta.before_hash@ ==> (r matches Err(
            PatchError::IntegrityMismatch { stage, expected, actual },
        ) && stage == IntegrityStage::BeforeApply && expected@ == delta.before_hash@ && (actual
            matches Some(a) && a@ == fingerprint_of(current@))),
        fingerprint_of(current@) != delta.after_hash@ && fingerprint_of(current@)
            == delta.before_hash@ && rebuilt_by(current@, delta@) is None ==> (r matches Err(
            PatchError::CorruptPackage,
        )),
        fingerprint_of(current@) != delta.after_hash@ && fingerprint_of(current@)
            == delta.before_hash@ && rebuilt_by(current@, delta@) is Some && fingerprint_of(
            rebuilt_by(current@, delta@)->Some_0,
        ) == delta.after_hash@ ==> (r matches Ok(out) && out@ == rebuilt_by(
            current@,
            delta@,
        )->Some_0),
        fingerprint_of(current@) != delta.after_hash@ && fingerprint_of(current@)
            == delta.before_hash@ && rebuilt_by(current@, delta@) is Some && fingerprint_of(
            rebuilt_by(current@, delta@)->Some_0,
        ) != delta.after_hash@ ==> (r matches Err(PatchError::IntegrityMismatch { stage, .. })
            && stage == IntegrityStage::AfterApply),
        r matches Ok(out) ==> fingerprint_of(out@) == delta.after_hash@,
{
    let actual = fingerprint(current);
    if str_eq(actual.as_str(), delta.after_hash.as_str()) {
        return Ok(vstd::slice::slice_to_vec(current));
    }
    if !str_eq(actual.as_str(), delta.before_hash.as_str()) {
        return Err(
            PatchError::IntegrityMismatch {
                stage: IntegrityStage::BeforeApply,
                expected: delta.before_hash.clone(),
                actual: Some(actual),
            },
        );
    }
    let p = patch_from_delta(delta);
    match apply_patch_bytes(current, &p) {
        Ok(out) => {
            let produced = fingerprint(out.as_slice());
            if !str_eq(produced.as_str(), delta.after_hash.as_str()) {
                return Err(
                    PatchError::IntegrityMismatch {
                        stage: IntegrityStage::AfterApply,
                        expected: delta.after_hash.clone(),
                        actual: Some(produced),
                    },
                );
            }
            Ok(out)
        },
        Err(ReconstructFailure::FingerprintMismatch) => Err(
            PatchError::IntegrityMismatch {
                stage: IntegrityStage::AfterApply,
                expected: delta.after_hash.clone(),
                actual: None,
            },
        ),
        Err(ReconstructFailure::Malformed) => Err(PatchError::CorruptPackage),
    }
}

} // verus!
