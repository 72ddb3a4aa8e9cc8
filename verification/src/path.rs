//! Source paths: joining a path to the project root and settling on the
//! resolved form, with the joined path as the fallback.

use vstd::prelude::*;
use vstd::slice::*;
use crate::record::{CoverageRecord, RecordModel, models};

verus! {

/// The byte that separates the components of a path.
pub const SEPARATOR: u8 = 0x2F;

/// Whether a path starts at the root of the file system.
pub open spec fn is_absolute(path: Seq<u8>) -> bool {
    path.len() > 0 && path[0] == 0x2Fu8
}

/// `path` taken relative to `root`: an absolute path stands for itself;
/// another path is put after the root, with a separator between them unless
/// the root is empty or ends in one.
pub open spec fn joined(root: Seq<u8>, path: Seq<u8>) -> Seq<u8> {
    if is_absolute(path) {
        path
    } else if root.len() > 0 && root.last() != 0x2Fu8 {
        root + seq![0x2Fu8] + path
    } else {
        root + path
    }
}

/// The resolved form of `path`: what the file system gave for the joined
/// path, or the joined path itself where the file system gave nothing.
pub open spec fn resolved(root: Seq<u8>, path: Seq<u8>, lookup: Option<Seq<u8>>) -> Seq<u8> {
    match lookup {
        Some(canonical) => canonical,
        None => joined(root, path),
    }
}

/// The content of an optional path.
pub open spec fn lookup_model(lookup: Option<Vec<u8>>) -> Option<Seq<u8>> {
    match lookup {
        Some(p) => Some(p@),
        None => None,
    }
}

/// Whether a path starts at the root of the file system.
pub fn starts_at_root(path: &[u8]) -> (absolute: bool)
    ensures
        absolute == is_absolute(path@),
{
    path.len() > 0 && path[0] == SEPARATOR
}

/// Joins `path` to `root`.
pub fn join_path(root: &[u8], path: &[u8]) -> (out: Vec<u8>)
    ensures
        out@ == joined(root@, path@),
{
    if starts_at_root(path) {
        return slice_to_vec(path);
    }
    let mut out: Vec<u8> = slice_to_vec(root);
    if root.len() > 0 && root[root.len() - 1] != SEPARATOR {
        out.push(SEPARATOR);
    }
    out.extend_from_slice(path);
    assert(out@ =~= joined(root@, path@));
    out
}

/// Settles the resolved form of `path`. `lookup` is the canonical form that
/// the file system gave for the joined path, if it gave one; without it the
/// joined path is the result. There is no failure.
pub fn resolve_path(root: &[u8], path: &[u8], lookup: Option<Vec<u8>>) -> (out: Vec<u8>)
    ensures
        out@ == resolved(root@, path@, lookup_model(lookup)),
{
    match lookup {
        Some(canonical) => canonical,
        None => join_path(root, path),
    }
}

/// The lookup that belongs to the record at position `i`: none where the
/// caller supplied none.
pub open spec fn lookup_at(lookups: Seq<Option<Vec<u8>>>, i: int) -> Option<Seq<u8>> {
    if 0 <= i < lookups.len() {
        lookup_model(lookups[i])
    } else {
        None
    }
}

/// A record with its path resolved; records without a path stay as they are.
pub open spec fn resolved_record(r: RecordModel, root: Seq<u8>, lookup: Option<Seq<u8>>)
    -> RecordModel {
    match r {
        RecordModel::SourceFileBoundary { path } => RecordModel::SourceFileBoundary {
            path: resolved(root, path, lookup),
        },
        _ => r,
    }
}

/// The records with every source path resolved, the record at position `i`
/// with the lookup at position `i`.
pub open spec fn resolved_records(
    records: Seq<RecordModel>,
    root: Seq<u8>,
    lookups: Seq<Option<Vec<u8>>>,
) -> Seq<RecordModel> {
    Seq::new(records.len(), |i: int| resolved_record(records[i], root, lookup_at(lookups, i)))
}

/// Resolves the source path of every file boundary among `records` against
/// `root`. `lookups[i]` is the canonical form that the file system gave for the
/// joined path of record `i`; where it is missing the joined path is kept.
pub fn resolve_records(
    records: &Vec<CoverageRecord>,
    root: &[u8],
    lookups: &Vec<Option<Vec<u8>>>,
) -> (out: Vec<CoverageRecord>)
    ensures
        models(out@) == resolved_records(models(records@), root@, lookups@),
{
    let mut out: Vec<CoverageRecord> = Vec::new();
    let mut i: usize = 0;
    while i < records.len()
        invariant
            i <= records@.len(),
            out@.len() == i,
            forall|k: int|
                0 <= k < i ==> (#[trigger] out@[k])@ == resolved_record(
                    records@[k]@,
                    root@,
                    lookup_at(lookups@, k),
                ),
        decreases records@.len() - i,
    {
        let record = match &records[i] {
            CoverageRecord::SourceFileBoundary { path } => {
                let lookup: Option<Vec<u8>> = if i < lookups.len() {
                    match &lookups[i] {
                        Some(canonical) => Some(slice_to_vec(canonical.as_slice())),
                        None => None,
                    }
                } else {
                    None
                };
                CoverageRecord::SourceFileBoundary {
                    path: resolve_path(root, path.as_slice(), lookup),
                }
            },
            CoverageRecord::LineHit { line, hit_count } => CoverageRecord::LineHit {
                line: *line,
                hit_count: *hit_count,
            },
            CoverageRecord::EndOfRecord => CoverageRecord::EndOfRecord,
        };
        out.push(record);
        i = i + 1;
    }
    assert(models(out@) =~= resolved_records(models(records@), root@, lookups@));
    out
}

/// An absolute path is resolved to itself when the file system gives it back
/// or gives nothing: resolving what is already resolved changes nothing.
pub proof fn lemma_resolve_absolute(root: Seq<u8>, path: Seq<u8>, lookup: Option<Seq<u8>>)
    requires
        is_absolute(path),
        lookup == None::<Seq<u8>> || lookup == Some(path),
    ensures
        resolved(root, path, lookup) == path,
{
}

/// Under an absolute root every joined path is absolute, so joining it to the
/// root again gives the same path.
pub proof fn lemma_join_idempotent(root: Seq<u8>, path: Seq<u8>)
    requires
        is_absolute(root),
    ensures
        is_absolute(joined(root, path)),
        joined(root, joined(root, path)) == joined(root, path),
{
}

} // verus!
