//! The end of a run: from the difference and the staging area to the archive
//! and its manifest.

use crate::compress::archive_outcome;
use crate::compress::archive_owed;
use crate::compress::CompressionMethod;
use crate::compress::create_package;
use crate::compress::PackageError;
use crate::hash::HashAlgorithm;
use crate::manifest::create_info_file;
use crate::manifest::Manifest;
use crate::manifest::manifest_of;
use crate::staging::ChangedPath;
use crate::staging::ChangedPathView;
use crate::tree::EntryView;
use crate::tree::TreeEntry;
use vstd::prelude::*;

verus! {

/// How a run ended that met no failure.
#[derive(Debug)]
pub enum UpdateOutcome {
    /// The new tree holds nothing that the old tree lacks: there is no
    /// archive and no manifest.
    NoChanges,
    /// The archive of the staged files, and the manifest that describes it.
    Packaged { archive: Vec<u8>, manifest: Manifest },
}

/// What the end of a run gives. Where nothing changed, nothing is packaged,
/// whatever the staging area holds, and that is no failure. Where something
/// changed, the archive is that of the regular files of the staging area and
/// the manifest is that of the archive; a staging area that is missing then
/// is a failure. There is no manifest without archive.
pub open spec fn update_outcome(
    changes: Seq<ChangedPathView>,
    staged: Option<Seq<EntryView>>,
    outer_dir: Seq<char>,
    method: CompressionMethod,
    algorithm: HashAlgorithm,
    r: Result<UpdateOutcome, PackageError>,
) -> bool {
    if changes.len() == 0 {
        r matches Ok(UpdateOutcome::NoChanges)
    } else {
        match staged {
            None => r matches Err(PackageError::NothingToPackage),
            Some(entries) => match r {
                Ok(UpdateOutcome::NoChanges) => false,
                Ok(UpdateOutcome::Packaged { archive, manifest }) => archive_outcome(
                    entries,
                    outer_dir,
                    method,
                    Ok(archive),
                ) && manifest@ == manifest_of(archive@, algorithm),
                Err(refusal) => archive_outcome(entries, outer_dir, method, Err(refusal)),
            },
        }
    }
}

/// Ends a run: where the difference `changes` is empty, there is nothing to
/// package; otherwise the staging area rooted at `outer_dir` is archived and
/// the archive is described in a manifest.
pub fn package_update(
    changes: &Vec<ChangedPath>,
    staged: Option<&Vec<TreeEntry>>,
    outer_dir: &str,
    method: CompressionMethod,
    algorithm: HashAlgorithm,
) -> (r: Result<UpdateOutcome, PackageError>)
    ensures
        update_outcome(
            changes.deep_view(),
            match staged {
                Some(entries) => Some(entries.deep_view()),
                None => None,
            },
            outer_dir@,
            method,
            algorithm,
            r,
        ),
        r matches Ok(UpdateOutcome::NoChanges) <==> changes.len() == 0,
        r matches Ok(UpdateOutcome::Packaged { .. }) <==> changes.len() > 0 && archive_owed(
            match staged {
                Some(entries) => Some(entries.deep_view()),
                None => None,
            },
            outer_dir@,
            method,
        ),
{
    if changes.len() == 0 {
        return Ok(UpdateOutcome::NoChanges);
    }
    match create_package(staged, outer_dir, method) {
        Ok(archive) => {
            let manifest = create_info_file(archive.as_slice(), algorithm);
            Ok(UpdateOutcome::Packaged { archive, manifest })
        },
        Err(refusal) => Err(refusal),
    }
}

} // verus!
