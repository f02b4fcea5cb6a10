//! Archiving of staged files.
//!
//! The archive is built in memory by the `zip` crate. What is known of it is
//! that whether the archiver takes a file, and the bytes that it gives in the
//! end, are functions of the files handed to it: their names, their
//! compression, their permission bits, their timestamps and their content.

use crate::fingerprint::all_under;
use crate::fingerprint::first_outside;
use crate::paths::is_relative;
use crate::paths::lemma_relative_to_is_relative;
use crate::paths::relative_path;
use crate::paths::relative_to;
use crate::tree::EntryKind;
use crate::tree::EntryView;
use crate::tree::TreeEntry;
use vstd::prelude::*;

verus! {

/// How the content of an archived file is stored.
#[derive(Clone, Copy, Debug, PartialEq, Eq, Structural)]
pub enum CompressionMethod {
    /// As it is.
    Stored,
    /// Compressed with deflate.
    Deflated,
}

/// The permission bits that every archived file carries.
pub const ENTRY_MODE: u32 = 0o755;

/// The date that every archived file carries, as MS-DOS packs it: the first
/// of January 1980. With one date for all files, equal files give equal
/// archives.
pub const ENTRY_DATE: u16 = 0x0021;

/// The time of day that every archived file carries, as MS-DOS packs it:
/// midnight.
pub const ENTRY_TIME: u16 = 0;

/// The error type of the `zip` crate.
#[verifier::external_type_specification]
#[verifier::external_body]
pub struct ExZipError(zip::result::ZipError);

/// Why no archive was made.
#[derive(Debug)]
pub enum PackageError {
    /// There is no staging area: the new tree holds nothing to carry over.
    NothingToPackage,
    /// The staged entry at `index` does not lie at or under the staging root.
    OutsideStaging { index: usize },
    /// The archiver refused a file or could not finish the archive.
    Archive(zip::result::ZipError),
}

/// An archive under construction in memory: a `zip::ZipWriter` over a cursor
/// on a byte vector. Trusted: nothing is known of it but what the functions
/// below state of [`archived`].
#[verifier::external_body]
pub struct ArchiveWriter {
    inner: zip::ZipWriter<std::io::Cursor<Vec<u8>>>,
}

/// The files handed to an archive writer so far, in order: for each its name,
/// whether it is deflated, its permission bits, its date and its time of day
/// as MS-DOS packs them, and its content.
pub uninterp spec fn archived(writer: ArchiveWriter) -> Seq<
    (Seq<char>, bool, u32, u16, u16, Seq<u8>),
>;

/// Whether `zip::ZipWriter::start_file` takes one more file, of the given
/// name, compression, permission bits, date and time, after `files`.
pub uninterp spec fn zip_starts(
    files: Seq<(Seq<char>, bool, u32, u16, u16, Seq<u8>)>,
    name: Seq<char>,
    deflated: bool,
    mode: u32,
    date: u16,
    time: u16,
) -> bool;

/// Whether the `zip::ZipWriter` takes `data` as the content of the last of
/// `files`.
pub uninterp spec fn zip_writes(
    files: Seq<(Seq<char>, bool, u32, u16, u16, Seq<u8>)>,
    data: Seq<u8>,
) -> bool;

/// The bytes that `zip::ZipWriter::finish` gives for the archive that holds
/// `files`, or nothing where it does not finish the archive.
pub uninterp spec fn zip_image(files: Seq<(Seq<char>, bool, u32, u16, u16, Seq<u8>)>) -> Option<
    Seq<u8>,
>;

/// Calls `zip::ZipWriter::new` on a cursor over an empty vector.
/// Trusted: the new writer holds no file.
#[verifier::external_body]
fn archive_new() -> (writer: ArchiveWriter)
    ensures
        archived(writer) == Seq::<(Seq<char>, bool, u32, u16, u16, Seq<u8>)>::empty(),
{
    ArchiveWriter { inner: zip::ZipWriter::new(std::io::Cursor::new(Vec::new())) }
}

/// Calls `zip::ZipWriter::start_file` with the crate's default options, the
/// given compression and permission bits, and the timestamp that
/// `zip::DateTime::from_msdos` makes of `date` and `time`. Trusted: whether it
/// succeeds is a function of the files held and of the arguments; on success
/// the writer holds one more file, of that name, compression, permission
/// bits, date and time, still without content. The archiver keeps the low
/// nine bits of the mode: no other may be set.
#[verifier::external_body]
fn archive_start_file(
    writer: &mut ArchiveWriter,
    name: &str,
    method: CompressionMethod,
    mode: u32,
    date: u16,
    time: u16,
) -> (r: Result<(), zip::result::ZipError>)
    requires
        mode <= 0o777,
    ensures
        r is Ok <==> zip_starts(
            archived(*old(writer)),
            name@,
            method is Deflated,
            mode,
            date,
            time,
        ),
        r is Ok ==> archived(*final(writer)) == archived(*old(writer)).push(
            (name@, method is Deflated, mode, date, time, Seq::<u8>::empty()),
        ),
{
    let compression = match method {
        CompressionMethod::Stored => zip::CompressionMethod::Stored,
        CompressionMethod::Deflated => zip::CompressionMethod::Deflated,
    };
    let options = zip::write::FileOptions::default()
        .compression_method(compression)
        .unix_permissions(mode)
        .last_modified_time(zip::DateTime::from_msdos(date, time));
    writer.inner.start_file(name, options)
}

/// Calls `std::io::Write::write_all` on the `zip::ZipWriter`, once for the
/// file started last. Trusted: whether it succeeds is a function of the
/// files held and of `data`; on success `data` is the content of that file.
#[verifier::external_body]
fn archive_write_all(writer: &mut ArchiveWriter, data: &[u8]) -> (r: Result<
    (),
    zip::result::ZipError,
>)
    requires
        archived(*old(writer)).len() > 0,
        archived(*old(writer)).last().5.len() == 0,
    ensures
        r is Ok <==> zip_writes(archived(*old(writer)), data@),
        r is Ok ==> archived(*final(writer)) == archived(*old(writer)).update(
            archived(*old(writer)).len() - 1,
            (
                archived(*old(writer)).last().0,
                archived(*old(writer)).last().1,
                archived(*old(writer)).last().2,
                archived(*old(writer)).last().3,
                archived(*old(writer)).last().4,
                data@,
            ),
        ),
{
    std::io::Write::write_all(&mut writer.inner, data).map_err(zip::result::ZipError::Io)
}

/// Calls `zip::ZipWriter::finish` and takes the bytes out of the cursor.
/// Trusted: whether it succeeds, and the bytes that it then gives, are a
/// function of the files that the writer held.
#[verifier::external_body]
fn archive_finish(writer: ArchiveWriter) -> (r: Result<Vec<u8>, zip::result::ZipError>)
    ensures
        match r {
            Ok(bytes) => zip_image(archived(writer)) == Some(bytes@),
            Err(_) => zip_image(archived(writer)) is None,
        },
{
    let mut writer = writer;
    match writer.inner.finish() {
        Ok(cursor) => Ok(cursor.into_inner()),
        Err(refusal) => Err(refusal),
    }
}

/// What an archive holds of a regular file: its path relative to `prefix` as
/// its name, the given compression, the fixed permission bits and timestamp,
/// its content.
pub open spec fn packed_file(entry: EntryView, prefix: Seq<char>, method: CompressionMethod) -> (
    Seq<char>,
    bool,
    u32,
    u16,
    u16,
    Seq<u8>,
) {
    (
        relative_to(entry.path, prefix)->0,
        method is Deflated,
        ENTRY_MODE,
        ENTRY_DATE,
        ENTRY_TIME,
        entry.content,
    )
}

/// The files that an archive of `entries` holds: every regular file among
/// them, exactly once and in their order. Directories and other entries
/// leave no trace.
pub open spec fn packed_files(
    entries: Seq<EntryView>,
    prefix: Seq<char>,
    method: CompressionMethod,
) -> Seq<(Seq<char>, bool, u32, u16, u16, Seq<u8>)> {
    entries.filter(|entry: EntryView| entry.kind is File).map_values(
        |entry: EntryView| packed_file(entry, prefix, method),
    )
}

/// Whether the archiver takes `file` after the files `before`: it starts the
/// file, and then takes its content.
pub open spec fn file_taken(
    before: Seq<(Seq<char>, bool, u32, u16, u16, Seq<u8>)>,
    file: (Seq<char>, bool, u32, u16, u16, Seq<u8>),
) -> bool {
    &&& zip_starts(before, file.0, file.1, file.2, file.3, file.4)
    &&& zip_writes(
        before.push((file.0, file.1, file.2, file.3, file.4, Seq::<u8>::empty())),
        file.5,
    )
}

/// Whether the archiver takes `files`: it takes each of them after those
/// before it, and finishes the archive that holds them all.
pub open spec fn zip_takes(files: Seq<(Seq<char>, bool, u32, u16, u16, Seq<u8>)>) -> bool {
    &&& forall|i: int| 0 <= i < files.len() ==> #[trigger] file_taken(files.take(i), files[i])
    &&& zip_image(files) is Some
}

/// One more entry adds a file to the archive if it is a regular file, and
/// nothing otherwise.
pub proof fn lemma_packed_files_push(
    entries: Seq<EntryView>,
    entry: EntryView,
    prefix: Seq<char>,
    method: CompressionMethod,
)
    ensures
        packed_files(entries.push(entry), prefix, method) == if entry.kind is File {
            packed_files(entries, prefix, method).push(packed_file(entry, prefix, method))
        } else {
            packed_files(entries, prefix, method)
        },
{
    reveal(Seq::filter);
    assert(entries.push(entry).drop_last() =~= entries);
    let kept = entries.filter(|e: EntryView| e.kind is File);
    if entry.kind is File {
        assert(kept.push(entry).map_values(|e: EntryView| packed_file(e, prefix, method))
            =~= kept.map_values(|e: EntryView| packed_file(e, prefix, method)).push(
            packed_file(entry, prefix, method),
        ));
    }
}

/// The files of the first entries of a walk are the first files of the
/// whole walk.
pub proof fn lemma_packed_files_prefix(
    entries: Seq<EntryView>,
    count: int,
    prefix: Seq<char>,
    method: CompressionMethod,
)
    requires
        0 <= count <= entries.len(),
    ensures
        packed_files(entries.take(count), prefix, method).is_prefix_of(
            packed_files(entries, prefix, method),
        ),
    decreases entries.len() - count,
{
    let first = packed_files(entries.take(count), prefix, method);
    if count == entries.len() {
        assert(entries.take(count) =~= entries);
    } else {
        let next = packed_files(entries.take(count + 1), prefix, method);
        assert(entries.take(count + 1) =~= entries.take(count).push(entries[count]));
        lemma_packed_files_push(entries.take(count), entries[count], prefix, method);
        lemma_packed_files_prefix(entries, count + 1, prefix, method);
        assert(first.is_prefix_of(next));
    }
}

/// Under a prefix that holds every entry, no archived file has a name that
/// begins with a separator.
pub proof fn lemma_packed_names_are_relative(
    entries: Seq<EntryView>,
    prefix: Seq<char>,
    method: CompressionMethod,
    at: int,
)
    requires
        all_under(entries, prefix),
        0 <= at < packed_files(entries, prefix, method).len(),
    ensures
        is_relative(packed_files(entries, prefix, method)[at].0),
    decreases entries.len(),
{
    if entries.len() == 0 {
        reveal(Seq::filter);
    } else {
        let front = entries.drop_last();
        let last = entries.last();
        assert(front.push(last) =~= entries);
        lemma_packed_files_push(front, last, prefix, method);
        assert forall|i: int| 0 <= i < front.len() implies relative_to(
            #[trigger] front[i].path,
            prefix,
        ) is Some by {
            assert(front[i] == entries[i]);
        }
        if at < packed_files(front, prefix, method).len() {
            lemma_packed_names_are_relative(front, prefix, method, at);
        } else {
            assert(relative_to(entries[entries.len() - 1].path, prefix) is Some);
            lemma_relative_to_is_relative(last.path, prefix);
        }
    }
}

/// What archiving `entries` gives. With an entry outside `prefix`, the first
/// such entry. Otherwise the archive of their regular files where the
/// archiver takes them all, and its refusal where it does not.
pub open spec fn archive_outcome(
    entries: Seq<EntryView>,
    prefix: Seq<char>,
    method: CompressionMethod,
    r: Result<Vec<u8>, PackageError>,
) -> bool {
    let files = packed_files(entries, prefix, method);
    match r {
        Ok(bytes) => all_under(entries, prefix) && zip_takes(files) && zip_image(files) == Some(
            bytes@,
        ),
        Err(PackageError::OutsideStaging { index }) => first_outside(entries, prefix, index as int),
        Err(PackageError::Archive(_)) => all_under(entries, prefix) && !zip_takes(files),
        Err(PackageError::NothingToPackage) => false,
    }
}

/// Archives the regular files among `entries`, each under its path relative
/// to `prefix`, and gives back the bytes of the archive.
pub fn zip_dir(entries: &Vec<TreeEntry>, prefix: &str, method: CompressionMethod) -> (r: Result<
    Vec<u8>,
    PackageError,
>)
    ensures
        archive_outcome(entries.deep_view(), prefix@, method, r),
        r is Ok <==> all_under(entries.deep_view(), prefix@) && zip_takes(
            packed_files(entries.deep_view(), prefix@, method),
        ),
        r is Ok ==> forall|i: int|
            0 <= i < packed_files(entries.deep_view(), prefix@, method).len() ==> is_relative(
                (#[trigger] packed_files(entries.deep_view(), prefix@, method)[i]).0,
            ),
{
    let ghost staged = entries.deep_view();
    let ghost files = packed_files(staged, prefix@, method);
    let mut names: Vec<&str> = Vec::new();
    let mut i: usize = 0;
    while i < entries.len()
        invariant
            i <= entries.len(),
            staged == entries.deep_view(),
            names.len() == i,
            forall|j: int|
                0 <= j < i ==> relative_to(#[trigger] staged[j].path, prefix@) == Some(names@[j]@),
        decreases entries.len() - i,
    {
        match relative_path(entries[i].path.as_str(), prefix) {
            None => {
                return Err(PackageError::OutsideStaging { index: i });
            },
            Some(name) => {
                names.push(name);
            },
        }
        i = i + 1;
    }
    let mut writer = archive_new();
    let mut k: usize = 0;
    proof {
        reveal(Seq::filter);
        assert(staged.take(0) =~= Seq::<EntryView>::empty());
    }
    while k < entries.len()
        invariant
            k <= entries.len(),
            staged == entries.deep_view(),
            files == packed_files(staged, prefix@, method),
            names.len() == entries.len(),
            forall|j: int|
                0 <= j < entries.len() ==> relative_to(#[trigger] staged[j].path, prefix@) == Some(
                    names@[j]@,
                ),
            archived(writer) == packed_files(staged.take(k as int), prefix@, method),
            forall|j: int|
                0 <= j < archived(writer).len() ==> #[trigger] file_taken(
                    archived(writer).take(j),
                    archived(writer)[j],
                ),
        decreases entries.len() - k,
    {
        let entry = &entries[k];
        let ghost before = archived(writer);
        let ghost file = packed_file(entry@, prefix@, method);
        proof {
            assert(staged[k as int] == entry@);
            assert(staged.take(k as int + 1) =~= staged.take(k as int).push(entry@));
            lemma_packed_files_push(staged.take(k as int), entry@, prefix@, method);
            lemma_packed_files_prefix(staged, k as int + 1, prefix@, method);
            assert(file.0 == names@[k as int]@);
        }
        match entry.kind {
            EntryKind::File => {
                let ghost at = before.len() as int;
                proof {
                    assert(before.push(file).is_prefix_of(files));
                    assert(files.take(at) =~= before);
                    assert(files[at] == before.push(file)[at]);
                }
                let started = archive_start_file(
                    &mut writer,
                    names[k],
                    method,
                    ENTRY_MODE,
                    ENTRY_DATE,
                    ENTRY_TIME,
                );
                match started {
                    Ok(_) => {},
                    Err(refusal) => {
                        assert(!file_taken(files.take(at), files[at]));
                        return Err(PackageError::Archive(refusal));
                    },
                }
                match archive_write_all(&mut writer, entry.content.as_slice()) {
                    Ok(_) => {},
                    Err(refusal) => {
                        assert(!file_taken(files.take(at), files[at]));
                        return Err(PackageError::Archive(refusal));
                    },
                }
                proof {
                    let after = archived(writer);
                    assert(after =~= before.push(file));
                    assert forall|j: int| 0 <= j < after.len() implies #[trigger] file_taken(
                        after.take(j),
                        after[j],
                    ) by {
                        if j < before.len() {
                            assert(after.take(j) =~= before.take(j));
                            assert(file_taken(before.take(j), before[j]));
                        } else {
                            assert(after.take(j) =~= before);
                        }
                    }
                }
            },
            _ => {},
        }
        k = k + 1;
    }
    proof {
        assert(staged.take(k as int) =~= staged);
        assert forall|i: int| 0 <= i < files.len() implies is_relative((#[trigger] files[i]).0) by {
            lemma_packed_names_are_relative(staged, prefix@, method, i);
        }
    }
    match archive_finish(writer) {
        Ok(bytes) => Ok(bytes),
        Err(refusal) => Err(PackageError::Archive(refusal)),
    }
}

/// Whether an archive is owed for a staging area: there is one, every entry
/// of it lies at or under `outer_dir`, and the archiver takes its regular
/// files.
pub open spec fn archive_owed(
    staged: Option<Seq<EntryView>>,
    outer_dir: Seq<char>,
    method: CompressionMethod,
) -> bool {
    match staged {
        Some(entries) => all_under(entries, outer_dir) && zip_takes(
            packed_files(entries, outer_dir, method),
        ),
        None => false,
    }
}

/// Archives the staging area rooted at `outer_dir`, if there is one.
///
/// Without a staging area there is nothing to carry over, which is told
/// apart from every failure of the archiver.
pub fn create_package(
    staged: Option<&Vec<TreeEntry>>,
    outer_dir: &str,
    method: CompressionMethod,
) -> (r: Result<Vec<u8>, PackageError>)
    ensures
        match staged {
            None => r matches Err(PackageError::NothingToPackage),
            Some(entries) => archive_outcome(entries.deep_view(), outer_dir@, method, r),
        },
        r is Ok <==> archive_owed(
            match staged {
                Some(entries) => Some(entries.deep_view()),
                None => None,
            },
            outer_dir@,
            method,
        ),
{
    match staged {
        None => Err(PackageError::NothingToPackage),
        Some(entries) => zip_dir(entries, outer_dir, method),
    }
}

} // verus!
