//! Downloaded archives: opening them and reading their entries.

use std::io::{Cursor, Read};
use vstd::prelude::*;
use zip::result::ZipError;
use zip::ZipArchive;
use crate::error::ServiceError;
use crate::table::views;
use crate::text::{before_null, chars_of, pieces, texts_of};

verus! {

/// `zip::ZipArchive`, the reader of an archive.
#[verifier::external_type_specification]
#[verifier::external_body]
#[verifier::reject_recursive_types(R)]
pub struct ExZipArchive<R>(ZipArchive<R>);

/// `std::io::Cursor`, bytes with a position.
#[verifier::external_type_specification]
#[verifier::external_body]
#[verifier::reject_recursive_types(T)]
pub struct ExCursor<T>(Cursor<T>);

/// `zip::result::ZipError`, the reason why an archive or an entry cannot be read.
#[verifier::external_type_specification]
#[verifier::external_body]
pub struct ExZipError(ZipError);

/// An entry of an archive.
#[derive(Debug, PartialEq, Eq)]
pub struct ArchiveEntry {
    /// The name that the archive gives the entry.
    pub name: String,
    /// The name as a path below the directory to unpack to, if it is one.
    pub enclosed: Option<String>,
    /// The parts of the name that are plain names of directories or files.
    pub plain_parts: Vec<String>,
    /// The contents, as far as they could be unpacked.
    pub data: Vec<u8>,
    /// Whether the contents could be unpacked to their end.
    pub intact: bool,
}

/// What `ZipArchive::new` finds in the bytes of a file: `None` if they are no archive, and
/// otherwise the entries in the order of the directory. An entry is `None` if it cannot be
/// opened, and otherwise its name and its unpacked contents, `None` if they cannot be unpacked.
pub uninterp spec fn zip_contents(bytes: Seq<u8>) -> Option<
    Seq<Option<(Seq<char>, Option<Seq<u8>>)>>,
>;

/// The entries of an opened archive, as in [`zip_contents`].
pub uninterp spec fn archive_entries(archive: ZipArchive<Cursor<Vec<u8>>>) -> Seq<
    Option<(Seq<char>, Option<Seq<u8>>)>,
>;

/// For each entry of an opened archive, whether it opens without a password.
pub uninterp spec fn archive_unlocked(archive: ZipArchive<Cursor<Vec<u8>>>) -> Seq<bool>;

/// `ZipArchive::new`: opens the archive that `bytes` are.
#[verifier::external_body]
fn open_archive(bytes: Vec<u8>) -> (r: Result<ZipArchive<Cursor<Vec<u8>>>, ZipError>)
    ensures
        r is Ok <==> zip_contents(bytes@) is Some,
        r matches Ok(a) ==> zip_contents(bytes@) == Some(archive_entries(a)),
        r matches Ok(a) ==> archive_unlocked(a).len() == archive_entries(a).len(),
{
    ZipArchive::new(Cursor::new(bytes))
}

/// `ZipArchive::len`: the number of entries.
#[verifier::external_body]
fn count_entries(archive: &ZipArchive<Cursor<Vec<u8>>>) -> (n: usize)
    ensures
        n == archive_entries(*archive).len(),
{
    archive.len()
}

/// `ZipArchive::by_index_decrypt` with the empty password: whether entry `i` opens that way. An
/// entry that does not cannot be opened without a password either.
#[verifier::external_body]
fn opens_unlocked(archive: &mut ZipArchive<Cursor<Vec<u8>>>, i: usize) -> (b: bool)
    requires
        i < archive_entries(*old(archive)).len(),
    ensures
        archive_entries(*final(archive)) == archive_entries(*old(archive)),
        archive_unlocked(*final(archive)) == archive_unlocked(*old(archive)),
        b == archive_unlocked(*old(archive))[i as int],
        !b ==> archive_entries(*old(archive))[i as int] is None,
{
    matches!(archive.by_index_decrypt(i, &[]), Ok(Ok(_)))
}

/// A name that can be a path below a directory: it starts with no slash and holds no null
/// character.
pub open spec fn is_relative(p: Seq<char>) -> bool {
    (p.len() == 0 || p[0] != '/') && !p.contains('\0')
}

/// How far down the parts of a path lead: an empty part and `.` stay, `..` leads up, any other
/// part leads down.
pub open spec fn depth(parts: Seq<Seq<char>>) -> int
    decreases parts.len(),
{
    if parts.len() == 0 {
        0
    } else {
        let part = parts.last();
        let before = depth(parts.drop_last());
        if part.len() == 0 || part == seq!['.'] {
            before
        } else if part == seq!['.', '.'] {
            before - 1
        } else {
            before + 1
        }
    }
}

/// On its way the path, split at slashes, never leads above the directory it starts from.
pub open spec fn stays_below(p: Seq<char>) -> bool {
    forall|n: int|
        0 <= n <= pieces(p, '/').len() ==> depth(#[trigger] pieces(p, '/').take(n)) >= 0
}

/// A character that separates the parts of a path, on some machines or on all.
pub open spec fn is_separator(c: char) -> bool {
    c == '/' || c == '\\'
}

/// The path with every backslash taken for a slash.
pub open spec fn slashed(p: Seq<char>) -> Seq<char> {
    p.map_values(|c: char| if c == '\\' { '/' } else { c })
}

/// On its way the path, split at slashes and backslashes, never leads above the directory it
/// starts from.
pub open spec fn stays_below_either(p: Seq<char>) -> bool {
    stays_below(slashed(p))
}

/// The path starts as one that names a drive does.
pub open spec fn has_drive(p: Seq<char>) -> bool {
    p.len() >= 2 && p[1] == ':'
}

/// A path below a directory: a relative path that does not lead out of the directory. Some
/// machines split a path at slashes only, others at backslashes too.
pub open spec fn is_enclosed(p: Seq<char>) -> bool {
    is_relative(p) && (stays_below(p) || stays_below_either(p))
}

/// A path that every machine takes for one below a directory.
pub open spec fn is_enclosed_everywhere(p: Seq<char>) -> bool {
    &&& is_relative(p)
    &&& p.len() == 0 || p[0] != '\\'
    &&& !has_drive(p)
    &&& stays_below(p)
    &&& stays_below_either(p)
}

/// Every machine splits the path into the same parts: it does not start with two separators, as
/// one that names a server does, and no part starts as one that names a drive does.
pub open spec fn splits_alike(p: Seq<char>) -> bool {
    &&& !(p.len() >= 2 && is_separator(p[0]) && is_separator(p[1]))
    &&& forall|i: int|
        1 <= i < p.len() && #[trigger] p[i] == ':' ==> is_separator(p[i - 1]) || (i >= 2
            && !is_separator(p[i - 2]))
}

/// A plain name of a directory or file.
pub open spec fn is_plain(p: Seq<char>) -> bool {
    p.len() > 0 && !p.contains('/')
}

/// Those of the parts of a path that name a directory or file.
pub open spec fn naming_parts(parts: Seq<Seq<char>>) -> Seq<Seq<char>>
    decreases parts.len(),
{
    if parts.len() == 0 {
        Seq::empty()
    } else {
        let part = parts.last();
        let before = naming_parts(parts.drop_last());
        if part.len() == 0 || part == seq!['.'] || part == seq!['.', '.'] {
            before
        } else {
            before.push(part)
        }
    }
}

/// The name of an entry that can be opened.
pub open spec fn entry_name(entry: Option<(Seq<char>, Option<Seq<u8>>)>) -> Seq<char> {
    match entry {
        Some((name, _)) => name,
        None => Seq::empty(),
    }
}

/// `e` is what an archive holds as `entry`. Where the name holds a backslash or names a drive,
/// machines can differ on whether it is a path below a directory; where it names a drive or a
/// server, on what its parts are.
pub open spec fn is_entry(e: ArchiveEntry, entry: Option<(Seq<char>, Option<Seq<u8>>)>) -> bool {
    &&& entry matches Some((name, data))
    &&& e.name@ == name
    &&& e.intact == (data is Some)
    &&& e.intact ==> e.data@ == data->0
    &&& e.enclosed matches Some(p) ==> p@ == name
    &&& e.enclosed is Some ==> is_enclosed(name)
    &&& is_enclosed_everywhere(name) ==> e.enclosed is Some
    &&& !name.contains('\\') && !has_drive(name) ==> (e.enclosed is Some <==> is_relative(name)
        && stays_below(name))
    &&& forall|i: int| 0 <= i < e.plain_parts@.len() ==> is_plain(#[trigger] e.plain_parts@[i]@)
    &&& splits_alike(before_null(name)) ==> texts_of(e.plain_parts@) == naming_parts(
        pieces(slashed(before_null(name)), '/'),
    )
}

/// `ZipArchive::by_index`: opens entry `i`, asks it for its name in three forms and unpacks it.
/// `enclosed_name` hands the name itself back if it is a path below a directory, split as the
/// machine splits paths; `mangled_name` keeps the plain parts of the name up to the first null
/// character, split at slashes and backslashes on every machine. An entry that needs a password
/// is left out, because `by_index` panics on some of them. Nothing is said of the contents of an
/// entry that cannot be unpacked to its end: how much of them comes out before the fault depends
/// on the sizes in which they are read.
#[verifier::external_body]
fn read_entry(archive: &mut ZipArchive<Cursor<Vec<u8>>>, i: usize) -> (r: Result<
    ArchiveEntry,
    ZipError,
>)
    requires
        i < archive_entries(*old(archive)).len(),
        archive_unlocked(*old(archive))[i as int],
    ensures
        archive_entries(*final(archive)) == archive_entries(*old(archive)),
        archive_unlocked(*final(archive)) == archive_unlocked(*old(archive)),
        r matches Ok(e) ==> is_entry(e, archive_entries(*old(archive))[i as int]),
        r is Err ==> archive_entries(*old(archive))[i as int] is None,
{
    let mut file = archive.by_index(i)?;
    let name = file.name().to_string();
    let enclosed = file.enclosed_name().map(|p| p.display().to_string());
    let mangled = file.mangled_name();
    let plain_parts = mangled.iter().map(|p| p.to_string_lossy().into_owned()).collect();
    let mut data = Vec::new();
    let intact = file.read_to_end(&mut data).is_ok();
    Ok(ArchiveEntry { name, enclosed, plain_parts, data, intact })
}

/// The entries of an archive, in the order of its directory, up to the first that cannot be
/// opened.
#[derive(Debug, PartialEq, Eq)]
pub struct Contents {
    pub entries: Vec<ArchiveEntry>,
    /// The entry that cannot be opened, if there is one.
    pub unreadable: Option<usize>,
}

impl Contents {
    /// These are the entries of `list` up to the first that cannot be opened.
    pub open spec fn reads(&self, list: Seq<Option<(Seq<char>, Option<Seq<u8>>)>>) -> bool {
        &&& self.entries@.len() <= list.len()
        &&& forall|i: int|
            0 <= i < self.entries@.len() ==> is_entry(#[trigger] self.entries@[i], list[i])
        &&& match self.unreadable {
            Some(k) => k == self.entries@.len() && k < list.len() && list[k as int] is None,
            None => self.entries@.len() == list.len(),
        }
    }
}

/// Opens an archive and reads its entries.
pub fn read_archive(bytes: Vec<u8>) -> (r: Result<Contents, ServiceError>)
    ensures
        match r {
            Ok(c) => zip_contents(bytes@) is Some && c.reads(zip_contents(bytes@)->0),
            Err(e) => zip_contents(bytes@) is None && e == ServiceError::AddonDownloadZipCreate,
        },
{
    let mut archive = match open_archive(bytes) {
        Ok(a) => a,
        Err(_) => {
            return Err(ServiceError::AddonDownloadZipCreate);
        },
    };
    let ghost list = archive_entries(archive);
    let n = count_entries(&archive);
    let mut entries: Vec<ArchiveEntry> = Vec::new();
    let mut i: usize = 0;
    while i < n
        invariant
            i <= n == list.len(),
            entries.len() == i,
            archive_entries(archive) == list,
            archive_unlocked(archive).len() == list.len(),
            zip_contents(bytes@) == Some(list),
            forall|j: int| 0 <= j < i ==> is_entry(#[trigger] entries@[j], list[j]),
        decreases n - i,
    {
        if !opens_unlocked(&mut archive, i) {
            return Ok(Contents { entries, unreadable: Some(i) });
        }
        match read_entry(&mut archive, i) {
            Ok(e) => {
                entries.push(e);
            },
            Err(_) => {
                return Ok(Contents { entries, unreadable: Some(i) });
            },
        }
        i += 1;
    }
    Ok(Contents { entries, unreadable: None })
}

/// A step of unpacking an archive.
#[derive(Debug, PartialEq, Eq)]
pub struct ExtractStep {
    /// The parts of the path to unpack to, to be put one behind the other below the addon
    /// directory.
    pub path: Vec<String>,
    /// The entry.
    pub entry: usize,
    /// Whether the entry is a directory to make, and no file to write.
    pub is_dir: bool,
}

/// What a step holds.
#[verifier::ext_equal]
pub struct StepView {
    pub path: Seq<Seq<char>>,
    pub entry: int,
    pub is_dir: bool,
}

impl View for ExtractStep {
    type V = StepView;

    open spec fn view(&self) -> StepView {
        StepView { path: texts_of(self.path@), entry: self.entry as int, is_dir: self.is_dir }
    }
}

/// How to unpack an archive: the steps, and what ends them early.
#[derive(Debug, PartialEq, Eq)]
pub struct Extraction {
    pub steps: Vec<ExtractStep>,
    pub failure: Option<ServiceError>,
}

/// The name of an entry that is a directory ends in a slash.
pub open spec fn names_dir(e: ArchiveEntry) -> bool {
    e.name@.len() > 0 && e.name@.last() == '/'
}

/// The parts of the path that a name is unpacked to.
pub open spec fn target(inside: Option<Seq<char>>, name: Seq<char>) -> Seq<Seq<char>> {
    match inside {
        Some(dir) => seq![dir, name],
        None => seq![name],
    }
}

/// The entry is a file that is to be written and cannot be unpacked to its end.
pub open spec fn is_broken(e: ArchiveEntry) -> bool {
    e.enclosed is Some && !names_dir(e) && !e.intact
}

/// One of the entries is broken.
pub open spec fn has_broken(entries: Seq<ArchiveEntry>) -> bool {
    exists|i: int| 0 <= i < entries.len() && is_broken(#[trigger] entries[i])
}

/// The steps that unpack `entries`: one for each entry whose name is a path below the addon
/// directory, in their order, up to the first that is broken and with it.
pub open spec fn steps_of(entries: Seq<ArchiveEntry>, inside: Option<Seq<char>>) -> Seq<StepView>
    decreases entries.len(),
{
    if entries.len() == 0 {
        Seq::empty()
    } else {
        let before = steps_of(entries.drop_last(), inside);
        if has_broken(entries.drop_last()) || entries.last().enclosed is None {
            before
        } else {
            before.push(
                StepView {
                    path: target(inside, entries.last().enclosed->0@),
                    entry: entries.len() - 1,
                    is_dir: names_dir(entries.last()),
                },
            )
        }
    }
}

/// Unpacking ends early at the first entry that is broken, and otherwise at the one that cannot
/// be opened.
pub open spec fn is_extraction(x: Extraction, c: Contents, inside: Option<Seq<char>>) -> bool {
    &&& views(x.steps@) == steps_of(c.entries@, inside)
    &&& match x.failure {
        Some(ServiceError::AddonDownloadZipExtract { path }) => has_broken(c.entries@) && texts_of(
            path@,
        ) == views(x.steps@).last().path,
        Some(ServiceError::AddonDownloadZipRead { file }) => !has_broken(c.entries@)
            && c.unreadable == Some(file),
        Some(_) => false,
        None => !has_broken(c.entries@) && c.unreadable is None,
    }
}

fn ends_in_slash(name: &str) -> (b: bool)
    ensures
        b == (name@.len() > 0 && name@.last() == '/'),
{
    let v = chars_of(name);
    v.len() > 0 && v[v.len() - 1] == '/'
}

fn path_to(inside: Option<&str>, name: &String) -> (path: Vec<String>)
    ensures
        texts_of(path@) == target(
            match inside {
                Some(dir) => Some(dir@),
                None => None,
            },
            name@,
        ),
{
    let mut path: Vec<String> = Vec::new();
    match inside {
        Some(dir) => {
            path.push(dir.to_owned());
        },
        None => {},
    }
    path.push(name.clone());
    assert(texts_of(path@) =~= target(
        match inside {
            Some(dir) => Some(dir@),
            None => None,
        },
        name@,
    ));
    path
}

/// Decides how to unpack an archive, all of it inside the directory `inside` of the addon
/// directory if there is one.
pub fn plan_extraction(contents: &Contents, inside: Option<&str>) -> (x: Extraction)
    ensures
        is_extraction(
            x,
            *contents,
            match inside {
                Some(dir) => Some(dir@),
                None => None,
            },
        ),
{
    let ghost dir = match inside {
        Some(dir) => Some(dir@),
        None => None,
    };
    let ghost all = contents.entries@;
    let mut steps: Vec<ExtractStep> = Vec::new();
    let mut i: usize = 0;
    assert(views(steps@) =~= steps_of(all.take(0), dir));
    while i < contents.entries.len()
        invariant
            i <= contents.entries.len(),
            all == contents.entries@,
            views(steps@) == steps_of(all.take(i as int), dir),
            !has_broken(all.take(i as int)),
            dir == (match inside {
                Some(dir) => Some(dir@),
                None => None,
            }),
        decreases contents.entries.len() - i,
    {
        let e = &contents.entries[i];
        let ghost before = steps@;
        assert(all.take(i + 1).drop_last() =~= all.take(i as int));
        assert(all.take(i + 1).last() == *e);
        match &e.enclosed {
            Some(name) => {
                let path = path_to(inside, name);
                let is_dir = ends_in_slash(e.name.as_str());
                let step = ExtractStep { path, entry: i, is_dir };
                let ghost v = step@;
                steps.push(step);
                assert(views(steps@) =~= views(before).push(v));
                assert(views(steps@) == steps_of(all.take(i + 1), dir));
                if !is_dir && !e.intact {
                    let failed = path_to(inside, name);
                    proof {
                        assert(is_broken(all[i as int]));
                        assert(has_broken(all));
                        lemma_broken_stops(all, dir, i as int);
                    }
                    return Extraction {
                        steps,
                        failure: Some(ServiceError::AddonDownloadZipExtract { path: failed }),
                    };
                }
            },
            None => {},
        }
        assert(!has_broken(all.take(i + 1))) by {
            if has_broken(all.take(i + 1)) {
                let k = choose|k: int|
                    0 <= k < all.take(i + 1).len() && is_broken(#[trigger] all.take(i + 1)[k]);
                if k < i {
                    assert(is_broken(all.take(i as int)[k]));
                }
            }
        }
        i += 1;
    }
    assert(all.take(i as int) =~= all);
    match contents.unreadable {
        Some(k) => Extraction {
            steps,
            failure: Some(ServiceError::AddonDownloadZipRead { file: k }),
        },
        None => Extraction { steps, failure: None },
    }
}

/// Behind a broken entry there are no more steps.
proof fn lemma_broken_stops(entries: Seq<ArchiveEntry>, inside: Option<Seq<char>>, k: int)
    requires
        0 <= k < entries.len(),
        is_broken(entries[k]),
    ensures
        steps_of(entries, inside) == steps_of(entries.take(k + 1), inside),
    decreases entries.len() - k,
{
    if k + 1 < entries.len() {
        let rest = entries.drop_last();
        assert(rest[k] == entries[k]);
        assert(has_broken(rest));
        lemma_broken_stops(rest, inside, k);
        assert(rest.take(k + 1) =~= entries.take(k + 1));
    } else {
        assert(entries.take(k + 1) =~= entries);
    }
}

} // verus!
