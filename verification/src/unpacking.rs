//! What holds of reading and unpacking archives, told entry by entry.

use vstd::prelude::*;
use crate::archive::{
    depth, has_broken, has_drive, is_broken, is_entry, is_extraction, names_dir, naming_parts,
    slashed, splits_alike, stays_below, steps_of, target, ArchiveEntry, Contents, Extraction,
    StepView,
};
use crate::error::ServiceError;
use crate::service::download::is_addon_path;
use crate::table::views;
use crate::text::{before_null, lemma_first_null, pieces, texts_of};

verus! {

// ---------------------------------------------------------------------------------------------
// Reading
// ---------------------------------------------------------------------------------------------

/// The entries of an archive are read, each with its name and its contents, up to the first that
/// cannot be opened; this one is told.
pub proof fn law_archive_is_read_to_the_first_fault(
    c: Contents,
    list: Seq<Option<(Seq<char>, Option<Seq<u8>>)>>,
)
    requires
        c.reads(list),
    ensures
        c.unreadable is None <==> forall|i: int| 0 <= i < list.len() ==> #[trigger] list[i] is Some,
        c.unreadable is None ==> c.entries@.len() == list.len(),
        c.unreadable matches Some(k) ==> k < list.len() && list[k as int] is None
            && c.entries@.len() == k,
        forall|i: int|
            0 <= i < c.entries@.len() ==> {
                let e = #[trigger] c.entries@[i];
                &&& list[i] matches Some((name, data))
                &&& e.name@ == name
                &&& e.intact <==> data is Some
                &&& e.intact ==> data == Some(e.data@)
                &&& e.enclosed matches Some(p) ==> p@ == name
            },
{
    assert forall|i: int| 0 <= i < c.entries@.len() implies {
        let e = #[trigger] c.entries@[i];
        &&& list[i] matches Some((name, data))
        &&& e.name@ == name
        &&& e.intact <==> data is Some
        &&& e.intact ==> data == Some(e.data@)
        &&& e.enclosed matches Some(p) ==> p@ == name
    } by {
        assert(is_entry(c.entries@[i], list[i]));
    }
    if c.unreadable is None {
        assert forall|i: int| 0 <= i < list.len() implies #[trigger] list[i] is Some by {
            assert(is_entry(c.entries@[i], list[i]));
        }
    } else {
        assert(list[c.unreadable->0 as int] is None);
    }
}

// ---------------------------------------------------------------------------------------------
// Unpacking
// ---------------------------------------------------------------------------------------------

/// The name ends in a slash.
pub open spec fn ends_in_slash(name: Seq<char>) -> bool {
    exists|front: Seq<char>| name == #[trigger] front.push('/')
}

/// The entry is to be written as a file, and its contents do not come out whole.
pub open spec fn fails(e: ArchiveEntry) -> bool {
    e.enclosed is Some && !ends_in_slash(e.name@) && !e.intact
}

/// The entry `k` is unpacked: its name is a path below the addon directory, and no entry before
/// it fails.
pub open spec fn is_unpacked(entries: Seq<ArchiveEntry>, k: int) -> bool {
    &&& 0 <= k < entries.len()
    &&& entries[k].enclosed is Some
    &&& forall|j: int| 0 <= j < k ==> !fails(#[trigger] entries[j])
}

proof fn lemma_slash(e: ArchiveEntry)
    ensures
        names_dir(e) <==> ends_in_slash(e.name@),
        is_broken(e) <==> fails(e),
{
    let name = e.name@;
    if names_dir(e) {
        assert(name =~= name.drop_last().push('/'));
    }
}

proof fn lemma_broken(entries: Seq<ArchiveEntry>)
    ensures
        has_broken(entries) <==> exists|i: int|
            0 <= i < entries.len() && fails(#[trigger] entries[i]),
{
    if has_broken(entries) {
        let i = choose|i: int| 0 <= i < entries.len() && is_broken(#[trigger] entries[i]);
        lemma_slash(entries[i]);
        assert(fails(entries[i]));
    }
    if exists|i: int| 0 <= i < entries.len() && fails(#[trigger] entries[i]) {
        let i = choose|i: int| 0 <= i < entries.len() && fails(#[trigger] entries[i]);
        lemma_slash(entries[i]);
        assert(is_broken(entries[i]));
    }
}

/// The step is the one that unpacks its entry.
spec fn is_step(s: StepView, entries: Seq<ArchiveEntry>, inside: Option<Seq<char>>) -> bool {
    &&& is_unpacked(entries, s.entry)
    &&& s.is_dir == ends_in_slash(entries[s.entry].name@)
    &&& s.path == target(inside, entries[s.entry].enclosed->0@)
}

proof fn lemma_steps_are_exact(entries: Seq<ArchiveEntry>, inside: Option<Seq<char>>)
    ensures
        forall|i: int|
            0 <= i < steps_of(entries, inside).len() ==> is_step(
                #[trigger] steps_of(entries, inside)[i],
                entries,
                inside,
            ),
        forall|i: int, j: int|
            0 <= i < j < steps_of(entries, inside).len() ==> (#[trigger] steps_of(
                entries,
                inside,
            )[i]).entry < (#[trigger] steps_of(entries, inside)[j]).entry,
        forall|k: int| #[trigger]
            is_unpacked(entries, k) ==> exists|i: int|
                0 <= i < steps_of(entries, inside).len() && (#[trigger] steps_of(
                    entries,
                    inside,
                )[i]).entry == k,
    decreases entries.len(),
{
    let all = steps_of(entries, inside);
    if entries.len() > 0 {
        let rest = entries.drop_last();
        let before = steps_of(rest, inside);
        lemma_steps_are_exact(rest, inside);
        lemma_broken(rest);
        lemma_slash(entries.last());
        assert forall|k: int| k < rest.len() implies (#[trigger] is_unpacked(entries, k)
            <==> is_unpacked(rest, k)) by {
            if is_unpacked(rest, k) {
                assert forall|j: int| 0 <= j < k implies !fails(#[trigger] entries[j]) by {
                    assert(rest[j] == entries[j]);
                }
            }
            if is_unpacked(entries, k) {
                assert forall|j: int| 0 <= j < k implies !fails(#[trigger] rest[j]) by {
                    assert(rest[j] == entries[j]);
                }
            }
        }
        let n = entries.len() - 1;
        assert(is_unpacked(entries, n) <==> entries.last().enclosed is Some && !has_broken(rest))
            by {
            if is_unpacked(entries, n) {
                if has_broken(rest) {
                    let j = choose|j: int| 0 <= j < rest.len() && fails(#[trigger] rest[j]);
                    assert(!fails(entries[j]));
                }
            }
            if entries.last().enclosed is Some && !has_broken(rest) {
                assert forall|j: int| 0 <= j < n implies !fails(#[trigger] entries[j]) by {
                    assert(!fails(rest[j]));
                }
            }
        }
        assert forall|i: int| 0 <= i < all.len() implies is_step(
            #[trigger] all[i],
            entries,
            inside,
        ) by {
            if i < before.len() {
                assert(all[i] == before[i]);
                assert(is_step(before[i], rest, inside));
                assert(is_unpacked(entries, before[i].entry));
            }
        }
        assert forall|i: int, j: int| 0 <= i < j < all.len() implies (#[trigger] all[i]).entry < (
        #[trigger] all[j]).entry by {
            assert(all[i] == before[i]);
            assert(is_step(before[i], rest, inside));
            if j < before.len() {
                assert(all[j] == before[j]);
            }
        }
        assert forall|k: int| #[trigger] is_unpacked(entries, k) implies exists|i: int|
            0 <= i < all.len() && (#[trigger] all[i]).entry == k by {
            if k < n {
                assert(is_unpacked(rest, k));
                let i = choose|i: int| 0 <= i < before.len() && (#[trigger] before[i]).entry == k;
                assert(all[i] == before[i]);
            } else {
                assert(all[all.len() - 1].entry == k);
            }
        }
    }
}

/// Each step makes or writes one entry of the archive, as a directory exactly if its name ends in
/// a slash, at the path that the name gives below the addon directory, or below the directory
/// `inside` of it; the steps come in the order of the entries.
pub proof fn law_steps_are_exact(x: Extraction, c: Contents, inside: Option<Seq<char>>)
    requires
        is_extraction(x, c, inside),
    ensures
        forall|i: int|
            0 <= i < x.steps@.len() ==> {
                let s = #[trigger] x.steps@[i];
                &&& is_unpacked(c.entries@, s.entry as int)
                &&& s.is_dir == ends_in_slash(c.entries@[s.entry as int].name@)
                &&& match inside {
                    None => s.path@.len() == 1 && s.path@[0]@ == c.entries@[s.entry as int].enclosed->0@,
                    Some(dir) => s.path@.len() == 2 && s.path@[0]@ == dir && s.path@[1]@
                        == c.entries@[s.entry as int].enclosed->0@,
                }
            },
        forall|i: int, j: int|
            0 <= i < j < x.steps@.len() ==> (#[trigger] x.steps@[i]).entry < (
            #[trigger] x.steps@[j]).entry,
        forall|k: int| #[trigger]
            is_unpacked(c.entries@, k) ==> exists|i: int|
                0 <= i < x.steps@.len() && (#[trigger] x.steps@[i]).entry == k,
{
    let entries = c.entries@;
    let steps = steps_of(entries, inside);
    lemma_steps_are_exact(entries, inside);
    assert forall|i: int| 0 <= i < x.steps@.len() implies {
        let s = #[trigger] x.steps@[i];
        &&& is_unpacked(entries, s.entry as int)
        &&& s.is_dir == ends_in_slash(entries[s.entry as int].name@)
        &&& match inside {
            None => s.path@.len() == 1 && s.path@[0]@ == entries[s.entry as int].enclosed->0@,
            Some(dir) => s.path@.len() == 2 && s.path@[0]@ == dir && s.path@[1]@
                == entries[s.entry as int].enclosed->0@,
        }
    } by {
        let s = x.steps@[i];
        assert(views(x.steps@)[i] == s@);
        assert(is_step(steps[i], entries, inside));
        assert(s@.path == texts_of(s.path@));
        assert(s.path@.len() == s@.path.len());
        assert(s.path@[0]@ == s@.path[0]);
        if inside is Some {
            assert(s.path@[1]@ == s@.path[1]);
        }
    }
    assert forall|i: int, j: int| 0 <= i < j < x.steps@.len() implies (#[trigger] x.steps@[i]).entry
        < (#[trigger] x.steps@[j]).entry by {
        assert(views(x.steps@)[i] == x.steps@[i]@ && views(x.steps@)[j] == x.steps@[j]@);
        assert(steps[i].entry < steps[j].entry);
    }
    assert forall|k: int| #[trigger] is_unpacked(entries, k) implies exists|i: int|
        0 <= i < x.steps@.len() && (#[trigger] x.steps@[i]).entry == k by {
        let i = choose|i: int| 0 <= i < steps.len() && (#[trigger] steps[i]).entry == k;
        assert(views(x.steps@)[i] == x.steps@[i]@);
        assert(x.steps@[i].entry == k);
    }
}

/// Unpacking fails exactly if an entry fails, and is then told by the path of the first that
/// does, which is the last step; or else if an entry cannot be opened, and is then told by it.
pub proof fn law_failures_are_exact(x: Extraction, c: Contents, inside: Option<Seq<char>>)
    requires
        is_extraction(x, c, inside),
    ensures
        (exists|i: int| 0 <= i < c.entries@.len() && fails(#[trigger] c.entries@[i])) ==> {
            &&& x.failure matches Some(ServiceError::AddonDownloadZipExtract { path })
            &&& x.steps@.len() > 0
            &&& path@.len() == x.steps@.last().path@.len()
            &&& forall|i: int|
                0 <= i < path@.len() ==> (#[trigger] path@[i])@ == x.steps@.last().path@[i]@
            &&& fails(c.entries@[x.steps@.last().entry as int])
        },
        (forall|i: int| 0 <= i < c.entries@.len() ==> !fails(#[trigger] c.entries@[i])) ==> x.failure
            == (match c.unreadable {
            Some(k) => Some(ServiceError::AddonDownloadZipRead { file: k }),
            None => None,
        }),
{
    let entries = c.entries@;
    let steps = steps_of(entries, inside);
    lemma_broken(entries);
    lemma_steps_are_exact(entries, inside);
    if exists|i: int| 0 <= i < entries.len() && fails(#[trigger] entries[i]) {
        let i = choose|i: int| 0 <= i < entries.len() && fails(#[trigger] entries[i]);
        let k = lemma_first_failure(entries, i);
        assert(is_unpacked(entries, k));
        let n = choose|n: int| 0 <= n < steps.len() && (#[trigger] steps[n]).entry == k;
        let last = steps.len() - 1;
        assert(views(x.steps@)[last] == x.steps@[last]@);
        if n < last {
            assert(steps[n].entry < steps[last].entry);
            assert(is_step(steps[last], entries, inside));
            assert(!fails(entries[k]));
        }
        if let Some(ServiceError::AddonDownloadZipExtract { path }) = x.failure {
            let there = x.steps@.last().path@;
            assert(texts_of(path@) == texts_of(there));
            assert(texts_of(path@).len() == path@.len() && texts_of(there).len() == there.len());
            assert forall|j: int| 0 <= j < path@.len() implies (#[trigger] path@[j])@
                == there[j]@ by {
                assert(texts_of(path@)[j] == texts_of(there)[j]);
            }
        }
    }
}

proof fn lemma_first_failure(entries: Seq<ArchiveEntry>, i: int) -> (k: int)
    requires
        0 <= i < entries.len(),
        fails(entries[i]),
    ensures
        0 <= k <= i,
        fails(entries[k]),
        forall|j: int| 0 <= j < k ==> !fails(#[trigger] entries[j]),
    decreases i,
{
    if exists|j: int| 0 <= j < i && fails(#[trigger] entries[j]) {
        let j = choose|j: int| 0 <= j < i && fails(#[trigger] entries[j]);
        lemma_first_failure(entries, j)
    } else {
        i
    }
}

/// An addon lies in the directory that the first plain part of its first entry names, or in the
/// addon directory itself if there is no such part; without an entry there is no addon.
pub proof fn law_addon_path_is_exact(path: Result<Vec<String>, ServiceError>, c: Contents)
    requires
        is_addon_path(path, c),
    ensures
        match path {
            Ok(p) => {
                &&& c.entries@.len() > 0
                &&& c.entries@[0].plain_parts@.len() > 0 ==> p@.len() == 1 && p@[0]@
                    == c.entries@[0].plain_parts@[0]@
                &&& c.entries@[0].plain_parts@.len() == 0 ==> p@.len() == 0
            },
            Err(e) => c.entries@.len() == 0 && e == (ServiceError::AddonDownloadZipRead {
                file: 0,
            }),
        },
{
    match path {
        Ok(p) => {
            let parts = c.entries@[0].plain_parts@;
            if parts.len() > 0 {
                assert(texts_of(p@).len() == texts_of(parts.take(1)).len());
                assert(texts_of(p@)[0] == texts_of(parts.take(1))[0]);
            } else {
                assert(texts_of(p@).len() == texts_of(Seq::<String>::empty()).len());
            }
        },
        Err(_) => {},
    }
}

// ---------------------------------------------------------------------------------------------
// Names
// ---------------------------------------------------------------------------------------------

/// `part` stands in `s` from position `from` on.
spec fn stands_at(s: Seq<char>, part: Seq<char>, from: int) -> bool {
    0 <= from && from + part.len() <= s.len() && s.subrange(from, from + part.len()) == part
}

/// `part` stands in `s`.
spec fn stands_in(s: Seq<char>, part: Seq<char>) -> bool {
    exists|from: int| stands_at(s, part, from)
}

proof fn lemma_pieces_stand(s: Seq<char>, separator: char)
    ensures
        pieces(s, separator).len() > 0,
        stands_at(s, pieces(s, separator).last(), s.len() - pieces(s, separator).last().len()),
        forall|i: int|
            0 <= i < pieces(s, separator).len() ==> stands_in(s, #[trigger] pieces(s, separator)[i]),
    decreases s.len(),
{
    let all = pieces(s, separator);
    if s.len() == 0 {
        assert(s.subrange(0, 0) =~= Seq::<char>::empty());
        assert forall|i: int| 0 <= i < all.len() implies stands_in(s, #[trigger] all[i]) by {
            assert(stands_at(s, all[0], 0));
        }
    } else {
        let rest = s.drop_last();
        let before = pieces(rest, separator);
        lemma_pieces_stand(rest, separator);
        let n = s.len() - all.last().len();
        if s.last() == separator {
            assert(s.subrange(n, s.len() as int) =~= all.last());
        } else {
            assert(rest.subrange(n, rest.len() as int) == before.last());
            assert(s.subrange(n, s.len() as int) =~= all.last());
        }
        assert forall|i: int| 0 <= i < all.len() implies stands_in(s, #[trigger] all[i]) by {
            if i < all.len() - 1 {
                assert(all[i] == before[i]);
                assert(stands_in(rest, before[i]));
                let from = choose|from: int| stands_at(rest, before[i], from);
                assert(s.subrange(from, from + all[i].len()) =~= rest.subrange(
                    from,
                    from + all[i].len(),
                ));
                assert(stands_at(s, all[i], from));
            } else {
                assert(stands_at(s, all[i], n));
            }
        }
    }
}

proof fn lemma_never_up(parts: Seq<Seq<char>>)
    requires
        forall|i: int| 0 <= i < parts.len() ==> #[trigger] parts[i] != seq!['.', '.'],
    ensures
        depth(parts) >= 0,
    decreases parts.len(),
{
    if parts.len() > 0 {
        let rest = parts.drop_last();
        assert forall|i: int| 0 <= i < rest.len() implies #[trigger] rest[i] != seq!['.', '.'] by {
            assert(parts[i] != seq!['.', '.']);
        }
        lemma_never_up(rest);
        assert(parts[parts.len() - 1] != seq!['.', '.']);
    }
}

/// An entry whose name starts with no slash, holds no null character, backslash or colon, and has
/// no two dots in a row, is a path below a directory: its name as it stands.
pub proof fn law_plain_names_are_paths(e: ArchiveEntry, name: Seq<char>, data: Option<Seq<u8>>)
    requires
        is_entry(e, Some((name, data))),
        name.len() == 0 || name[0] != '/',
        !name.contains('\0'),
        !name.contains('\\'),
        !name.contains(':'),
        forall|i: int| 0 <= i < name.len() - 1 && #[trigger] name[i] == '.' ==> name[i + 1] != '.',
    ensures
        e.enclosed is Some,
        e.enclosed->0@ == name,
{
    let all = pieces(name, '/');
    lemma_pieces_stand(name, '/');
    assert forall|i: int| 0 <= i < all.len() implies #[trigger] all[i] != seq!['.', '.'] by {
        if all[i] == seq!['.', '.'] {
            assert(stands_in(name, all[i]));
            let from = choose|from: int| stands_at(name, all[i], from);
            let part = name.subrange(from, from + 2);
            assert(part[0] == '.' && part[1] == '.');
            assert(name[from] == '.');
        }
    }
    assert forall|n: int| 0 <= n <= all.len() implies depth(#[trigger] all.take(n)) >= 0 by {
        lemma_never_up(all.take(n));
    }
    assert(!has_drive(name)) by {
        if has_drive(name) {
            assert(name.contains(name[1]));
        }
    }
}

proof fn lemma_no_separator(a: Seq<char>, separator: char)
    requires
        !a.contains(separator),
    ensures
        pieces(a, separator) == seq![a],
    decreases a.len(),
{
    if a.len() > 0 {
        let rest = a.drop_last();
        assert(a.contains(a[a.len() - 1]));
        assert(!rest.contains(separator)) by {
            if rest.contains(separator) {
                let i = rest.index_of(separator);
                assert(a[i] == separator);
            }
        }
        lemma_no_separator(rest, separator);
        assert(rest.push(a.last()) =~= a);
        assert(pieces(a, separator) =~= seq![a]);
    } else {
        assert(a =~= Seq::<char>::empty());
    }
}

proof fn lemma_first_piece(a: Seq<char>, rest: Seq<char>, separator: char)
    requires
        !a.contains(separator),
    ensures
        pieces(a.push(separator) + rest, separator).len() >= 2,
        pieces(a.push(separator) + rest, separator)[0] == a,
    decreases rest.len(),
{
    let s = a.push(separator) + rest;
    if rest.len() == 0 {
        lemma_no_separator(a, separator);
        assert(s =~= a.push(separator));
        assert(s.drop_last() =~= a);
    } else {
        lemma_first_piece(a, rest.drop_last(), separator);
        assert(s.drop_last() =~= a.push(separator) + rest.drop_last());
    }
}

/// An entry whose name starts with a slash, or with two dots and a slash, or holds a null
/// character is no path below a directory, if it holds no backslash.
pub proof fn law_names_that_lead_out_are_no_paths(
    e: ArchiveEntry,
    name: Seq<char>,
    data: Option<Seq<u8>>,
    rest: Seq<char>,
)
    requires
        is_entry(e, Some((name, data))),
        !name.contains('\\'),
        name == seq!['/'] + rest || name == seq!['.', '.', '/'] + rest || name.contains('\0'),
    ensures
        e.enclosed is None,
{
    if name == seq!['/'] + rest {
        assert(name[0] == '/');
    }
    if name == seq!['.', '.', '/'] + rest {
        let up = seq!['.', '.'];
        assert(name =~= up.push('/') + rest);
        assert(!up.contains('/'));
        lemma_first_piece(up, rest, '/');
        let parts = pieces(name, '/').take(1);
        assert(parts.drop_last() =~= Seq::<Seq<char>>::empty());
        assert(parts.last() == up);
        assert(depth(Seq::<Seq<char>>::empty()) == 0);
        assert(depth(parts) == -1);
        assert(name[1] == '.');
        assert(!stays_below(name));
    }
}

proof fn lemma_first_name(parts: Seq<Seq<char>>)
    requires
        parts.len() > 0,
        parts[0].len() > 0,
        parts[0] != seq!['.'],
        parts[0] != seq!['.', '.'],
    ensures
        naming_parts(parts).len() > 0,
        naming_parts(parts)[0] == parts[0],
    decreases parts.len(),
{
    let rest = parts.drop_last();
    if rest.len() > 0 {
        lemma_first_name(rest);
    } else {
        assert(naming_parts(rest) =~= Seq::<Seq<char>>::empty());
    }
}

/// An addon whose first entry lies in a directory lies in that directory: what stands in front of
/// the first slash of the name of the entry, if the name holds no null character, backslash or
/// colon.
pub proof fn law_addon_lies_in_the_first_directory(
    c: Contents,
    list: Seq<Option<(Seq<char>, Option<Seq<u8>>)>>,
    data: Option<Seq<u8>>,
    first: Seq<char>,
    rest: Seq<char>,
    path: Vec<String>,
)
    requires
        c.reads(list),
        is_addon_path(Ok(path), c),
        list[0] == Some((first.push('/') + rest, data)),
        first.len() > 0,
        first != seq!['.'],
        first != seq!['.', '.'],
        !first.contains('/'),
        !(first.push('/') + rest).contains('\0'),
        !(first.push('/') + rest).contains('\\'),
        !(first.push('/') + rest).contains(':'),
    ensures
        path@.len() == 1,
        path@[0]@ == first,
{
    let name = first.push('/') + rest;
    let e = c.entries@[0];
    law_addon_path_is_exact(Ok(path), c);
    assert(is_entry(e, list[0]));
    assert forall|i: int| 0 <= i < name.len() implies #[trigger] name[i] != '\0' && name[i] != '\\'
        && name[i] != ':' by {
        assert(name.contains(name[i]));
    }
    lemma_first_null(name, name.len() as int);
    assert(before_null(name) =~= name);
    assert(slashed(name) =~= name);
    assert(name[0] == first[0]);
    assert(first.contains(first[0]));
    assert(splits_alike(name));
    lemma_first_piece(first, rest, '/');
    lemma_first_name(pieces(name, '/'));
    let plain = e.plain_parts@;
    assert(texts_of(plain) == naming_parts(pieces(name, '/')));
    assert(texts_of(plain).len() == plain.len());
    assert(texts_of(plain)[0] == plain[0]@);
}

} // verus!
