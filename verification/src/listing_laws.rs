//! What the listing of an archive says, and what is read from it.

use vstd::prelude::*;
use crate::archive_ops::{
    any_encrypted, blank_line, block_entry, blocks, counted, entry_of, file_bytes,
    file_count, files_of_kind, listed, shown_entries, unix_lines, with_field, with_line,
    ArchiveStats, EntryView,
};
use crate::text::{
    decimal, ends_with, index_of, joined, lemma_trim_cut, lower, split, starts_with, trimmed,
    white_space,
};

verus! {

/// A line of a listing.
pub open spec fn listing_line(key: Seq<char>, value: Seq<char>) -> Seq<char> {
    key + " = "@ + value
}

/// Whether a text can stand in a line: it is not empty, neither begins nor ends with white
/// space, and has no line feed.
pub open spec fn fits_a_line(value: Seq<char>) -> bool {
    &&& value.len() > 0
    &&& !white_space(value[0])
    &&& !white_space(value.last())
    &&& forall|i: int| 0 <= i < value.len() ==> #[trigger] value[i] != '\n'
}

/// The key that a line names.
pub open spec fn key_of(line: Seq<char>) -> Option<Seq<char>> {
    let t = trimmed(line);
    let k = index_of(t, '=');
    if 0 <= k < t.len() {
        Some(trimmed(t.take(k)))
    } else {
        None
    }
}

/// What a line of a key and a value says, however its value ends.
proof fn lemma_line(e: EntryView, key: Seq<char>, value: Seq<char>)
    requires
        fits_a_line(key),
        !key.contains('='),
        value.len() > 0,
        !white_space(value[0]),
    ensures
        key_of(listing_line(key, value)) == Some(key),
        exists|m: int|
            0 < m <= value.len() && #[trigger] with_field(e, key, value.take(m)) == with_line(
                e,
                listing_line(key, value),
            ) && !white_space(value[m - 1]) && forall|j: int|
                m <= j < value.len() ==> white_space(#[trigger] value[j]),
{
    reveal_strlit(" = ");
    let line = listing_line(key, value);
    let n = key.len() as int;
    assert(line[0] == key[0]);
    assert(line[n] == ' ' && line[n + 1] == '=' && line[n + 2] == ' ');
    assert(line[n + 3] == value[0]);
    crate::text::lemma_ends(value, crate::text::CharClass::White);
    let m = value.len() - crate::text::trailing(value, crate::text::CharClass::White);
    assert(m > 0);
    let b = n + 3 + m;
    assert forall|j: int| b <= j < line.len() implies white_space(#[trigger] line[j]) by {
        assert(line[j] == value[j - n - 3]);
    }
    assert(line[b - 1] == value[m - 1]);
    lemma_trim_cut(line, 0, b);
    let t = trimmed(line);
    assert(t == line.subrange(0, b));
    assert forall|i: int| 0 <= i < n + 1 implies t[i] != '=' by {
        assert(t[i] == line[i]);
        if i < n {
            assert(line[i] == key[i]);
        }
    }
    crate::text::lemma_index_of_unique(t, '=', n + 1);
    let head = t.take(n + 1);
    assert(head[0] == key[0] && head[n - 1] == key.last() && head[n] == ' ');
    lemma_trim_cut(head, 0, n);
    assert(head.subrange(0, n) =~= key);
    let tail = t.skip(n + 2);
    assert(tail.len() == m + 1);
    assert(tail[0] == ' ' && tail[1] == value[0] && tail[m] == value[m - 1]);
    lemma_trim_cut(tail, 1, m + 1);
    assert(tail.subrange(1, m + 1) =~= value.take(m));
    assert(with_field(e, key, value.take(m)) == with_line(e, line));
}

/// What a line of a key and a value says.
proof fn lemma_plain_line(e: EntryView, key: Seq<char>, value: Seq<char>)
    requires
        fits_a_line(key),
        !key.contains('='),
        fits_a_line(value),
    ensures
        key_of(listing_line(key, value)) == Some(key),
        with_line(e, listing_line(key, value)) == with_field(e, key, value),
{
    lemma_line(e, key, value);
    let m = choose|m: int|
        0 < m <= value.len() && #[trigger] with_field(e, key, value.take(m)) == with_line(
            e,
            listing_line(key, value),
        ) && !white_space(value[m - 1]) && forall|j: int|
            m <= j < value.len() ==> white_space(#[trigger] value[j]);
    if m < value.len() {
        assert(white_space(value[value.len() - 1]));
    }
    assert(value.take(m) =~= value);
}

/// The keys of a listing fit a line and are told apart.
proof fn lemma_keys()
    ensures
        fits_a_line("Path"@) && !"Path"@.contains('='),
        fits_a_line("Folder"@) && !"Folder"@.contains('='),
        fits_a_line("Size"@) && !"Size"@.contains('='),
        fits_a_line("Packed Size"@) && !"Packed Size"@.contains('='),
        fits_a_line("Modified"@) && !"Modified"@.contains('='),
        fits_a_line("Encrypted"@) && !"Encrypted"@.contains('='),
        fits_a_line("Attributes"@) && !"Attributes"@.contains('='),
        "Path"@ != "Folder"@ && "Path"@ != "Size"@ && "Path"@ != "Packed Size"@ && "Path"@
            != "Modified"@ && "Path"@ != "Encrypted"@ && "Path"@ != "Attributes"@,
        "Folder"@ != "Size"@ && "Folder"@ != "Packed Size"@ && "Folder"@ != "Modified"@
            && "Folder"@ != "Encrypted"@ && "Folder"@ != "Attributes"@,
        "Size"@ != "Packed Size"@ && "Size"@ != "Modified"@ && "Size"@ != "Encrypted"@ && "Size"@
            != "Attributes"@,
        "Packed Size"@ != "Modified"@ && "Packed Size"@ != "Encrypted"@ && "Packed Size"@
            != "Attributes"@,
        "Modified"@ != "Encrypted"@ && "Modified"@ != "Attributes"@ && "Encrypted"@
            != "Attributes"@,
{
    reveal_strlit("Path");
    reveal_strlit("Folder");
    reveal_strlit("Size");
    reveal_strlit("Packed Size");
    reveal_strlit("Modified");
    reveal_strlit("Encrypted");
    reveal_strlit("Attributes");
    assert("Path"@[0] == 'P' && "Folder"@[0] == 'F' && "Size"@[0] == 'S' && "Packed Size"@[0]
        == 'P' && "Modified"@[0] == 'M' && "Encrypted"@[0] == 'E' && "Attributes"@[0] == 'A');
    assert("Path"@.len() != "Packed Size"@.len());
}

/// A number of 64 bits in base ten reads back.
proof fn lemma_number(n: u64)
    ensures
        fits_a_line(decimal(n as nat)),
        crate::archive_ops::listed_number(decimal(n as nat)) == n,
{
    let s = decimal(n as nat);
    crate::text::lemma_decimal_value(n as nat);
    assert forall|i: int| 0 <= i < s.len() implies #[trigger] s[i] != '\n' by {
        assert(crate::text::digit(s[i]));
    }
    assert(crate::text::digit(s[0]) && crate::text::digit(s[s.len() - 1]));
}

/// A line sets the field that it names to the value that it gives, and nothing else: the
/// path with forward slashes, the sizes as numbers, and marks by a plus sign.
pub proof fn lines_set_what_they_name(lines: Seq<Seq<char>>, value: Seq<char>, n: u64)
    requires
        fits_a_line(value),
        !value.contains('\\'),
    ensures
        ({
            let e = entry_of(lines);
            let told = |key: Seq<char>, text: Seq<char>|
                entry_of(lines.push(listing_line(key, text)));
            &&& told("Path"@, value) == EntryView { path: value, ..e }
            &&& told("Size"@, decimal(n as nat)) == EntryView { size: n as int, ..e }
            &&& told("Packed Size"@, decimal(n as nat)) == EntryView { packed_size: n as int, ..e }
            &&& told("Modified"@, value) == EntryView { modified: value, ..e }
            &&& told("Folder"@, "+"@) == EntryView { is_dir: true, ..e }
            &&& told("Folder"@, "-"@) == EntryView { is_dir: false, ..e }
            &&& told("Encrypted"@, "+"@) == EntryView { encrypted: true, ..e }
            &&& told("Encrypted"@, "-"@) == EntryView { encrypted: false, ..e }
        }),
{
    let e = entry_of(lines);
    lemma_keys();
    lemma_number(n);
    reveal_strlit("+");
    reveal_strlit("-");
    assert("+"@[0] == '+' && "-"@[0] == '-');
    let number = decimal(n as nat);
    assert(crate::text::replaced(value, '\\', '/') =~= value) by {
        assert forall|i: int| 0 <= i < value.len() implies value[i] != '\\' by {
            assert(value.contains(value[i]));
        }
    }
    lemma_plain_line(e, "Path"@, value);
    lemma_plain_line(e, "Size"@, number);
    lemma_plain_line(e, "Packed Size"@, number);
    lemma_plain_line(e, "Modified"@, value);
    lemma_plain_line(e, "Folder"@, "+"@);
    lemma_plain_line(e, "Folder"@, "-"@);
    lemma_plain_line(e, "Encrypted"@, "+"@);
    lemma_plain_line(e, "Encrypted"@, "-"@);
    assert forall|l: Seq<char>| (#[trigger] lines.push(l)).drop_last() == lines by {
        assert(lines.push(l).drop_last() =~= lines);
    }
}

/// Backslashes in a path become forward slashes.
pub proof fn paths_have_forward_slashes(lines: Seq<Seq<char>>)
    ensures
        forall|i: int|
            0 <= i < entry_of(lines).path.len() ==> #[trigger] entry_of(lines).path[i] != '\\',
    decreases lines.len(),
{
    if lines.len() > 0 {
        let d = lines.drop_last();
        paths_have_forward_slashes(d);
        let path = entry_of(lines).path;
        assert forall|i: int| 0 <= i < path.len() implies #[trigger] path[i] != '\\' by {
            if path == entry_of(d).path {
                assert(entry_of(d).path[i] != '\\');
            } else {
                let t = trimmed(lines.last());
                let value = trimmed(t.skip(index_of(t, '=') + 1));
                assert(path == crate::text::replaced(value, '\\', '/'));
            }
        }
    }
}

/// An entry is a folder wherever a line of its attributes begins with `D`, unless a later
/// line says whether it is one.
pub proof fn attributes_tell_folders(lines: Seq<Seq<char>>, k: int, rest: Seq<char>)
    requires
        0 <= k < lines.len(),
        lines[k] == listing_line("Attributes"@, seq!['D'] + rest),
        forall|j: int| k < j < lines.len() ==> key_of(#[trigger] lines[j]) != Some("Folder"@),
    ensures
        entry_of(lines).is_dir,
    decreases lines.len(),
{
    lemma_keys();
    let d = lines.drop_last();
    if k == lines.len() - 1 {
        let value = seq!['D'] + rest;
        let e = entry_of(d);
        lemma_line(e, "Attributes"@, value);
        let m = choose|m: int|
            0 < m <= value.len() && #[trigger] with_field(e, "Attributes"@, value.take(m))
                == with_line(e, lines[k]) && !white_space(value[m - 1]) && forall|j: int|
                m <= j < value.len() ==> white_space(#[trigger] value[j]);
        assert(value.take(m)[0] == 'D');
    } else {
        assert(lines[k] == d[k]);
        assert forall|j: int| k < j < d.len() implies key_of(#[trigger] d[j]) != Some(
            "Folder"@,
        ) by {
            assert(d[j] == lines[j]);
        }
        attributes_tell_folders(d, k, rest);
        let last = lines[lines.len() - 1];
        assert(key_of(last) != Some("Folder"@));
    }
}

/// An entry of a listing whose path ends in a slash is a folder, and so is one that its
/// lines tell to be one. Folders are in no count of files.
pub proof fn folders_are_not_files(
    entries: Seq<EntryView>,
    kinds: Seq<Option<Seq<char>>>,
    stats: ArchiveStats,
)
    requires
        counted(stats, entries, kinds),
    ensures
        stats.total_files == entries.filter(|e: EntryView| !e.is_dir).len(),
        stats.images + stats.videos + stats.sources + stats.texts + stats.others
            == stats.total_files,
        (forall|i: int| 0 <= i < entries.len() ==> (#[trigger] entries[i]).is_dir)
            ==> stats.total_files == 0 && stats.total_uncompressed_bytes == 0,
{
    lemma_file_count(entries);
    if forall|i: int| 0 <= i < entries.len() ==> (#[trigger] entries[i]).is_dir {
        lemma_no_files(entries);
    }
}

/// Files are what is left without the folders.
proof fn lemma_file_count(entries: Seq<EntryView>)
    ensures
        file_count(entries) == entries.filter(|e: EntryView| !e.is_dir).len(),
    decreases entries.len(),
{
    reveal(Seq::filter);
    if entries.len() > 0 {
        lemma_file_count(entries.drop_last());
    }
}

/// Folders alone hold nothing.
proof fn lemma_no_files(entries: Seq<EntryView>)
    requires
        forall|i: int| 0 <= i < entries.len() ==> (#[trigger] entries[i]).is_dir,
    ensures
        file_count(entries) == 0,
        file_bytes(entries) == 0,
    decreases entries.len(),
{
    if entries.len() > 0 {
        assert(entries[entries.len() - 1].is_dir);
        assert forall|i: int| 0 <= i < entries.len() - 1 implies (
        #[trigger] entries.drop_last()[i]).is_dir by {
            assert(entries.drop_last()[i] == entries[i]);
        }
        lemma_no_files(entries.drop_last());
    }
}

/// A file more is counted once, under its kind and with its size; a folder more changes no
/// count.
pub proof fn files_are_counted_by_kind(
    entries: Seq<EntryView>,
    kinds: Seq<Option<Seq<char>>>,
    stats: ArchiveStats,
    entry: EntryView,
    kind: Option<Seq<char>>,
    now: ArchiveStats,
)
    requires
        entries.len() == kinds.len(),
        counted(stats, entries, kinds),
        counted(now, entries.push(entry), kinds.push(kind)),
    ensures
        entry.is_dir ==> now == stats,
        !entry.is_dir ==> {
            &&& now.total_files == stats.total_files + 1
            &&& now.total_uncompressed_bytes == stats.total_uncompressed_bytes + entry.size
            &&& now.images == stats.images + if kind == Some("image"@) { 1int } else { 0 }
            &&& now.videos == stats.videos + if kind == Some("video"@) { 1int } else { 0 }
            &&& now.sources == stats.sources + if kind == Some("source"@) { 1int } else { 0 }
            &&& now.texts == stats.texts + if kind == Some("text"@) { 1int } else { 0 }
            &&& kind is None ==> now.others == stats.others + 1
        },
{
    let all = entries.push(entry);
    let ks = kinds.push(kind);
    assert(all.drop_last() =~= entries);
    lemma_kinds_in_front(entries, kinds, kind, Some("image"@));
    lemma_kinds_in_front(entries, kinds, kind, Some("video"@));
    lemma_kinds_in_front(entries, kinds, kind, Some("source"@));
    lemma_kinds_in_front(entries, kinds, kind, Some("text"@));
    assert(all[entries.len() as int] == entry && ks[entries.len() as int] == kind);
}

/// The kind of a further entry changes no count of those in front.
proof fn lemma_kinds_in_front(
    entries: Seq<EntryView>,
    kinds: Seq<Option<Seq<char>>>,
    more: Option<Seq<char>>,
    kind: Option<Seq<char>>,
)
    requires
        entries.len() <= kinds.len(),
    ensures
        files_of_kind(entries, kinds.push(more), kind) == files_of_kind(entries, kinds, kind),
    decreases entries.len(),
{
    if entries.len() > 0 {
        lemma_kinds_in_front(entries.drop_last(), kinds, more, kind);
    }
}

/// A block with a line of attributes that begin with `D`, and with no later line that says
/// whether it is a folder, is shown as a folder, wherever it is shown.
pub proof fn folder_blocks_are_shown_as_folders(
    parts: Seq<Seq<char>>,
    name: Seq<char>,
    size: int,
    k: int,
    j: int,
    rest: Seq<char>,
)
    requires
        0 <= k < parts.len(),
        ({
            let lines = split(trimmed(parts[k]), '\n');
            let e = block_entry(parts[k]);
            &&& 0 <= j < lines.len()
            &&& lines[j] == listing_line("Attributes"@, seq!['D'] + rest)
            &&& forall|i: int| j < i < lines.len() ==> key_of(#[trigger] lines[i]) != Some("Folder"@)
            &&& e.path.len() > 0
            &&& e.path != "__MACOSX"@
            &&& !starts_with(e.path, "__MACOSX/"@)
            &&& !ends_with(e.path, ".DS_Store"@)
            &&& !ends_with(e.path, "Thumbs.db"@)
            &&& !ends_with(e.path, "desktop.ini"@)
            &&& !ends_with(lower(e.path), lower(name)) || e.size != size
        }),
    ensures
        exists|i: int|
            0 <= i < shown_entries(parts, name, size).len() && (#[trigger] shown_entries(
                parts,
                name,
                size,
            )[i]).is_dir && shown_entries(parts, name, size)[i].path == block_entry(parts[k]).path,
{
    attributes_tell_folders(split(trimmed(parts[k]), '\n'), j, rest);
    listings_lose_no_entry(parts, name, size, k);
}

/// The entry of a block among the blocks of a listing.
proof fn lemma_shown(parts: Seq<Seq<char>>, name: Seq<char>, size: int, i: int)
    requires
        0 <= i < shown_entries(parts, name, size).len(),
    ensures
        exists|k: int|
            0 <= k < parts.len() && crate::archive_ops::shown(
                block_entry(#[trigger] parts[k]),
                name,
                size,
            ) && shown_entries(parts, name, size)[i] == crate::archive_ops::as_shown(
                block_entry(parts[k]),
            ),
    decreases parts.len(),
{
    let d = parts.drop_last();
    let before = shown_entries(d, name, size);
    if i < before.len() {
        lemma_shown(d, name, size, i);
        let k = choose|k: int|
            0 <= k < d.len() && crate::archive_ops::shown(
                block_entry(#[trigger] d[k]),
                name,
                size,
            ) && before[i] == crate::archive_ops::as_shown(block_entry(d[k]));
        assert(parts[k] == d[k]);
    } else {
        assert(parts[parts.len() - 1] == parts.last());
    }
}

/// No entry of a listing is litter of a desktop system or without a path, and every entry
/// whose path ends in a slash is a folder.
pub proof fn listings_hold_no_litter(stdout: Seq<char>, name: Seq<char>, size: int, i: int)
    requires
        0 <= i < listed(stdout, name, size).len(),
    ensures
        ({
            let e = listed(stdout, name, size)[i];
            &&& e.path.len() > 0
            &&& e.path.last() == '/' ==> e.is_dir
            &&& e.path != "__MACOSX"@
            &&& !starts_with(e.path, "__MACOSX/"@)
            &&& !ends_with(e.path, ".DS_Store"@)
            &&& !ends_with(e.path, "Thumbs.db"@)
            &&& !ends_with(e.path, "desktop.ini"@)
            &&& lower(e.path) == lower(name) ==> e.size != size
        }),
{
    let parts = blocks(unix_lines(stdout));
    lemma_shown(parts, name, size, i);
    let e = listed(stdout, name, size)[i];
    if lower(e.path) == lower(name) {
        assert(lower(e.path).skip(0) =~= lower(e.path));
    }
}

/// Every block of a listing with a path that is no litter, and that is not named as the
/// archive is, is an entry of the listing, with the path and the sizes that the block tells.
pub proof fn listings_lose_no_entry(parts: Seq<Seq<char>>, name: Seq<char>, size: int, k: int)
    requires
        0 <= k < parts.len(),
        ({
            let e = block_entry(parts[k]);
            &&& e.path.len() > 0
            &&& e.path != "__MACOSX"@
            &&& !starts_with(e.path, "__MACOSX/"@)
            &&& !ends_with(e.path, ".DS_Store"@)
            &&& !ends_with(e.path, "Thumbs.db"@)
            &&& !ends_with(e.path, "desktop.ini"@)
            &&& !ends_with(lower(e.path), lower(name)) || e.size != size
        }),
    ensures
        exists|i: int|
            0 <= i < shown_entries(parts, name, size).len() && (#[trigger] shown_entries(
                parts,
                name,
                size,
            )[i]) == (EntryView {
                is_dir: block_entry(parts[k]).is_dir || block_entry(parts[k]).path.last() == '/',
                ..block_entry(parts[k])
            }),
    decreases parts.len(),
{
    let d = parts.drop_last();
    let before = shown_entries(d, name, size);
    let now = shown_entries(parts, name, size);
    if k < parts.len() - 1 {
        assert(d[k] == parts[k]);
        listings_lose_no_entry(d, name, size, k);
        let i = choose|i: int|
            0 <= i < before.len() && (#[trigger] before[i]) == (EntryView {
                is_dir: block_entry(d[k]).is_dir || block_entry(d[k]).path.last() == '/',
                ..block_entry(d[k])
            });
        assert(now[i] == before[i]);
    } else {
        assert(now[before.len() as int] == crate::archive_ops::as_shown(block_entry(parts[k])));
    }
}

/// A mark of a listing.
pub open spec fn mark(on: bool) -> Seq<char> {
    if on {
        "+"@
    } else {
        "-"@
    }
}

/// The lines of an entry, as the program prints them.
pub open spec fn printed_lines(e: EntryView) -> Seq<Seq<char>> {
    seq![
        listing_line("Path"@, e.path),
        listing_line("Folder"@, mark(e.is_dir)),
        listing_line("Size"@, decimal(e.size as nat)),
        listing_line("Packed Size"@, decimal(e.packed_size as nat)),
        listing_line("Modified"@, e.modified),
        listing_line("Encrypted"@, mark(e.encrypted)),
    ]
}

/// Whether an entry can be printed: its texts fit a line, and its numbers have 64 bits.
pub open spec fn printable(e: EntryView) -> bool {
    &&& fits_a_line(e.path)
    &&& !e.path.contains('\\')
    &&& fits_a_line(e.modified)
    &&& 0 <= e.size <= u64::MAX
    &&& 0 <= e.packed_size <= u64::MAX
}

/// What the program prints of an entry is read back as it is.
pub proof fn printed_entries_read_back(e: EntryView)
    requires
        printable(e),
    ensures
        block_entry(joined(printed_lines(e), seq!['\n'])) == e,
        fits_a_listing(joined(printed_lines(e), seq!['\n'])),
{
    let lines = printed_lines(e);
    let text = joined(lines, seq!['\n']);
    lemma_printed_fit(e);
    lemma_joined_ends(lines);
    assert forall|i: int| 0 <= i < lines.len() implies !(#[trigger] lines[i]).contains('\n') by {
        assert(fits_a_line(lines[i]));
    }
    crate::folder_archive::lemma_split_join(lines, '\n');
    crate::text::lemma_trim_fixed(text, crate::text::CharClass::White);
    assert(trimmed(text) == text);
    lemma_printed_entry(e);
}

/// The marks fit a line and are told apart.
proof fn lemma_marks()
    ensures
        fits_a_line("+"@),
        fits_a_line("-"@),
        "+"@ != "-"@,
{
    reveal_strlit("+");
    reveal_strlit("-");
    assert("+"@[0] == '+' && "-"@[0] == '-');
}

/// Each printed line is a line.
proof fn lemma_printed_fit(e: EntryView)
    requires
        printable(e),
    ensures
        forall|i: int|
            0 <= i < printed_lines(e).len() ==> fits_a_line(#[trigger] printed_lines(e)[i]),
        printed_lines(e).len() == 6,
{
    lemma_keys();
    lemma_marks();
    lemma_number(e.size as u64);
    lemma_number(e.packed_size as u64);
    lemma_line_is_one("Path"@, e.path);
    lemma_line_is_one("Folder"@, mark(e.is_dir));
    lemma_line_is_one("Size"@, decimal(e.size as nat));
    lemma_line_is_one("Packed Size"@, decimal(e.packed_size as nat));
    lemma_line_is_one("Modified"@, e.modified);
    lemma_line_is_one("Encrypted"@, mark(e.encrypted));
}

/// The printed lines tell the entry.
proof fn lemma_printed_entry(e: EntryView)
    requires
        printable(e),
    ensures
        entry_of(printed_lines(e)) == e,
{
    let all = printed_lines(e);
    let (l0, l1, l2, l3) = (all.take(0), all.take(1), all.take(2), all.take(3));
    let (l4, l5) = (all.take(4), all.take(5));
    lines_set_what_they_name(l0, e.path, 0);
    assert(l0.push(all[0]) =~= l1);
    lines_set_what_they_name(l1, e.path, 0);
    assert(l1.push(all[1]) =~= l2);
    lines_set_what_they_name(l2, e.path, e.size as u64);
    assert(l2.push(all[2]) =~= l3);
    lines_set_what_they_name(l3, e.path, e.packed_size as u64);
    assert(l3.push(all[3]) =~= l4);
    assert(entry_of(l4).packed_size == e.packed_size);
    lemma_modified(l4, e.modified);
    assert(l4.push(all[4]) =~= l5);
    lines_set_what_they_name(l5, e.path, 0);
    assert(l5.push(all[5]) =~= all);
}

/// A line of the time of a change.
proof fn lemma_modified(lines: Seq<Seq<char>>, value: Seq<char>)
    requires
        fits_a_line(value),
    ensures
        entry_of(lines.push(listing_line("Modified"@, value))) == (EntryView {
            modified: value,
            ..entry_of(lines)
        }),
{
    lemma_keys();
    lemma_plain_line(entry_of(lines), "Modified"@, value);
    assert(lines.push(listing_line("Modified"@, value)).drop_last() =~= lines);
}

/// A line has no line feed, and neither begins nor ends with white space.
proof fn lemma_line_is_one(key: Seq<char>, value: Seq<char>)
    requires
        fits_a_line(key),
        fits_a_line(value),
    ensures
        fits_a_line(listing_line(key, value)),
        !listing_line(key, value).contains('\n'),
{
    reveal_strlit(" = ");
    let line = listing_line(key, value);
    assert(line[0] == key[0]);
    assert(line.last() == value.last());
    assert forall|i: int| 0 <= i < line.len() implies #[trigger] line[i] != '\n' by {
        if i < key.len() {
            assert(line[i] == key[i]);
        } else if i >= key.len() + 3 {
            assert(line[i] == value[i - key.len() - 3]);
        }
    }
}

/// Lines put together begin and end as the first and the last of them do.
proof fn lemma_joined_ends(lines: Seq<Seq<char>>)
    requires
        lines.len() > 0,
        forall|i: int| 0 <= i < lines.len() ==> fits_a_line(#[trigger] lines[i]),
    ensures
        ({
            let text = joined(lines, seq!['\n']);
            &&& text.len() > 0
            &&& !white_space(text[0])
            &&& !white_space(text.last())
            &&& forall|i: int|
                0 <= i < text.len() - 1 ==> !(text[i] == '\n' && #[trigger] text[i + 1] == '\n')
        }),
    decreases lines.len(),
{
    let text = joined(lines, seq!['\n']);
    let last = lines.last();
    assert(fits_a_line(lines[lines.len() - 1]));
    if lines.len() == 1 {
        assert(text == lines[0]);
    } else {
        let d = lines.drop_last();
        assert forall|i: int| 0 <= i < d.len() implies fits_a_line(#[trigger] d[i]) by {
            assert(d[i] == lines[i]);
        }
        lemma_joined_ends(d);
        let front = joined(d, seq!['\n']);
        let n = front.len() as int;
        assert(text == front + seq!['\n'] + last);
        assert(text[0] == front[0]);
        assert(text.last() == last.last());
        assert forall|i: int| 0 <= i < text.len() - 1 implies !(text[i] == '\n' && #[trigger] text[i
            + 1] == '\n') by {
            if i + 1 < n {
                assert(text[i] == front[i] && text[i + 1] == front[i + 1]);
            } else if i + 1 == n {
                assert(text[i] == front.last());
            } else {
                assert(text[i + 1] == last[i + 1 - n - 1]);
            }
        }
    }
}

/// Whether a block can stand in a listing: it is not empty, and neither begins nor ends with
/// a line feed nor holds an empty line.
pub open spec fn fits_a_listing(block: Seq<char>) -> bool {
    &&& block.len() > 0
    &&& block[0] != '\n'
    &&& block.last() != '\n'
    &&& forall|i: int|
        0 <= i < block.len() - 1 ==> !(block[i] == '\n' && #[trigger] block[i + 1] == '\n')
}

/// A block in front of an empty line is the first block, and what is behind the line is read
/// as it would be alone.
pub proof fn listings_are_read_block_by_block(block: Seq<char>, rest: Seq<char>)
    requires
        fits_a_listing(block),
    ensures
        blocks(block) == seq![block],
        blocks(block + seq!['\n', '\n'] + rest) == seq![block] + blocks(rest),
{
    let n = block.len() as int;
    assert(block.take(n) =~= block);
    lemma_no_blank(block, block, n);
    let s = block + seq!['\n', '\n'] + rest;
    assert(s[n] == '\n' && s[n + 1] == '\n');
    assert(s.take(n) =~= block);
    lemma_no_blank(s, block, n);
    assert(s.skip(n + 2) =~= rest);
}

/// There is no empty line in front of a place.
proof fn lemma_no_blank(s: Seq<char>, block: Seq<char>, n: int)
    requires
        fits_a_listing(block),
        n == block.len(),
        n <= s.len(),
        s.take(n) == block,
        n < s.len() ==> n + 1 < s.len() && s[n] == '\n' && s[n + 1] == '\n',
    ensures
        blank_line(s) == n,
{
    assert forall|j: int| 0 <= j < n implies s[j] == block[j] by {
        assert(s.take(n)[j] == block[j]);
    }
    lemma_blank_place(s, n);
}

/// The place of the first empty line.
proof fn lemma_blank_place(s: Seq<char>, n: int)
    requires
        0 <= n <= s.len(),
        n < s.len() ==> n + 1 < s.len() && s[n] == '\n' && s[n + 1] == '\n',
        forall|j: int|
            0 <= j < n && j + 1 < s.len() ==> !(s[j] == '\n' && #[trigger] s[j + 1] == '\n'),
    ensures
        blank_line(s) == n,
    decreases n,
{
    if s.len() >= 2 && n > 0 {
        assert(!(s[0] == '\n' && s[0int + 1] == '\n'));
        let t = s.skip(1);
        assert forall|j: int| 0 <= j < n - 1 && j + 1 < t.len() implies !(t[j] == '\n'
            && #[trigger] t[j + 1] == '\n') by {
            assert(t[j] == s[j + 1] && t[j + 1] == s[j + 1 + 1]);
        }
        if n < s.len() {
            assert(t[n - 1] == s[n] && t[n] == s[n + 1]);
        }
        lemma_blank_place(t, n - 1);
    }
}

/// A text with a carriage return in front of every line feed.
pub open spec fn with_returns(s: Seq<char>) -> Seq<char>
    decreases s.len(),
{
    if s.len() == 0 {
        s
    } else if s[0] == '\n' {
        seq!['\r', '\n'] + with_returns(s.skip(1))
    } else {
        seq![s[0]] + with_returns(s.skip(1))
    }
}

/// Lines that end in a carriage return and a line feed are read as those that end in a line
/// feed.
pub proof fn line_ends_do_not_matter(s: Seq<char>)
    requires
        !s.contains('\r'),
    ensures
        unix_lines(with_returns(s)) == s,
        unix_lines(s) == s,
    decreases s.len(),
{
    if s.len() > 0 {
        let t = s.skip(1);
        assert(s[0] != '\r') by {
            assert(s.contains(s[0]));
        }
        assert(!t.contains('\r')) by {
            if t.contains('\r') {
                let i = t.index_of('\r');
                assert(s[i + 1] == '\r');
            }
        }
        line_ends_do_not_matter(t);
        let w = with_returns(s);
        if s[0] == '\n' {
            assert(w[0] == '\r' && w[1] == '\n');
            assert(w.skip(2) =~= with_returns(t));
        } else {
            assert(w[0] == s[0]);
            assert(w.skip(1) =~= with_returns(t));
        }
        assert(unix_lines(w) =~= s);
        assert(unix_lines(s) =~= s);
    } else {
        assert(with_returns(s) =~= s);
        assert(unix_lines(s) =~= s);
    }
}

/// An archive with an encrypted entry is told to be encrypted.
pub proof fn encrypted_entries_are_told(entries: Seq<EntryView>, i: int)
    requires
        0 <= i < entries.len(),
        entries[i].encrypted,
    ensures
        any_encrypted(entries),
{
}

}
