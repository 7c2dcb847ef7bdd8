//! 7-Zip archives: finding the program, reading its listings, and deciding
//! where extracted files go.

use vstd::prelude::*;
use crate::folder_archive::{join_path, path_joined};
use crate::names::{fresh_name, simple_id};
use crate::text::{
    chars_of, contains_text, decimal, ends_with, find_char, has_char, has_prefix, has_suffix,
    has_text, index_of, lower, parsed_within, push_decimal, read_unsigned, replace_char, replaced,
    same_text, split, split_chars, starts_with, sub_chars, text_of, texts, to_lower, trim_chars,
    trim_text, trimmed, CharClass,
};

verus! {

/// The platforms that the 7-Zip program is looked for on.
#[derive(Clone, Copy, PartialEq, Eq, Debug, Structural)]
pub enum Platform {
    /// A Unix-like system, with a program called `7zz`.
    Unix,
    /// Windows, with a program called `7z.exe`.
    Windows,
}

/// The name of the program beside the running executable.
pub open spec fn bundled_name(platform: Platform) -> Seq<char> {
    match platform {
        Platform::Unix => "7zz"@,
        Platform::Windows => "7z.exe"@,
    }
}

/// Where the program stands below a checkout or a package.
pub open spec fn package_places(platform: Platform) -> Seq<Seq<char>> {
    match platform {
        Platform::Unix => seq!["app/bin/7zz"@, "output/rust/7zz"@, "bin/7zz"@],
        Platform::Windows => seq![
            ".test-cache/tools/7zip-win/7z.exe"@,
            "app/bin/7z.exe"@,
            "output/rust/7zip-win/7z.exe"@,
        ],
    }
}

/// Where the program is installed, wherever the package stands.
pub open spec fn fixed_places(platform: Platform) -> Seq<Seq<char>> {
    match platform {
        Platform::Unix => Seq::empty(),
        Platform::Windows => seq![
            "C:\\Program Files\\7-Zip\\7z.exe"@,
            "C:\\Program Files (x86)\\7-Zip\\7z.exe"@,
        ],
    }
}

/// The names of the program in the folders of the search path.
pub open spec fn path_names(platform: Platform) -> Seq<Seq<char>> {
    match platform {
        Platform::Unix => seq!["7zz"@, "7z"@, "7za"@],
        Platform::Windows => seq!["7z.exe"@, "7z"@, "7za.exe"@, "7zz.exe"@],
    }
}

/// Every place below every base, base by base.
pub open spec fn crossed(bases: Seq<Seq<char>>, places: Seq<Seq<char>>) -> Seq<Seq<char>>
    decreases bases.len(),
{
    if bases.len() == 0 {
        Seq::empty()
    } else {
        crossed(bases.drop_last(), places) + places.map_values(
            |p: Seq<char>| path_joined(bases.last(), p),
        )
    }
}

/// An optional text as a list.
pub open spec fn optional(text: Option<Seq<char>>) -> Seq<Seq<char>> {
    match text {
        Some(t) => seq![t],
        None => Seq::empty(),
    }
}

/// Where the program is looked for, in order: the path that the environment
/// names, beside the running executable, below the working folders, in the
/// usual places, and in the search path.
pub open spec fn candidates(
    platform: Platform,
    named: Option<Seq<char>>,
    exe_dir: Option<Seq<char>>,
    bases: Seq<Seq<char>>,
    path_dirs: Seq<Seq<char>>,
) -> Seq<Seq<char>> {
    optional(named) + optional(
        match exe_dir {
            Some(d) => Some(path_joined(d, bundled_name(platform))),
            None => None,
        },
    ) + crossed(bases, package_places(platform)) + fixed_places(platform) + crossed(
        path_dirs,
        path_names(platform),
    )
}

/// Strings of literals.
fn owned(list: &[&str]) -> (r: Vec<String>)
    ensures
        r@.len() == list@.len(),
        forall|i: int| 0 <= i < r@.len() ==> (#[trigger] r@[i])@ == list@[i]@,
{
    let mut out: Vec<String> = Vec::new();
    let mut i: usize = 0;
    while i < list.len()
        invariant
            i <= list@.len(),
            out@.len() == i,
            forall|j: int| 0 <= j < i ==> (#[trigger] out@[j])@ == list@[j]@,
        decreases list@.len() - i,
    {
        out.push(list[i].to_owned());
        i += 1;
    }
    out
}

/// Appends every place below every base.
fn cross(out: &mut Vec<String>, bases: &[String], places: &[String])
    ensures
        texts(final(out)@) == texts(old(out)@) + crossed(texts(bases@), texts(places@)),
{
    let ghost start = texts(out@);
    let ghost all = texts(bases@);
    let ghost ps = texts(places@);
    let mut i: usize = 0;
    assert(all.take(0) =~= Seq::<Seq<char>>::empty());
    assert(texts(out@) =~= start + crossed(all.take(0), ps));
    while i < bases.len()
        invariant
            i <= bases@.len(),
            all == texts(bases@),
            ps == texts(places@),
            texts(out@) == start + crossed(all.take(i as int), ps),
        decreases bases@.len() - i,
    {
        let ghost base = bases@[i as int]@;
        let ghost before = texts(out@);
        let ghost f = |p: Seq<char>| path_joined(base, p);
        let mut k: usize = 0;
        assert(texts(out@) =~= before + ps.take(0).map_values(f));
        while k < places.len()
            invariant
                k <= places@.len(),
                i < bases@.len(),
                base == bases@[i as int]@,
                ps == texts(places@),
                f == (|p: Seq<char>| path_joined(base, p)),
                texts(out@) == before + ps.take(k as int).map_values(f),
            decreases places@.len() - k,
        {
            let ghost now = out@;
            let path = join_path(&bases[i], &places[k]);
            let ghost v = path@;
            out.push(path);
            assert(texts(out@) =~= texts(now).push(v));
            assert(ps[k as int] == places@[k as int]@);
            assert(ps.take(k as int + 1).map_values(f) =~= ps.take(k as int).map_values(f).push(v));
            assert(texts(out@) =~= before + ps.take(k as int + 1).map_values(f));
            k += 1;
        }
        proof {
            assert(ps.take(ps.len() as int) =~= ps);
            let now = all.take(i as int + 1);
            assert(now.drop_last() =~= all.take(i as int));
            assert(now.last() == base);
            assert(texts(out@) =~= start + crossed(now, ps));
        }
        i += 1;
    }
    assert(all.take(all.len() as int) =~= all);
}

/// Appends strings.
fn append_texts(out: &mut Vec<String>, more: Vec<String>)
    ensures
        texts(final(out)@) == texts(old(out)@) + texts(more@),
{
    let ghost before = out@;
    let mut rest = more;
    out.append(&mut rest);
    assert(texts(out@) =~= texts(before) + texts(more@));
}

/// Where the 7-Zip program is looked for, in order.
pub fn resolve_7z_binary_path(
    platform: Platform,
    named: Option<&str>,
    exe_dir: Option<&str>,
    bases: &[String],
    path_dirs: &[String],
) -> (r: Vec<String>)
    ensures
        texts(r@) == candidates(
            platform,
            match named {
                Some(s) => Some(s@),
                None => None,
            },
            match exe_dir {
                Some(s) => Some(s@),
                None => None,
            },
            texts(bases@),
            texts(path_dirs@),
        ),
{
    let mut out: Vec<String> = Vec::new();
    let (bundled, places, fixed, names) = match platform {
        Platform::Unix => (
            "7zz",
            owned(&["app/bin/7zz", "output/rust/7zz", "bin/7zz"]),
            owned(&[]),
            owned(&["7zz", "7z", "7za"]),
        ),
        Platform::Windows => (
            "7z.exe",
            owned(
                &[
                    ".test-cache/tools/7zip-win/7z.exe",
                    "app/bin/7z.exe",
                    "output/rust/7zip-win/7z.exe",
                ],
            ),
            owned(
                &[
                    "C:\\Program Files\\7-Zip\\7z.exe",
                    "C:\\Program Files (x86)\\7-Zip\\7z.exe",
                ],
            ),
            owned(&["7z.exe", "7z", "7za.exe", "7zz.exe"]),
        ),
    };
    assert(texts(places@) =~= package_places(platform));
    assert(texts(fixed@) =~= fixed_places(platform));
    assert(texts(names@) =~= path_names(platform));
    assert(texts(out@) =~= Seq::<Seq<char>>::empty());
    match named {
        Some(s) => {
            out.push(s.to_owned());
            assert(texts(out@) =~= seq![s@]);
        },
        None => {},
    }
    let ghost first = texts(out@);
    match exe_dir {
        Some(d) => {
            let path = join_path(d, bundled);
            let ghost v = path@;
            out.push(path);
            assert(texts(out@) =~= first + seq![v]);
        },
        None => {
            assert(texts(out@) =~= first + Seq::<Seq<char>>::empty());
        },
    }
    cross(&mut out, bases, &places);
    append_texts(&mut out, fixed);
    cross(&mut out, path_dirs, &names);
    out
}

/// The first candidate that is a file.
pub open spec fn first_file(paths: Seq<Seq<char>>, is_file: Seq<bool>) -> Option<Seq<char>>
    decreases paths.len(),
{
    if paths.len() == 0 || is_file.len() == 0 {
        None
    } else if is_file[0] {
        Some(paths[0])
    } else {
        first_file(paths.skip(1), is_file.skip(1))
    }
}

/// The 7-Zip program among candidates: the first that is a file.
fn first_program(paths: &[String], is_file: &[bool]) -> (r: Option<String>)
    requires
        paths@.len() == is_file@.len(),
    ensures
        match r {
            Some(p) => first_file(texts(paths@), is_file@) == Some(p@),
            None => first_file(texts(paths@), is_file@) is None,
        },
{
    let ghost all = texts(paths@);
    let mut i: usize = 0;
    assert(all.skip(0) =~= all);
    assert(is_file@.skip(0) =~= is_file@);
    while i < paths.len()
        invariant
            i <= paths@.len(),
            paths@.len() == is_file@.len(),
            all == texts(paths@),
            first_file(all.skip(i as int), is_file@.skip(i as int)) == first_file(all, is_file@),
        decreases paths@.len() - i,
    {
        assert(all.skip(i as int)[0] == paths@[i as int]@);
        if is_file[i] {
            return Some(paths[i].clone());
        }
        assert(all.skip(i as int).skip(1) =~= all.skip(i as int + 1));
        assert(is_file@.skip(i as int).skip(1) =~= is_file@.skip(i as int + 1));
        i += 1;
    }
    None
}

/// What a process knows of the 7-Zip program.
#[derive(Debug)]
pub enum KnownProgram {
    /// Nothing: it was not looked for yet.
    Unknown,
    /// That it is not there.
    Missing,
    /// Where it is.
    At(String),
}

/// The value of a [`KnownProgram`].
pub enum KnownView {
    /// Nothing.
    Unknown,
    /// That it is not there.
    Missing,
    /// Where it is.
    At(Seq<char>),
}

impl View for KnownProgram {
    type V = KnownView;

    open spec fn view(&self) -> KnownView {
        match self {
            KnownProgram::Unknown => KnownView::Unknown,
            KnownProgram::Missing => KnownView::Missing,
            KnownProgram::At(p) => KnownView::At(p@),
        }
    }
}

/// What a process knows behind a search: what the first search found, whatever later
/// ones would find.
pub open spec fn known_after(
    known: KnownView,
    paths: Seq<Seq<char>>,
    is_file: Seq<bool>,
) -> KnownView {
    match known {
        KnownView::Unknown => match first_file(paths, is_file) {
            Some(p) => KnownView::At(p),
            None => KnownView::Missing,
        },
        found => found,
    }
}

/// The 7-Zip program: the first candidate that is a file. What the first search of the
/// process finds is kept.
pub fn find_7z_binary(known: &mut KnownProgram, paths: &[String], is_file: &[bool]) -> (r: Result<
    String,
    String,
>)
    requires
        paths@.len() == is_file@.len(),
    ensures
        final(known)@ == known_after(old(known)@, texts(paths@), is_file@),
        match r {
            Ok(p) => final(known)@ == KnownView::At(p@),
            Err(e) => final(known)@ == KnownView::Missing && e@
                == "7-Zip executable (7zz / 7z) not found"@,
        },
{
    if let KnownProgram::Unknown = known {
        *known = match first_program(paths, is_file) {
            Some(p) => KnownProgram::At(p),
            None => KnownProgram::Missing,
        };
    }
    match known {
        KnownProgram::At(p) => Ok(p.clone()),
        _ => Err("7-Zip executable (7zz / 7z) not found".to_owned()),
    }
}

/// Every search of a process has the answer of the first one, whatever happens to the
/// candidates in the meantime.
pub proof fn later_searches_agree(
    known: KnownView,
    paths: Seq<Seq<char>>,
    is_file: Seq<bool>,
    later_paths: Seq<Seq<char>>,
    later_is_file: Seq<bool>,
)
    ensures
        known_after(known_after(known, paths, is_file), later_paths, later_is_file)
            == known_after(known, paths, is_file),
        !(known_after(known, paths, is_file) is Unknown),
{
}

/// The program that a first search finds is one of the candidates, and was a file; it is
/// found wherever one of them is.
pub proof fn found_programs_are_files(paths: Seq<Seq<char>>, is_file: Seq<bool>)
    requires
        paths.len() == is_file.len(),
    ensures
        known_after(KnownView::Unknown, paths, is_file) is At <==> is_file.contains(true),
        known_after(KnownView::Unknown, paths, is_file) matches KnownView::At(p) ==> exists|i: int|
            0 <= i < paths.len() && is_file[i] && #[trigger] paths[i] == p,
    decreases paths.len(),
{
    if paths.len() > 0 {
        let (rest, others) = (paths.skip(1), is_file.skip(1));
        found_programs_are_files(rest, others);
        if is_file[0] {
            assert(paths[0] == first_file(paths, is_file)->Some_0);
        } else {
            if others.contains(true) {
                let k = others.index_of(true);
                assert(is_file[k + 1]);
                let i = choose|i: int|
                    0 <= i < rest.len() && others[i] && #[trigger] rest[i] == first_file(
                        rest,
                        others,
                    )->Some_0;
                assert(paths[i + 1] == rest[i] && is_file[i + 1]);
            } else if is_file.contains(true) {
                let k = is_file.index_of(true);
                assert(others[k - 1]);
            }
        }
    }
}

/// What is in an archive.
#[derive(Debug)]
pub struct ArchiveInspectResponse {
    /// The archive's file name.
    pub archive_name: String,
    /// The archive's size.
    pub archive_size: u64,
    /// Whether anything in it is encrypted.
    pub is_encrypted: bool,
    /// Whether even its listing is encrypted.
    pub header_encrypted: bool,
    /// The counts of its files.
    pub stats: ArchiveStats,
    /// Its entries.
    pub entries: Vec<ArchiveEntryItem>,
}

/// The counts of the files in an archive.
#[derive(Clone, Copy, PartialEq, Eq, Debug, Structural)]
pub struct ArchiveStats {
    /// All files.
    pub total_files: usize,
    /// The images.
    pub images: usize,
    /// The videos.
    pub videos: usize,
    /// The sources of artwork.
    pub sources: usize,
    /// The texts.
    pub texts: usize,
    /// Everything else.
    pub others: usize,
    /// The size of all files.
    pub total_uncompressed_bytes: u64,
}

/// An entry of an archive.
#[derive(Debug)]
pub struct ArchiveEntryItem {
    /// Its path, with forward slashes.
    pub path: String,
    /// Whether it is a folder.
    pub is_dir: bool,
    /// Its size.
    pub size: u64,
    /// Its packed size.
    pub packed_size: u64,
    /// When it was changed.
    pub modified: String,
    /// Whether it is encrypted.
    pub encrypted: bool,
    /// What kind of file it is.
    pub media_type: Option<String>,
}

/// The value of an entry, without its kind.
pub struct EntryView {
    /// Its path.
    pub path: Seq<char>,
    /// Whether it is a folder.
    pub is_dir: bool,
    /// Its size.
    pub size: int,
    /// Its packed size.
    pub packed_size: int,
    /// When it was changed.
    pub modified: Seq<char>,
    /// Whether it is encrypted.
    pub encrypted: bool,
}

impl View for ArchiveEntryItem {
    type V = EntryView;

    open spec fn view(&self) -> EntryView {
        EntryView {
            path: self.path@,
            is_dir: self.is_dir,
            size: self.size as int,
            packed_size: self.packed_size as int,
            modified: self.modified@,
            encrypted: self.encrypted,
        }
    }
}

/// A text with every carriage return in front of a line feed taken out.
pub open spec fn unix_lines(s: Seq<char>) -> Seq<char>
    decreases s.len(),
{
    if s.len() == 0 {
        s
    } else if s.len() >= 2 && s[0] == '\r' && s[1] == '\n' {
        seq!['\n'] + unix_lines(s.skip(2))
    } else {
        seq![s[0]] + unix_lines(s.skip(1))
    }
}

/// A text with every carriage return in front of a line feed taken out.
fn to_unix_lines(s: &[char]) -> (r: Vec<char>)
    ensures
        r@ == unix_lines(s@),
{
    let mut out: Vec<char> = Vec::new();
    let mut i: usize = 0;
    assert(s@.skip(0) =~= s@);
    assert(out@ + unix_lines(s@.skip(0)) =~= unix_lines(s@));
    while i < s.len()
        invariant
            i <= s@.len(),
            out@ + unix_lines(s@.skip(i as int)) == unix_lines(s@),
        decreases s@.len() - i,
    {
        let ghost rest = s@.skip(i as int);
        let ghost before = out@;
        if s.len() - i >= 2 && s[i] == '\r' && s[i + 1] == '\n' {
            out.push('\n');
            assert(rest.skip(2) =~= s@.skip(i as int + 2));
            assert(out@ + unix_lines(s@.skip(i as int + 2)) =~= before + unix_lines(rest));
            i += 2;
        } else {
            out.push(s[i]);
            assert(rest.skip(1) =~= s@.skip(i as int + 1));
            assert(out@ + unix_lines(s@.skip(i as int + 1)) =~= before + unix_lines(rest));
            i += 1;
        }
    }
    assert(s@.skip(i as int) =~= Seq::<char>::empty());
    assert(out@ =~= unix_lines(s@));
    out
}

/// The position of the first empty line: of two line feeds in a row. The length
/// where there is none.
pub open spec fn blank_line(s: Seq<char>) -> int
    decreases s.len(),
{
    if s.len() < 2 {
        s.len() as int
    } else if s[0] == '\n' && s[1] == '\n' {
        0
    } else {
        1 + blank_line(s.skip(1))
    }
}

/// The blocks of a text between empty lines.
pub open spec fn blocks(s: Seq<char>) -> Seq<Seq<char>>
    decreases s.len(),
{
    let k = blank_line(s);
    if 0 <= k && k + 2 <= s.len() {
        seq![s.take(k)] + blocks(s.skip(k + 2))
    } else {
        seq![s]
    }
}

/// Whether two line feeds stand at a position.
pub open spec fn blank_at(s: Seq<char>, i: int) -> bool {
    i + 1 < s.len() && s[i] == '\n' && s[i + 1] == '\n'
}

/// Where the first empty line is.
proof fn lemma_blank_line(s: Seq<char>, n: int)
    requires
        0 <= n <= s.len(),
        forall|j: int| 0 <= j < n ==> !#[trigger] blank_at(s, j),
        n < s.len() ==> blank_at(s, n),
    ensures
        blank_line(s) == n,
    decreases n,
{
    if s.len() >= 2 && n > 0 {
        assert(!blank_at(s, 0));
        let t = s.skip(1);
        assert forall|j: int| 0 <= j < n - 1 implies !#[trigger] blank_at(t, j) by {
            assert(!blank_at(s, j + 1));
        }
        if n < s.len() {
            assert(blank_at(t, n - 1));
        }
        lemma_blank_line(t, n - 1);
    }
}

/// The blocks of a text between empty lines.
fn split_blocks(s: &[char]) -> (r: Vec<String>)
    ensures
        texts(r@) == blocks(s@),
{
    let mut out: Vec<String> = Vec::new();
    let mut start: usize = 0;
    assert(s@.skip(0) =~= s@);
    assert(texts(out@) + blocks(s@.skip(0)) =~= blocks(s@));
    loop
        invariant_except_break
            start <= s@.len(),
            texts(out@) + blocks(s@.skip(start as int)) == blocks(s@),
        ensures
            texts(out@) == blocks(s@),
        decreases s@.len() - start,
    {
        let ghost rest = s@.skip(start as int);
        let ghost before = out@;
        let mut i: usize = start;
        while i < s.len() && !(s.len() - i >= 2 && s[i] == '\n' && s[i + 1] == '\n')
            invariant
                start <= i <= s@.len(),
                forall|j: int| start <= j < i ==> !#[trigger] blank_at(s@, j),
            decreases s@.len() - i,
        {
            i += 1;
        }
        proof {
            assert forall|j: int| 0 <= j < i - start implies !#[trigger] blank_at(rest, j) by {
                assert(!blank_at(s@, j + start));
            }
            if i < s@.len() {
                assert(blank_at(rest, i - start));
            }
            lemma_blank_line(rest, i - start);
        }
        let piece = text_of(&sub_chars(s, start, i));
        let ghost v = piece@;
        out.push(piece);
        assert(texts(out@) =~= texts(before).push(v));
        if i < s.len() {
            assert(v =~= rest.take(i - start));
            assert(rest.skip(i - start + 2) =~= s@.skip(i as int + 2));
            assert(texts(out@) + blocks(s@.skip(i as int + 2)) =~= texts(before) + blocks(rest));
            start = i + 2;
        } else {
            assert(v =~= rest);
            assert(texts(out@) =~= texts(before) + blocks(rest));
            break;
        }
    }
    out
}

/// An entry without any fields.
pub open spec fn blank_entry() -> EntryView {
    EntryView {
        path: Seq::empty(),
        is_dir: false,
        size: 0,
        packed_size: 0,
        modified: Seq::empty(),
        encrypted: false,
    }
}

/// A number in a listing; zero where it is none.
pub open spec fn listed_number(s: Seq<char>) -> int {
    match parsed_within(s, false, 0, u64::MAX as int) {
        Some(n) => n,
        None => 0,
    }
}

/// An entry with a field of the listing set.
pub open spec fn with_field(e: EntryView, key: Seq<char>, value: Seq<char>) -> EntryView {
    if key == "Path"@ {
        EntryView { path: replaced(value, '\\', '/'), ..e }
    } else if key == "Folder"@ {
        EntryView { is_dir: value == "+"@, ..e }
    } else if key == "Size"@ {
        EntryView { size: listed_number(value), ..e }
    } else if key == "Packed Size"@ {
        EntryView { packed_size: listed_number(value), ..e }
    } else if key == "Modified"@ {
        EntryView { modified: value, ..e }
    } else if key == "Encrypted"@ {
        EntryView { encrypted: value == "+"@, ..e }
    } else if key == "Attributes"@ && value.len() > 0 && value[0] == 'D' {
        EntryView { is_dir: true, ..e }
    } else {
        e
    }
}

/// An entry with a line of the listing taken in: a key, an equals sign and a
/// value; any other line counts for nothing.
pub open spec fn with_line(e: EntryView, line: Seq<char>) -> EntryView {
    let t = trimmed(line);
    let k = index_of(t, '=');
    if 0 <= k < t.len() {
        with_field(e, trimmed(t.take(k)), trimmed(t.skip(k + 1)))
    } else {
        e
    }
}

/// The entry that the lines of a block make.
pub open spec fn entry_of(lines: Seq<Seq<char>>) -> EntryView
    decreases lines.len(),
{
    if lines.len() == 0 {
        blank_entry()
    } else {
        with_line(entry_of(lines.drop_last()), lines.last())
    }
}

/// Whether a path is litter of a desktop system.
pub open spec fn litter(path: Seq<char>) -> bool {
    ||| starts_with(path, "__MACOSX/"@)
    ||| path == "__MACOSX"@
    ||| ends_with(path, ".DS_Store"@)
    ||| ends_with(path, "Thumbs.db"@)
    ||| ends_with(path, "desktop.ini"@)
}

/// Whether an entry is shown: it has a path, is not the archive itself and no
/// litter.
pub open spec fn shown(e: EntryView, archive_name: Seq<char>, archive_size: int) -> bool {
    &&& e.path.len() > 0
    &&& !(ends_with(lower(e.path), lower(archive_name)) && e.size == archive_size)
    &&& !litter(e.path)
}

/// An entry as it is shown: a path that ends in a slash is a folder.
pub open spec fn as_shown(e: EntryView) -> EntryView {
    EntryView { is_dir: e.is_dir || (e.path.len() > 0 && e.path.last() == '/'), ..e }
}

/// The entry of a block.
pub open spec fn block_entry(block: Seq<char>) -> EntryView {
    entry_of(split(trimmed(block), '\n'))
}

/// The entries of a listing that are shown.
pub open spec fn shown_entries(
    parts: Seq<Seq<char>>,
    archive_name: Seq<char>,
    archive_size: int,
) -> Seq<EntryView>
    decreases parts.len(),
{
    if parts.len() == 0 {
        Seq::empty()
    } else {
        let before = shown_entries(parts.drop_last(), archive_name, archive_size);
        let e = block_entry(parts.last());
        if shown(e, archive_name, archive_size) {
            before.push(as_shown(e))
        } else {
            before
        }
    }
}

/// The entries of a listing.
pub open spec fn listed(stdout: Seq<char>, archive_name: Seq<char>, archive_size: int) -> Seq<
    EntryView,
> {
    shown_entries(blocks(unix_lines(stdout)), archive_name, archive_size)
}

/// Sets a field of an entry.
fn set_field(e: &mut ArchiveEntryItem, key: &str, value: &[char])
    ensures
        final(e)@ == with_field(old(e)@, key@, value@),
        final(e).media_type == old(e).media_type,
{
    let text = text_of(value);
    if same_text(key, "Path") {
        e.path = text_of(&replace_char(value, '\\', '/'));
    } else if same_text(key, "Folder") {
        e.is_dir = same_text(&text, "+");
    } else if same_text(key, "Size") {
        e.size = match read_unsigned(value, u64::MAX) {
            Some(n) => n,
            None => 0,
        };
    } else if same_text(key, "Packed Size") {
        e.packed_size = match read_unsigned(value, u64::MAX) {
            Some(n) => n,
            None => 0,
        };
    } else if same_text(key, "Modified") {
        e.modified = text;
    } else if same_text(key, "Encrypted") {
        e.encrypted = same_text(&text, "+");
    } else if same_text(key, "Attributes") {
        if value.len() > 0 && value[0] == 'D' {
            e.is_dir = true;
        }
    }
}

/// The entry of a block.
fn read_block(block: &str) -> (r: ArchiveEntryItem)
    ensures
        r@ == block_entry(block@),
        r.media_type is None,
{
    let lines = split_chars(&trim_text(block), '\n');
    let ghost all = texts(lines@);
    let mut e = ArchiveEntryItem {
        path: String::new(),
        is_dir: false,
        size: 0,
        packed_size: 0,
        modified: String::new(),
        encrypted: false,
        media_type: None,
    };
    let mut i: usize = 0;
    assert(all.take(0) =~= Seq::<Seq<char>>::empty());
    assert(e@ == blank_entry());
    while i < lines.len()
        invariant
            i <= lines@.len(),
            all == texts(lines@),
            e@ == entry_of(all.take(i as int)),
            e.media_type is None,
        decreases lines@.len() - i,
    {
        let ghost now = all.take(i as int + 1);
        assert(now.drop_last() =~= all.take(i as int));
        assert(now.last() == lines@[i as int]@);
        let t = trim_text(&lines[i]);
        let k = find_char(&t, 0, '=');
        assert(t@.skip(0) =~= t@);
        if k < t.len() {
            let key = trim_chars(&sub_chars(&t, 0, k), CharClass::White);
            let value = trim_chars(&sub_chars(&t, k + 1, t.len()), CharClass::White);
            set_field(&mut e, &text_of(&key), &value);
        }
        i += 1;
    }
    assert(all.take(all.len() as int) =~= all);
    e
}

/// Whether a path is litter of a desktop system.
fn is_litter(path: &str) -> (r: bool)
    ensures
        r == litter(path@),
{
    let p = chars_of(path);
    has_prefix(&p, &chars_of("__MACOSX/")) || same_text(path, "__MACOSX") || has_suffix(
        &p,
        &chars_of(".DS_Store"),
    ) || has_suffix(&p, &chars_of("Thumbs.db")) || has_suffix(&p, &chars_of("desktop.ini"))
}

/// The values of entries.
pub open spec fn entry_views(entries: Seq<ArchiveEntryItem>) -> Seq<EntryView> {
    entries.map_values(|e: ArchiveEntryItem| e@)
}

/// Reads the entries of a listing; what kind of file they are is left open.
pub fn list_entries(stdout: &str, archive_name: &str, archive_size: u64) -> (r: Vec<
    ArchiveEntryItem,
>)
    ensures
        entry_views(r@) == listed(stdout@, archive_name@, archive_size as int),
{
    let parts = split_blocks(&to_unix_lines(&chars_of(stdout)));
    let ghost all = texts(parts@);
    let archive = to_lower(&chars_of(archive_name));
    let mut out: Vec<ArchiveEntryItem> = Vec::new();
    let mut i: usize = 0;
    assert(entry_views(out@) =~= Seq::<EntryView>::empty());
    while i < parts.len()
        invariant
            i <= parts@.len(),
            all == texts(parts@),
            archive@ == lower(archive_name@),
            entry_views(out@) == shown_entries(
                all.take(i as int),
                archive_name@,
                archive_size as int,
            ),
        decreases parts@.len() - i,
    {
        let ghost now = all.take(i as int + 1);
        assert(now.drop_last() =~= all.take(i as int));
        assert(now.last() == parts@[i as int]@);
        let mut e = read_block(&parts[i]);
        let path = chars_of(&e.path);
        let itself = has_suffix(&to_lower(&path), &archive) && e.size == archive_size;
        if path.len() > 0 && !itself && !is_litter(&e.path) {
            if path[path.len() - 1] == '/' {
                e.is_dir = true;
            }
            let ghost before = out@;
            let ghost v = e@;
            out.push(e);
            assert(entry_views(out@) =~= entry_views(before).push(v));
        }
        i += 1;
    }
    assert(all.take(all.len() as int) =~= all);
    out
}

/// Whether the output of the program speaks of a password.
pub open spec fn password_error(stderr: Seq<char>) -> bool {
    ||| contains_text(stderr, "Wrong password"@)
    ||| contains_text(stderr, "Cannot open encrypted archive"@)
    ||| contains_text(stderr, "Enter password"@)
}

/// Whether the output of the program speaks of a password.
pub fn is_password_error(stderr: &str) -> (r: bool)
    ensures
        r == password_error(stderr@),
{
    let s = chars_of(stderr);
    has_text(&s, &chars_of("Wrong password")) || has_text(
        &s,
        &chars_of("Cannot open encrypted archive"),
    ) || has_text(&s, &chars_of("Enter password"))
}

/// No files at all.
pub open spec fn no_files() -> ArchiveStats {
    ArchiveStats {
        total_files: 0,
        images: 0,
        videos: 0,
        sources: 0,
        texts: 0,
        others: 0,
        total_uncompressed_bytes: 0,
    }
}

/// The sizes of the files of a list.
pub open spec fn file_bytes(entries: Seq<EntryView>) -> int
    decreases entries.len(),
{
    if entries.len() == 0 {
        0
    } else {
        file_bytes(entries.drop_last()) + if entries.last().is_dir {
            0
        } else {
            entries.last().size
        }
    }
}

/// How many files of a list are of a kind.
pub open spec fn files_of_kind(
    entries: Seq<EntryView>,
    kinds: Seq<Option<Seq<char>>>,
    kind: Option<Seq<char>>,
) -> int
    decreases entries.len(),
{
    if entries.len() == 0 {
        0
    } else {
        let n = entries.len() - 1;
        files_of_kind(entries.drop_last(), kinds, kind) + if !entries[n].is_dir && kinds[n] == kind {
            1int
        } else {
            0int
        }
    }
}

/// How many entries of a list are files.
pub open spec fn file_count(entries: Seq<EntryView>) -> int
    decreases entries.len(),
{
    if entries.len() == 0 {
        0
    } else {
        file_count(entries.drop_last()) + if entries.last().is_dir {
            0int
        } else {
            1int
        }
    }
}

/// The kinds of files, as texts.
pub open spec fn kind_views(kinds: Seq<Option<String>>) -> Seq<Option<Seq<char>>> {
    kinds.map_values(
        |k: Option<String>|
            match k {
                Some(s) => Some(s@),
                None => None,
            },
    )
}

/// Whether counts are those of a list of entries and their kinds.
pub open spec fn counted(
    stats: ArchiveStats,
    entries: Seq<EntryView>,
    kinds: Seq<Option<Seq<char>>>,
) -> bool {
    let images = files_of_kind(entries, kinds, Some("image"@));
    let videos = files_of_kind(entries, kinds, Some("video"@));
    let sources = files_of_kind(entries, kinds, Some("source"@));
    let texts = files_of_kind(entries, kinds, Some("text"@));
    &&& stats.total_files == file_count(entries)
    &&& stats.images == images
    &&& stats.videos == videos
    &&& stats.sources == sources
    &&& stats.texts == texts
    &&& stats.others == file_count(entries) - images - videos - sources - texts
    &&& stats.total_uncompressed_bytes == file_bytes(entries)
}

/// The sizes of the first entries never exceed the sizes of all.
proof fn lemma_file_bytes(entries: Seq<EntryView>, n: int)
    requires
        0 <= n <= entries.len(),
        forall|i: int| 0 <= i < entries.len() ==> (#[trigger] entries[i]).size >= 0,
    ensures
        0 <= file_bytes(entries.take(n)) <= file_bytes(entries),
    decreases entries.len(), n,
{
    if n == entries.len() {
        assert(entries.take(n) =~= entries);
        if n > 0 {
            let d = entries.drop_last();
            assert forall|i: int| 0 <= i < d.len() implies (#[trigger] d[i]).size >= 0 by {
                assert(d[i] == entries[i]);
            }
            lemma_file_bytes(d, n - 1);
            assert(d.take(n - 1) =~= d);
            assert(entries[n - 1].size >= 0);
        }
    } else {
        let d = entries.drop_last();
        assert forall|i: int| 0 <= i < d.len() implies (#[trigger] d[i]).size >= 0 by {
            assert(d[i] == entries[i]);
        }
        lemma_file_bytes(d, n);
        assert(d.take(n) =~= entries.take(n));
        assert(entries[entries.len() - 1].size >= 0);
    }
}

/// Whether an optional text is a given one.
fn is_kind(kind: &Option<String>, name: &str) -> (r: bool)
    ensures
        r == (match kind {
            Some(s) => s@ == name@,
            None => false,
        }),
{
    match kind {
        Some(s) => same_text(s, name),
        None => false,
    }
}

/// Counts the files of a list by their kinds.
fn count_files(entries: &[ArchiveEntryItem], kinds: &[Option<String>]) -> (r: ArchiveStats)
    requires
        entries@.len() == kinds@.len(),
        file_bytes(entry_views(entries@)) <= u64::MAX,
    ensures
        counted(r, entry_views(entries@), kind_views(kinds@)),
{
    let ghost all = entry_views(entries@);
    let ghost ks = kind_views(kinds@);
    let mut s = ArchiveStats {
        total_files: 0,
        images: 0,
        videos: 0,
        sources: 0,
        texts: 0,
        others: 0,
        total_uncompressed_bytes: 0,
    };
    let mut i: usize = 0;
    assert(all.take(0) =~= Seq::<EntryView>::empty());
    while i < entries.len()
        invariant
            i <= entries@.len(),
            entries@.len() == kinds@.len(),
            all == entry_views(entries@),
            ks == kind_views(kinds@),
            file_bytes(all) <= u64::MAX,
            counted(s, all.take(i as int), ks),
            s.total_files <= i,
            s.images + s.videos + s.sources + s.texts + s.others == s.total_files,
        decreases entries@.len() - i,
    {
        let ghost now = all.take(i as int + 1);
        proof {
            assert(now.drop_last() =~= all.take(i as int));
            assert(now[i as int] == entries@[i as int]@);
            assert(ks[i as int] == (match kinds@[i as int] {
                Some(t) => Some(t@),
                None => None::<Seq<char>>,
            }));
            assert forall|k: int| 0 <= k < all.len() implies (#[trigger] all[k]).size >= 0 by {
                assert(all[k] == entries@[k]@);
            }
            lemma_file_bytes(all, i as int + 1);
            reveal_strlit("image");
            reveal_strlit("video");
            reveal_strlit("source");
            reveal_strlit("text");
            assert("image"@[0] == 'i' && "video"@[0] == 'v' && "source"@[0] == 's' && "text"@[0]
                == 't');
        }
        if !entries[i].is_dir {
            s.total_files = s.total_files + 1;
            s.total_uncompressed_bytes = s.total_uncompressed_bytes + entries[i].size;
            if is_kind(&kinds[i], "image") {
                s.images = s.images + 1;
            } else if is_kind(&kinds[i], "video") {
                s.videos = s.videos + 1;
            } else if is_kind(&kinds[i], "source") {
                s.sources = s.sources + 1;
            } else if is_kind(&kinds[i], "text") {
                s.texts = s.texts + 1;
            } else {
                s.others = s.others + 1;
            }
        }
        i += 1;
    }
    assert(all.take(all.len() as int) =~= all);
    s
}

/// Whether any entry is encrypted.
pub open spec fn any_encrypted(entries: Seq<EntryView>) -> bool {
    exists|i: int| 0 <= i < entries.len() && (#[trigger] entries[i]).encrypted
}

/// Whether an answer tells of the entries of a listing with their kinds.
pub open spec fn tells_of(
    r: ArchiveInspectResponse,
    entries: Seq<EntryView>,
    kinds: Seq<Option<Seq<char>>>,
) -> bool {
    &&& entry_views(r.entries@) == entries
    &&& counted(r.stats, entries, kinds)
    &&& forall|i: int|
        0 <= i < r.entries@.len() ==> (match (#[trigger] r.entries@[i]).media_type {
            Some(s) => !entries[i].is_dir && kinds[i] == Some(s@),
            None => entries[i].is_dir || kinds[i] is None,
        })
}

/// Tells what is in an archive, from what the program printed. `kinds` holds
/// for each entry of [`list_entries`] what kind of file it is. A program that
/// failed over a password tells of an encrypted listing; any other failure is
/// an error.
pub fn inspect_archive(
    success: bool,
    stdout: &str,
    stderr: &str,
    archive_name: &str,
    archive_size: u64,
    kinds: &[Option<String>],
) -> (r: Result<ArchiveInspectResponse, String>)
    requires
        success ==> kinds@.len() == listed(stdout@, archive_name@, archive_size as int).len(),
        success ==> file_bytes(listed(stdout@, archive_name@, archive_size as int)) <= u64::MAX,
    ensures
        match r {
            Err(e) => !success && !password_error(stderr@) && e@ == "7-Zip inspection failed: "@
                + stderr@,
            Ok(a) => {
                &&& success || password_error(stderr@)
                &&& a.archive_name@ == archive_name@
                &&& a.archive_size == archive_size
                &&& a.header_encrypted == !success
                &&& if success {
                    let entries = listed(stdout@, archive_name@, archive_size as int);
                    &&& tells_of(a, entries, kind_views(kinds@))
                    &&& a.is_encrypted == (any_encrypted(entries) || password_error(stderr@))
                } else {
                    a.is_encrypted && a.stats == no_files() && a.entries@.len() == 0
                }
            },
        },
{
    let asks = is_password_error(stderr);
    if !success {
        if asks {
            let none: Vec<ArchiveEntryItem> = Vec::new();
            return Ok(
                ArchiveInspectResponse {
                    archive_name: archive_name.to_owned(),
                    archive_size,
                    is_encrypted: true,
                    header_encrypted: true,
                    stats: ArchiveStats {
                        total_files: 0,
                        images: 0,
                        videos: 0,
                        sources: 0,
                        texts: 0,
                        others: 0,
                        total_uncompressed_bytes: 0,
                    },
                    entries: none,
                },
            );
        }
        let mut message = "7-Zip inspection failed: ".to_owned();
        message.append(stderr);
        return Err(message);
    }
    let listing = list_entries(stdout, archive_name, archive_size);
    let ghost views = entry_views(listing@);
    assert(views.len() == listing@.len());
    let stats = count_files(&listing, kinds);
    let mut encrypted: bool = false;
    let mut entries: Vec<ArchiveEntryItem> = Vec::new();
    let mut i: usize = 0;
    while i < listing.len()
        invariant
            i <= listing@.len(),
            listing@.len() == kinds@.len(),
            views == entry_views(listing@),
            entries@.len() == i,
            forall|j: int|
                0 <= j < i ==> (#[trigger] entries@[j])@ == views[j] && (match entries@[j].media_type {
                    Some(s) => !views[j].is_dir && kind_views(kinds@)[j] == Some(s@),
                    None => views[j].is_dir || kind_views(kinds@)[j] is None,
                }),
            encrypted == exists|j: int| 0 <= j < i && (#[trigger] views[j]).encrypted,
        decreases listing@.len() - i,
    {
        assert(views[i as int] == listing@[i as int]@);
        let media_type = if listing[i].is_dir {
            None
        } else {
            match &kinds[i] {
                Some(s) => Some(s.clone()),
                None => None,
            }
        };
        let was = encrypted;
        if listing[i].encrypted {
            encrypted = true;
            assert(views[i as int].encrypted);
        } else if was {
            assert(exists|j: int| 0 <= j < i && (#[trigger] views[j]).encrypted);
        }
        entries.push(
            ArchiveEntryItem {
                path: listing[i].path.clone(),
                is_dir: listing[i].is_dir,
                size: listing[i].size,
                packed_size: listing[i].packed_size,
                modified: listing[i].modified.clone(),
                encrypted: listing[i].encrypted,
                media_type,
            },
        );
        i += 1;
    }
    assert(entry_views(entries@) =~= views);
    Ok(
        ArchiveInspectResponse {
            archive_name: archive_name.to_owned(),
            archive_size,
            is_encrypted: encrypted || asks,
            header_encrypted: false,
            stats,
            entries,
        },
    )
}


/// The password option of the program: bare where there is no password, so that
/// the program never asks for one.
pub fn password_arg(password: Option<&str>) -> (r: String)
    ensures
        r@ == "-p"@ + (match password {
            Some(p) => p@,
            None => Seq::empty(),
        }),
{
    let mut out = "-p".to_owned();
    match password {
        Some(p) => out.append(p),
        None => {
            assert("-p"@ =~= "-p"@ + Seq::<char>::empty());
        },
    }
    out
}

/// Whether the path of an entry is refused.
pub open spec fn bad_entry_path(path: Seq<char>) -> bool {
    contains_text(path, ".."@) || (path.len() > 0 && path[0] == '/') || path.contains(':')
}

/// Checks the path of an entry that is to be read: no traversal, no absolute
/// path, no drive.
pub fn check_entry_path(entry_path: &str) -> (r: Result<String, String>)
    ensures
        ({
            let clean = replaced(entry_path@, '\\', '/');
            match r {
                Ok(p) => p@ == clean && !bad_entry_path(clean),
                Err(e) => bad_entry_path(clean) && e@ == "invalid entry path"@,
            }
        }),
{
    let clean = replace_char(&chars_of(entry_path), '\\', '/');
    if has_text(&clean, &chars_of("..")) || (clean.len() > 0 && clean[0] == '/') || has_char(
        &clean,
        ':',
    ) {
        return Err("invalid entry path".to_owned());
    }
    Ok(text_of(&clean))
}

/// The largest entry that is read into memory.
pub const PREVIEW_LIMIT: usize = 52428800;

/// The bytes of a single entry, from what the program printed: a failure counts
/// only where nothing was printed, and an entry may not be too large.
pub fn stream_archive_entry(success: bool, stdout: Vec<u8>, stderr: &str) -> (r: Result<
    Vec<u8>,
    String,
>)
    ensures
        if !success && stdout@.len() == 0 {
            r is Err && r->Err_0@ == "failed to stream entry: "@ + stderr@
        } else if stdout@.len() > PREVIEW_LIMIT {
            r is Err && r->Err_0@ == "entry exceeds 50MB in-memory preview limit"@
        } else {
            r is Ok && r->Ok_0@ == stdout@
        },
{
    if !success && stdout.len() == 0 {
        let mut message = "failed to stream entry: ".to_owned();
        message.append(stderr);
        return Err(message);
    }
    if stdout.len() > PREVIEW_LIMIT {
        return Err("entry exceeds 50MB in-memory preview limit".to_owned());
    }
    Ok(stdout)
}

/// What is asked of an extraction.
#[derive(Debug)]
pub struct ExtractOptions {
    /// The archive as an item.
    pub item_id: Option<i64>,
    /// The archive as a path.
    pub file_path: Option<String>,
    /// The password.
    pub password: Option<String>,
    /// `current_folder` or `new_folder`.
    pub target_mode: String,
    /// The name of the new folder.
    pub custom_folder_name: Option<String>,
    /// Whether the archive goes to the recycle bin.
    pub recycle_source: bool,
}

/// The outcome of an extraction.
#[derive(Debug)]
pub struct ExtractResponse {
    /// Whether it succeeded.
    pub ok: bool,
    /// How many entries were moved to the target.
    pub extracted_count: usize,
    /// The target folder.
    pub target_dir: String,
    /// Whether the archive went to the recycle bin.
    pub recycled_source: bool,
    /// What else is to be said.
    pub message: Option<String>,
}

/// The answer to an extraction that succeeded. `moved` holds the names under which entries
/// were moved to the target.
pub fn extracted_response(moved: &[String], target_dir: &str, recycled: bool) -> (r:
    ExtractResponse)
    ensures
        r.ok,
        r.extracted_count == moved@.len(),
        r.target_dir@ == target_dir@,
        r.recycled_source == recycled,
        r.message is None,
{
    ExtractResponse {
        ok: true,
        extracted_count: moved.len(),
        target_dir: target_dir.to_owned(),
        recycled_source: recycled,
        message: None,
    }
}

/// The position of the last full stop that parts a file name into stem and
/// extension: none in front of the first character, none in `..`.
pub open spec fn stem_end(name: Seq<char>) -> Option<int>
    decreases name.len(),
{
    if name.len() <= 1 {
        None
    } else if name.last() == '.' {
        Some(name.len() - 1)
    } else {
        stem_end(name.drop_last())
    }
}

/// A file name without its extension.
pub open spec fn stem_of(name: Seq<char>) -> Seq<char> {
    if name == ".."@ {
        name
    } else {
        match stem_end(name) {
            Some(k) => name.take(k),
            None => name,
        }
    }
}

/// The extension of a file name, with its full stop; empty where there is none.
pub open spec fn extension_of(name: Seq<char>) -> Seq<char> {
    if name == ".."@ {
        Seq::empty()
    } else {
        match stem_end(name) {
            Some(k) => name.skip(k),
            None => Seq::empty(),
        }
    }
}

/// The last full stop that parts a name lies within it.
proof fn lemma_stem_end(name: Seq<char>)
    ensures
        stem_end(name) matches Some(k) ==> 0 < k < name.len() && name[k] == '.',
    decreases name.len(),
{
    if name.len() > 1 && name.last() != '.' {
        lemma_stem_end(name.drop_last());
    }
}

/// The stem and the extension of a file name.
pub fn split_name(name: &str) -> (r: (String, String))
    ensures
        r.0@ == stem_of(name@),
        r.1@ == extension_of(name@),
{
    if same_text(name, "..") {
        return (name.to_owned(), String::new());
    }
    let n = chars_of(name);
    let mut k: usize = n.len();
    assert(n@.take(n@.len() as int) =~= n@);
    while k > 1 && n[k - 1] != '.'
        invariant
            k <= n@.len(),
            stem_end(n@.take(k as int)) == stem_end(n@),
        decreases k,
    {
        assert(n@.take(k as int).drop_last() =~= n@.take(k as int - 1));
        k -= 1;
    }
    if k > 1 {
        assert(n@.take(k as int).last() == '.');
        (text_of(&sub_chars(&n, 0, k - 1)), text_of(&sub_chars(&n, k - 1, n.len())))
    } else {
        (name.to_owned(), String::new())
    }
}

/// The characters that may stand in no folder name.
pub open spec fn unsafe_in_folder(c: char) -> bool {
    ||| c == '/'
    ||| c == '\\'
    ||| c == ':'
    ||| c == '*'
    ||| c == '?'
    ||| c == '"'
    ||| c == '<'
    ||| c == '>'
    ||| c == '|'
}

/// The name of the new folder: the wanted one, where there is any, else the stem
/// of the archive, with underscores for what may not stand in it.
pub open spec fn new_folder_name(stem: Seq<char>, custom: Option<Seq<char>>) -> Seq<char> {
    let name = match custom {
        Some(c) => if trimmed(c).len() > 0 {
            trimmed(c)
        } else {
            stem
        },
        None => stem,
    };
    trimmed(name.map_values(|c: char| if unsafe_in_folder(c) { '_' } else { c }))
}

/// The folder that an archive is extracted to.
pub open spec fn target_dir_of(
    parent: Seq<char>,
    stem: Seq<char>,
    mode: Seq<char>,
    custom: Option<Seq<char>>,
) -> Seq<char> {
    if mode == "new_folder"@ {
        path_joined(parent, new_folder_name(stem, custom))
    } else {
        parent
    }
}

/// The folder that an archive is extracted to: beside the archive, in a new
/// folder where that is asked for.
pub fn extract_target_dir(
    parent: &str,
    stem: &str,
    target_mode: &str,
    custom_folder_name: Option<&str>,
) -> (r: String)
    ensures
        r@ == target_dir_of(
            parent@,
            stem@,
            target_mode@,
            match custom_folder_name {
                Some(c) => Some(c@),
                None => None,
            },
        ),
{
    if !same_text(target_mode, "new_folder") {
        return parent.to_owned();
    }
    let name = match custom_folder_name {
        Some(c) => {
            let t = trim_text(c);
            if t.len() > 0 {
                t
            } else {
                chars_of(stem)
            }
        },
        None => chars_of(stem),
    };
    let mut safe: Vec<char> = Vec::new();
    let mut i: usize = 0;
    while i < name.len()
        invariant
            i <= name@.len(),
            safe@.len() == i,
            forall|j: int|
                0 <= j < i ==> safe@[j] == (if unsafe_in_folder(name@[j]) {
                    '_'
                } else {
                    name@[j]
                }),
        decreases name@.len() - i,
    {
        let c = name[i];
        if c == '/' || c == '\\' || c == ':' || c == '*' || c == '?' || c == '"' || c == '<' || c
            == '>' || c == '|' {
            safe.push('_');
        } else {
            safe.push(c);
        }
        i += 1;
    }
    assert(safe@ =~= name@.map_values(|c: char| if unsafe_in_folder(c) { '_' } else { c }));
    let folder = text_of(&trim_chars(&safe, CharClass::White));
    join_path(parent, &folder)
}

/// A new folder is one folder below the archive's: its name holds no separator.
pub proof fn new_folders_are_one_level(stem: Seq<char>, custom: Option<Seq<char>>)
    ensures
        forall|i: int|
            0 <= i < new_folder_name(stem, custom).len() ==> !unsafe_in_folder(
                #[trigger] new_folder_name(stem, custom)[i],
            ),
{
    let name = match custom {
        Some(c) => if trimmed(c).len() > 0 {
            trimmed(c)
        } else {
            stem
        },
        None => stem,
    };
    let safe = name.map_values(|c: char| if unsafe_in_folder(c) { '_' } else { c });
    crate::text::lemma_trim_subset(safe, CharClass::White);
    assert forall|i: int| 0 <= i < new_folder_name(stem, custom).len() implies !unsafe_in_folder(
        #[trigger] new_folder_name(stem, custom)[i],
    ) by {
        let c = new_folder_name(stem, custom)[i];
        assert(safe.contains(c));
        let k = safe.index_of(c);
        assert(safe[k] == c);
    }
}

/// The name of the folder that an archive is extracted to at first.
pub fn staging_dir_name() -> (r: String)
    ensures
        exists|id: Seq<char>| #[trigger] simple_id(id) && r@ == ".extracting_"@ + id,
{
    fresh_name(".extracting_")
}

/// The message of a failed extraction.
pub fn extract_failure_message(stderr: &str) -> (r: String)
    ensures
        r@ == (if contains_text(stderr@, "Wrong password"@) || contains_text(
            stderr@,
            "Enter password"@,
        ) {
            "解压密码错误"@
        } else {
            "解压执行失败: "@ + stderr@
        }),
{
    let s = chars_of(stderr);
    if has_text(&s, &chars_of("Wrong password")) || has_text(&s, &chars_of("Enter password")) {
        "解压密码错误".to_owned()
    } else {
        let mut message = "解压执行失败: ".to_owned();
        message.append(stderr);
        message
    }
}

/// Why an archive is not extracted at all.
#[derive(Clone, Copy, PartialEq, Eq, Debug, Structural)]
pub enum ExtractRefusal {
    /// There is no program to extract it with.
    ProgramMissing,
    /// It lies in no folder.
    NoParent,
    /// The folder it goes to lies outside the media roots.
    OutsideRoots,
}

impl ExtractRefusal {
    /// The message of the refusal.
    pub fn message(self) -> (r: &'static str)
        ensures
            r@ == (match self {
                ExtractRefusal::ProgramMissing => "7-Zip executable (7zz / 7z) not found"@,
                ExtractRefusal::NoParent => "archive has no parent directory"@,
                ExtractRefusal::OutsideRoots => "target directory is outside authorized media roots"@,
            }),
    {
        match self {
            ExtractRefusal::ProgramMissing => "7-Zip executable (7zz / 7z) not found",
            ExtractRefusal::NoParent => "archive has no parent directory",
            ExtractRefusal::OutsideRoots => "target directory is outside authorized media roots",
        }
    }
}

/// Why an archive is not extracted at all, if it is not.
pub fn vet_extract(program_found: bool, has_parent: bool, authorized: bool) -> (r: Option<
    ExtractRefusal,
>)
    ensures
        r == (if !program_found {
            Some(ExtractRefusal::ProgramMissing)
        } else if !has_parent {
            Some(ExtractRefusal::NoParent)
        } else if !authorized {
            Some(ExtractRefusal::OutsideRoots)
        } else {
            None
        }),
{
    if !program_found {
        Some(ExtractRefusal::ProgramMissing)
    } else if !has_parent {
        Some(ExtractRefusal::NoParent)
    } else if !authorized {
        Some(ExtractRefusal::OutsideRoots)
    } else {
        None
    }
}

/// How far an extraction is.
#[derive(Clone, Copy, PartialEq, Eq, Debug, Structural)]
pub enum ExtractStage {
    /// The request is being looked at.
    Checking,
    /// The staging folder is being made.
    Staging,
    /// The program is running.
    Unpacking,
    /// The staging folder is being removed; `started` where the program ran.
    Discarding {
        /// Whether the program ran.
        started: bool,
    },
    /// Litter and a folder around everything are being taken off.
    Tidying,
    /// The target folder is being made.
    MakingTarget,
    /// What was extracted is being moved to the target.
    Moving,
    /// The staging folder is being removed, with everything moved.
    Removing,
    /// The archive is being recycled as an item of the library.
    Recycling,
    /// The archive is being recycled as a file.
    RecyclingFile,
    /// It has ended.
    Ended,
}

/// What came of a step of an extraction.
#[derive(Clone, Copy, PartialEq, Eq, Debug, Structural)]
pub enum ExtractEvent {
    /// The request was looked at.
    Checked(Option<ExtractRefusal>),
    /// The step succeeded.
    Done,
    /// The step failed.
    Failed,
    /// The program ran and reported a failure.
    Unsuccessful,
}

/// How an extraction ended.
#[derive(Clone, Copy, PartialEq, Eq, Debug, Structural)]
pub enum ExtractOutcome {
    /// Everything stands in the target folder.
    Extracted {
        /// Whether the archive was recycled.
        recycled: bool,
    },
    /// It was refused.
    Refused(ExtractRefusal),
    /// The staging folder could not be made.
    StagingFailed,
    /// The program could not be started.
    NotStarted,
    /// The program reported a failure.
    Unsuccessful,
    /// The target folder could not be made.
    TargetFailed,
    /// Not everything could be moved.
    MoveFailed,
}

/// What is to be done next.
#[derive(Clone, Copy, PartialEq, Eq, Debug, Structural)]
pub enum ExtractAction {
    /// Make the staging folder.
    MakeStaging,
    /// Run the program.
    Unpack,
    /// Remove the staging folder.
    RemoveStaging,
    /// Take off litter and a folder around everything.
    Tidy,
    /// Make the target folder.
    MakeTarget,
    /// Move what was extracted to the target.
    Move,
    /// Recycle the archive as an item of the library.
    RecycleItem,
    /// Recycle the archive as a file.
    RecycleFile,
    /// Report the outcome.
    Finish(ExtractOutcome),
}

/// The next step of an extraction. `recycle` says whether the archive is recycled
/// at the end. Removing the staging folder, tidying up and recycling may fail.
pub open spec fn next_extract_step(stage: ExtractStage, event: ExtractEvent, recycle: bool) -> (
    ExtractStage,
    ExtractAction,
) {
    let done = event is Done;
    let end = |outcome: ExtractOutcome| (ExtractStage::Ended, ExtractAction::Finish(outcome));
    match stage {
        ExtractStage::Checking => match event {
            ExtractEvent::Checked(None) => (ExtractStage::Staging, ExtractAction::MakeStaging),
            ExtractEvent::Checked(Some(refusal)) => end(ExtractOutcome::Refused(refusal)),
            _ => end(ExtractOutcome::StagingFailed),
        },
        ExtractStage::Staging => if done {
            (ExtractStage::Unpacking, ExtractAction::Unpack)
        } else {
            end(ExtractOutcome::StagingFailed)
        },
        ExtractStage::Unpacking => if done {
            (ExtractStage::Tidying, ExtractAction::Tidy)
        } else {
            (
                ExtractStage::Discarding { started: event is Unsuccessful },
                ExtractAction::RemoveStaging,
            )
        },
        ExtractStage::Discarding { started } => end(
            if started {
                ExtractOutcome::Unsuccessful
            } else {
                ExtractOutcome::NotStarted
            },
        ),
        ExtractStage::Tidying => (ExtractStage::MakingTarget, ExtractAction::MakeTarget),
        ExtractStage::MakingTarget => if done {
            (ExtractStage::Moving, ExtractAction::Move)
        } else {
            end(ExtractOutcome::TargetFailed)
        },
        ExtractStage::Moving => if done {
            (ExtractStage::Removing, ExtractAction::RemoveStaging)
        } else {
            end(ExtractOutcome::MoveFailed)
        },
        ExtractStage::Removing => if recycle {
            (ExtractStage::Recycling, ExtractAction::RecycleItem)
        } else {
            end(ExtractOutcome::Extracted { recycled: false })
        },
        ExtractStage::Recycling => if done {
            end(ExtractOutcome::Extracted { recycled: true })
        } else {
            (ExtractStage::RecyclingFile, ExtractAction::RecycleFile)
        },
        ExtractStage::RecyclingFile => end(ExtractOutcome::Extracted { recycled: done }),
        ExtractStage::Ended => end(ExtractOutcome::MoveFailed),
    }
}

/// The end of an extraction.
fn end_extract(outcome: ExtractOutcome) -> (r: (ExtractStage, ExtractAction))
    ensures
        r == (ExtractStage::Ended, ExtractAction::Finish(outcome)),
{
    (ExtractStage::Ended, ExtractAction::Finish(outcome))
}

/// Takes an extraction one step on.
pub fn extract_archive(stage: ExtractStage, event: ExtractEvent, recycle: bool) -> (r: (
    ExtractStage,
    ExtractAction,
))
    ensures
        r == next_extract_step(stage, event, recycle),
{
    let done = match event {
        ExtractEvent::Done => true,
        _ => false,
    };
    match stage {
        ExtractStage::Checking => match event {
            ExtractEvent::Checked(None) => (ExtractStage::Staging, ExtractAction::MakeStaging),
            ExtractEvent::Checked(Some(refusal)) => end_extract(ExtractOutcome::Refused(refusal)),
            _ => end_extract(ExtractOutcome::StagingFailed),
        },
        ExtractStage::Staging => if done {
            (ExtractStage::Unpacking, ExtractAction::Unpack)
        } else {
            end_extract(ExtractOutcome::StagingFailed)
        },
        ExtractStage::Unpacking => match event {
            ExtractEvent::Done => (ExtractStage::Tidying, ExtractAction::Tidy),
            ExtractEvent::Unsuccessful => (
                ExtractStage::Discarding { started: true },
                ExtractAction::RemoveStaging,
            ),
            _ => (ExtractStage::Discarding { started: false }, ExtractAction::RemoveStaging),
        },
        ExtractStage::Discarding { started } => if started {
            end_extract(ExtractOutcome::Unsuccessful)
        } else {
            end_extract(ExtractOutcome::NotStarted)
        },
        ExtractStage::Tidying => (ExtractStage::MakingTarget, ExtractAction::MakeTarget),
        ExtractStage::MakingTarget => if done {
            (ExtractStage::Moving, ExtractAction::Move)
        } else {
            end_extract(ExtractOutcome::TargetFailed)
        },
        ExtractStage::Moving => if done {
            (ExtractStage::Removing, ExtractAction::RemoveStaging)
        } else {
            end_extract(ExtractOutcome::MoveFailed)
        },
        ExtractStage::Removing => if recycle {
            (ExtractStage::Recycling, ExtractAction::RecycleItem)
        } else {
            end_extract(ExtractOutcome::Extracted { recycled: false })
        },
        ExtractStage::Recycling => if done {
            end_extract(ExtractOutcome::Extracted { recycled: true })
        } else {
            (ExtractStage::RecyclingFile, ExtractAction::RecycleFile)
        },
        ExtractStage::RecyclingFile => end_extract(ExtractOutcome::Extracted { recycled: done }),
        ExtractStage::Ended => end_extract(ExtractOutcome::MoveFailed),
    }
}

/// Where an archive and what is in it stand.
pub struct ExtractWorld {
    /// Whether the archive is where it was.
    pub archive: bool,
    /// Whether the staging folder was made and not removed.
    pub staging: bool,
    /// Whether moving to the target was begun.
    pub touched: bool,
    /// Whether everything stands in the target folder.
    pub moved: bool,
}

/// The world behind a step. Moving may stop halfway; any other step that fails
/// changes nothing.
pub open spec fn extract_world_after(
    w: ExtractWorld,
    stage: ExtractStage,
    event: ExtractEvent,
) -> ExtractWorld {
    let done = event is Done;
    match stage {
        ExtractStage::Staging => ExtractWorld { staging: w.staging || done, ..w },
        ExtractStage::Discarding { .. } => ExtractWorld { staging: w.staging && !done, ..w },
        ExtractStage::Removing => ExtractWorld { staging: w.staging && !done, ..w },
        ExtractStage::Moving => ExtractWorld { touched: true, moved: done, ..w },
        ExtractStage::Recycling => ExtractWorld { archive: w.archive && !done, ..w },
        ExtractStage::RecyclingFile => ExtractWorld { archive: w.archive && !done, ..w },
        _ => w,
    }
}

/// A run of an extraction against given events, one for each step.
pub open spec fn extract_run(
    stage: ExtractStage,
    w: ExtractWorld,
    events: Seq<ExtractEvent>,
    i: int,
    recycle: bool,
    steps: nat,
) -> Option<(ExtractOutcome, ExtractWorld)>
    decreases steps,
{
    if steps == 0 {
        None
    } else {
        let (next, action) = next_extract_step(stage, events[i], recycle);
        let after = extract_world_after(w, stage, events[i]);
        match action {
            ExtractAction::Finish(outcome) => Some((outcome, after)),
            _ => extract_run(next, after, events, i + 1, recycle, (steps - 1) as nat),
        }
    }
}

/// Every extraction ends, whatever happens to its steps. An archive is gone only
/// where it was to be recycled and everything in it stands in the target folder;
/// a program that fails leaves the target folder alone; and an extraction is
/// reported as made exactly where everything was moved.
pub proof fn extractions_are_consistent(events: Seq<ExtractEvent>, recycle: bool)
    ensures
        ({
            let start = ExtractWorld {
                archive: true,
                staging: false,
                touched: false,
                moved: false,
            };
            let run = extract_run(ExtractStage::Checking, start, events, 0, recycle, 9);
            &&& run is Some
            &&& {
                let (outcome, w) = run->Some_0;
                &&& outcome is Extracted <==> w.moved
                &&& !w.archive <==> outcome == (ExtractOutcome::Extracted { recycled: true })
                &&& !w.archive ==> recycle && w.moved
                &&& outcome is Unsuccessful || outcome is NotStarted ==> !w.touched
                &&& outcome is Refused ==> !w.staging && !w.touched
            }
        }),
{
    reveal_with_fuel(extract_run, 11);
}

/// Whether a name is litter of a desktop system that is not extracted.
pub fn is_junk_name(name: &str) -> (r: bool)
    ensures
        r == (name@ == "__MACOSX"@ || name@ == ".DS_Store"@ || name@ == "Thumbs.db"@ || name@
            == "desktop.ini"@),
{
    same_text(name, "__MACOSX") || same_text(name, ".DS_Store") || same_text(name, "Thumbs.db")
        || same_text(name, "desktop.ini")
}

/// An entry of a folder.
#[derive(Debug)]
pub struct FolderEntry {
    /// Its name.
    pub name: String,
    /// Whether it is a folder.
    pub is_dir: bool,
}

/// Whether a name is not hidden.
pub open spec fn visible(e: FolderEntry) -> bool {
    !(e.name@.len() > 0 && e.name@[0] == '.')
}

/// How many entries are not hidden.
pub open spec fn visible_count(entries: Seq<FolderEntry>) -> int
    decreases entries.len(),
{
    if entries.len() == 0 {
        0
    } else {
        visible_count(entries.drop_last()) + if visible(entries.last()) {
            1int
        } else {
            0int
        }
    }
}

/// The folder that only wraps the rest: the single entry that is not hidden,
/// where it is a folder.
pub fn flatten_single_wrapper(entries: &[FolderEntry]) -> (r: Option<usize>)
    ensures
        match r {
            Some(i) => i < entries@.len() && visible(entries@[i as int])
                && entries@[i as int].is_dir && visible_count(entries@) == 1,
            None => visible_count(entries@) != 1 || forall|i: int|
                0 <= i < entries@.len() && visible(#[trigger] entries@[i]) ==> !entries@[i].is_dir,
        },
{
    let mut found: Option<usize> = None;
    let mut count: usize = 0;
    let mut i: usize = 0;
    while i < entries.len()
        invariant
            i <= entries@.len(),
            count == visible_count(entries@.take(i as int)),
            count <= i,
            match found {
                Some(f) => f < i && visible(entries@[f as int]) && forall|j: int|
                    f < j < i ==> !visible(#[trigger] entries@[j]),
                None => forall|j: int| 0 <= j < i ==> !visible(#[trigger] entries@[j]),
            },
            count == 1 ==> found is Some && forall|j: int|
                0 <= j < i && visible(#[trigger] entries@[j]) ==> j == found->Some_0,
            count == 0 ==> found is None,
        decreases entries@.len() - i,
    {
        assert(entries@.take(i as int + 1).drop_last() =~= entries@.take(i as int));
        let name = chars_of(&entries[i].name);
        if !(name.len() > 0 && name[0] == '.') {
            assert(visible(entries@[i as int]));
            count += 1;
            found = Some(i);
        }
        i += 1;
    }
    assert(entries@.take(entries@.len() as int) =~= entries@);
    if count != 1 {
        return None;
    }
    match found {
        Some(f) => if entries[f].is_dir {
            Some(f)
        } else {
            None
        },
        None => None,
    }
}

/// The names under which an extracted file is tried: its own, then with a
/// running number in front of its extension.
pub open spec fn try_name(name: Seq<char>, n: nat) -> Seq<char> {
    if n == 0 {
        name
    } else {
        stem_of(name) + " ("@ + decimal(n) + ")"@ + extension_of(name)
    }
}

/// A name under which an extracted file is tried.
pub fn destination_name(name: &str, n: usize) -> (r: String)
    ensures
        r@ == try_name(name@, n as nat),
{
    if n == 0 {
        return name.to_owned();
    }
    let (stem, extension) = split_name(name);
    let mut out = stem;
    out.append(" (");
    push_decimal(n as u64, &mut out);
    out.append(")");
    out.append(&extension);
    assert(out@ =~= try_name(name@, n as nat));
    out
}

/// The last number that is tried.
pub const LAST_TRY: usize = 999;

/// Which name an extracted file gets: the first that is free, and the last one
/// untested where all in front of it are taken. `taken` says for the names tried
/// so far whether they are; `None` asks for the next.
pub fn choose_destination(taken: &[bool]) -> (r: Option<usize>)
    ensures
        match r {
            Some(n) => n <= LAST_TRY && (forall|j: int| 0 <= j < n ==> j < taken@.len() && #[trigger] taken@[j])
                && (n < LAST_TRY ==> n < taken@.len() && !taken@[n as int]),
            None => taken@.len() < LAST_TRY && forall|j: int|
                0 <= j < taken@.len() ==> #[trigger] taken@[j],
        },
        forall|j: int|
            0 <= j < taken@.len() && j < 999 && !(#[trigger] taken@[j]) ==> r is Some && r->Some_0
                <= j,
        taken@.len() == 0 ==> r is None,
        taken@.len() >= 999 ==> r is Some,
{
    let mut i: usize = 0;
    while i < taken.len() && i < LAST_TRY
        invariant
            i <= taken@.len(),
            i <= LAST_TRY,
            forall|j: int| 0 <= j < i ==> #[trigger] taken@[j],
        decreases LAST_TRY - i,
    {
        if !taken[i] {
            return Some(i);
        }
        i += 1;
    }
    if i == LAST_TRY {
        Some(LAST_TRY)
    } else {
        None
    }
}

/// An extraction in which everything succeeds unpacks the archive and leaves nothing behind;
/// the archive goes away exactly where that was asked for.
pub proof fn undisturbed_extractions_succeed(events: Seq<ExtractEvent>, recycle: bool)
    requires
        events.len() >= 8,
        events[0] == ExtractEvent::Checked(None),
        forall|i: int| 1 <= i < events.len() ==> #[trigger] events[i] is Done,
    ensures
        ({
            let start = ExtractWorld {
                archive: true,
                staging: false,
                touched: false,
                moved: false,
            };
            let run = extract_run(ExtractStage::Checking, start, events, 0, recycle, 9);
            &&& run is Some
            &&& run->Some_0.0 == (ExtractOutcome::Extracted { recycled: recycle })
            &&& run->Some_0.1 == (ExtractWorld {
                archive: !recycle,
                staging: false,
                touched: true,
                moved: true,
            })
        }),
{
    reveal_with_fuel(extract_run, 10);
    assert(events[1] is Done && events[2] is Done && events[3] is Done && events[4] is Done);
    assert(events[5] is Done && events[6] is Done && events[7] is Done);
}

/// Where the program reports a failure the staging folder is removed and the archive stays;
/// a refusal is answered as it is.
pub proof fn failed_extractions_are_cleared_away(
    events: Seq<ExtractEvent>,
    recycle: bool,
    refusal: ExtractRefusal,
)
    requires
        events.len() >= 4,
    ensures
        ({
            let start = ExtractWorld {
                archive: true,
                staging: false,
                touched: false,
                moved: false,
            };
            let run = extract_run(ExtractStage::Checking, start, events, 0, recycle, 9);
            &&& events[0] == ExtractEvent::Checked(Some(refusal)) ==> run == Some(
                (ExtractOutcome::Refused(refusal), start),
            )
            &&& events[0] == ExtractEvent::Checked(None) && events[1] is Done && events[2]
                is Unsuccessful && events[3] is Done ==> run == Some(
                (ExtractOutcome::Unsuccessful, start),
            )
            &&& events[0] == ExtractEvent::Checked(None) && events[1] is Done && events[2] is Failed
                && events[3] is Done ==> run == Some((ExtractOutcome::NotStarted, start))
        }),
{
    reveal_with_fuel(extract_run, 10);
}

}
