//! Whether the process can open the graphics devices of the machine.

use vstd::prelude::*;
use crate::text::{
    chars_of, has_prefix, is_white_space, parsed_within, read_unsigned, same_text, split,
    split_chars, starts_with, sub_chars, text_of, texts, white_space,
};

verus! {

/// A piece of text without a carriage return at its end.
pub open spec fn without_return(s: Seq<char>) -> Seq<char> {
    if s.len() > 0 && s.last() == '\r' {
        s.drop_last()
    } else {
        s
    }
}

/// The lines of a text: each ends in a line feed, with or without a carriage
/// return before it; what is behind the last line feed is a line where it is not
/// empty.
pub open spec fn text_lines(s: Seq<char>) -> Seq<Seq<char>> {
    let pieces = split(s, '\n');
    let ended = pieces.drop_last().map_values(|p: Seq<char>| without_return(p));
    if pieces.last().len() == 0 {
        ended
    } else {
        ended.push(pieces.last())
    }
}

/// There is always a piece.
proof fn lemma_split_some(s: Seq<char>, sep: char)
    ensures
        split(s, sep).len() > 0,
{
}

/// The lines of a text.
pub fn lines_of(s: &str) -> (r: Vec<String>)
    ensures
        texts(r@) == text_lines(s@),
{
    let pieces = split_chars(&chars_of(s), '\n');
    let ghost all = texts(pieces@);
    proof {
        lemma_split_some(s@, '\n');
        assert(all.len() == pieces@.len());
    }
    let n: usize = pieces.len() - 1;
    let ghost ended = |p: Seq<char>| without_return(p);
    let mut out: Vec<String> = Vec::new();
    let mut i: usize = 0;
    while i < n
        invariant
            i <= n,
            n + 1 == pieces@.len(),
            all == texts(pieces@),
            out@.len() == i,
            forall|j: int| 0 <= j < i ==> (#[trigger] out@[j])@ == without_return(all[j]),
        decreases n - i,
    {
        let p = chars_of(&pieces[i]);
        if p.len() > 0 && p[p.len() - 1] == '\r' {
            let cut = sub_chars(&p, 0, p.len() - 1);
            assert(cut@ =~= p@.drop_last());
            out.push(text_of(&cut));
        } else {
            out.push(pieces[i].clone());
        }
        i += 1;
    }
    assert(texts(out@) =~= all.drop_last().map_values(ended));
    assert(all.last() == pieces@[n as int]@);
    if chars_of(&pieces[n]).len() > 0 {
        let ghost before = texts(out@);
        out.push(pieces[n].clone());
        assert(texts(out@) =~= before.push(all.last()));
    }
    out
}

/// How many characters a text has up to the first white space.
pub open spec fn word_len(s: Seq<char>) -> int
    decreases s.len(),
{
    if s.len() == 0 || white_space(s[0]) {
        0
    } else {
        1 + word_len(s.skip(1))
    }
}

/// The words of a text: what stands between white space.
pub open spec fn text_words(s: Seq<char>) -> Seq<Seq<char>>
    decreases s.len(),
{
    if s.len() == 0 {
        Seq::empty()
    } else if white_space(s[0]) {
        text_words(s.skip(1))
    } else {
        let n = word_len(s);
        if 0 < n <= s.len() {
            seq![s.take(n)] + text_words(s.skip(n))
        } else {
            Seq::empty()
        }
    }
}

/// The words of a text.
pub fn words_of(s: &str) -> (r: Vec<String>)
    ensures
        texts(r@) == text_words(s@),
{
    let v = chars_of(s);
    let mut out: Vec<String> = Vec::new();
    let mut i: usize = 0;
    proof {
        assert(v@.skip(0) =~= v@);
        assert(texts(out@) + text_words(v@.skip(0)) =~= text_words(s@));
    }
    while i < v.len()
        invariant
            i <= v@.len(),
            v@ == s@,
            texts(out@) + text_words(v@.skip(i as int)) == text_words(s@),
        decreases v@.len() - i,
    {
        let ghost rest = v@.skip(i as int);
        if is_white_space(v[i]) {
            assert(rest.skip(1) =~= v@.skip(i as int + 1));
            i += 1;
        } else {
            let start: usize = i;
            let mut k: usize = i;
            proof {
                assert(v@.skip(k as int) =~= rest);
            }
            while k < v.len() && !is_white_space(v[k])
                invariant
                    start <= k <= v@.len(),
                    rest == v@.skip(start as int),
                    word_len(rest) == (k - start) + word_len(v@.skip(k as int)),
                decreases v@.len() - k,
            {
                assert(v@.skip(k as int).skip(1) =~= v@.skip(k as int + 1));
                k += 1;
            }
            let piece = sub_chars(&v, start, k);
            let word = text_of(&piece);
            let ghost before = texts(out@);
            proof {
                assert(word_len(v@.skip(k as int)) == 0);
                assert(rest[0] == v@[start as int]);
                assert(k > start) by {
                    assert(word_len(rest) == 1 + word_len(rest.skip(1)));
                    lemma_word_len(rest.skip(1));
                }
                assert(word@ =~= rest.take(k - start));
                assert(rest.skip(k - start) =~= v@.skip(k as int));
            }
            let ghost value = word@;
            out.push(word);
            proof {
                assert(texts(out@) =~= before.push(value));
                assert(texts(out@) + text_words(v@.skip(k as int)) =~= before + text_words(rest));
            }
            i = k;
        }
    }
    assert(v@.skip(i as int) =~= Seq::<char>::empty());
    assert(texts(out@) + Seq::<Seq<char>>::empty() =~= texts(out@));
    out
}

/// A word is no longer than its text.
proof fn lemma_word_len(s: Seq<char>)
    ensures
        0 <= word_len(s) <= s.len(),
    decreases s.len(),
{
    if s.len() > 0 && !white_space(s[0]) {
        lemma_word_len(s.skip(1));
    }
}

/// The last line that starts with a word, or nothing.
pub open spec fn last_line_with(lines: Seq<Seq<char>>, prefix: Seq<char>) -> Seq<char>
    decreases lines.len(),
{
    if lines.len() == 0 {
        Seq::empty()
    } else if starts_with(lines.last(), prefix) {
        lines.last()
    } else {
        last_line_with(lines.drop_last(), prefix)
    }
}

/// The last line that starts with a word, or nothing.
fn find_line(lines: &[String], prefix: &str) -> (r: String)
    ensures
        r@ == last_line_with(texts(lines@), prefix@),
{
    let ghost all = texts(lines@);
    let p = chars_of(prefix);
    let mut n: usize = lines.len();
    assert(all.take(n as int) =~= all);
    while n > 0
        invariant
            n <= lines@.len(),
            all == texts(lines@),
            p@ == prefix@,
            last_line_with(all.take(n as int), prefix@) == last_line_with(all, prefix@),
        decreases n,
    {
        assert(all.take(n as int).last() == lines@[n as int - 1]@);
        if has_prefix(&chars_of(&lines[n - 1]), &p) {
            return lines[n - 1].clone();
        }
        assert(all.take(n as int).drop_last() =~= all.take(n as int - 1));
        n -= 1;
    }
    String::new()
}

/// The numbers of a list of words, the others left out.
pub open spec fn numbers_of(words: Seq<Seq<char>>) -> Seq<int>
    decreases words.len(),
{
    if words.len() == 0 {
        Seq::empty()
    } else {
        match parsed_within(words.last(), false, 0, u32::MAX as int) {
            Some(n) => numbers_of(words.drop_last()).push(n),
            None => numbers_of(words.drop_last()),
        }
    }
}

/// The groups of a process by the line of its status that lists them.
pub open spec fn group_ids(line: Seq<char>) -> Seq<int> {
    let words = text_words(line);
    if words.len() == 0 {
        Seq::empty()
    } else {
        numbers_of(words.skip(1))
    }
}

/// The numbers of a list.
pub open spec fn number_views(v: Seq<u32>) -> Seq<int> {
    v.map_values(|n: u32| n as int)
}

/// The groups of a process.
fn read_group_ids(line: &str) -> (r: Vec<u32>)
    ensures
        number_views(r@) == group_ids(line@),
{
    let words = words_of(line);
    let ghost all = texts(words@);
    let mut out: Vec<u32> = Vec::new();
    assert(number_views(out@) =~= Seq::<int>::empty());
    if words.len() == 0 {
        return out;
    }
    let ghost rest = all.skip(1);
    let mut i: usize = 1;
    assert(rest.take(0) =~= Seq::<Seq<char>>::empty());
    while i < words.len()
        invariant
            1 <= i <= words@.len(),
            all == texts(words@),
            rest == all.skip(1),
            number_views(out@) == numbers_of(rest.take(i - 1)),
        decreases words@.len() - i,
    {
        proof {
            assert(rest.take(i as int).drop_last() =~= rest.take(i - 1));
            assert(rest.take(i as int).last() == words@[i as int]@);
        }
        match read_unsigned(&chars_of(&words[i]), u32::MAX as u64) {
            Some(n) => {
                let ghost before = number_views(out@);
                out.push(n as u32);
                assert(number_views(out@) =~= before.push(n as int));
            },
            None => {},
        }
        i += 1;
    }
    assert(rest.take(rest.len() as int) =~= rest);
    out
}

/// The number of a group by its line in the list of groups; the largest number
/// where the line has none.
pub open spec fn group_id_of(line: Seq<char>) -> int {
    let parts = split(line, ':');
    if parts.len() > 2 {
        match parsed_within(parts[2], false, 0, u32::MAX as int) {
            Some(n) => n,
            None => u32::MAX as int,
        }
    } else {
        u32::MAX as int
    }
}

/// The names of the groups whose numbers are listed.
pub open spec fn group_names(lines: Seq<Seq<char>>, ids: Seq<int>) -> Seq<Seq<char>>
    decreases lines.len(),
{
    if lines.len() == 0 {
        Seq::empty()
    } else if ids.contains(group_id_of(lines.last())) {
        group_names(lines.drop_last(), ids).push(split(lines.last(), ':')[0])
    } else {
        group_names(lines.drop_last(), ids)
    }
}

/// Whether a number is listed.
fn has_number(ids: &[u32], n: u32) -> (r: bool)
    ensures
        r == number_views(ids@).contains(n as int),
{
    let ghost all = number_views(ids@);
    let mut i: usize = 0;
    while i < ids.len()
        invariant
            i <= ids@.len(),
            all == number_views(ids@),
            forall|j: int| 0 <= j < i ==> #[trigger] all[j] != n,
        decreases ids@.len() - i,
    {
        if ids[i] == n {
            assert(all[i as int] == n);
            return true;
        }
        i += 1;
    }
    false
}

/// The names of the groups whose numbers are listed.
fn read_group_names(lines: &[String], ids: &[u32]) -> (r: Vec<String>)
    ensures
        texts(r@) == group_names(texts(lines@), number_views(ids@)),
{
    let ghost all = texts(lines@);
    let ghost wanted = number_views(ids@);
    let mut out: Vec<String> = Vec::new();
    let mut i: usize = 0;
    assert(all.take(0) =~= Seq::<Seq<char>>::empty());
    assert(texts(out@) =~= Seq::<Seq<char>>::empty());
    while i < lines.len()
        invariant
            i <= lines@.len(),
            all == texts(lines@),
            wanted == number_views(ids@),
            texts(out@) == group_names(all.take(i as int), wanted),
        decreases lines@.len() - i,
    {
        proof {
            assert(all.take(i as int + 1).drop_last() =~= all.take(i as int));
            assert(all.take(i as int + 1).last() == lines@[i as int]@);
            lemma_split_some(lines@[i as int]@, ':');
        }
        let parts = split_chars(&chars_of(&lines[i]), ':');
        assert(texts(parts@).len() == parts@.len());
        let id: u32 = if parts.len() > 2 {
            assert(texts(parts@)[2] == parts@[2]@);
            match read_unsigned(&chars_of(&parts[2]), u32::MAX as u64) {
                Some(n) => n as u32,
                None => u32::MAX,
            }
        } else {
            u32::MAX
        };
        if has_number(ids, id) {
            let ghost before = texts(out@);
            assert(texts(parts@)[0] == parts@[0]@);
            out.push(parts[0].clone());
            assert(texts(out@) =~= before.push(parts@[0]@));
        }
        i += 1;
    }
    assert(all.take(all.len() as int) =~= all);
    out
}

/// A graphics device node.
#[derive(Debug)]
pub struct DriNode {
    /// Its name.
    pub name: String,
    /// Whether it could be opened.
    pub open_ok: bool,
}

/// Whether a node is that of a device and could be opened.
pub open spec fn usable_node(name: Seq<char>, open_ok: bool) -> bool {
    (starts_with(name, "renderD"@) || starts_with(name, "card"@)) && open_ok
}

/// Whether one of the nodes is that of a device and could be opened.
pub open spec fn any_usable(nodes: Seq<DriNode>) -> bool {
    exists|i: int| 0 <= i < nodes.len() && usable_node((#[trigger] nodes[i]).name@, nodes[i].open_ok)
}

/// Whether one of the nodes is that of a device and could be opened.
fn has_usable(nodes: &[DriNode]) -> (r: bool)
    ensures
        r == any_usable(nodes@),
{
    let render = chars_of("renderD");
    let card = chars_of("card");
    let mut i: usize = 0;
    while i < nodes.len()
        invariant
            i <= nodes@.len(),
            render@ == "renderD"@,
            card@ == "card"@,
            forall|j: int|
                0 <= j < i ==> !usable_node((#[trigger] nodes@[j]).name@, nodes@[j].open_ok),
        decreases nodes@.len() - i,
    {
        let name = chars_of(&nodes[i].name);
        if (has_prefix(&name, &render) || has_prefix(&name, &card)) && nodes[i].open_ok {
            assert(usable_node(nodes@[i as int].name@, nodes@[i as int].open_ok));
            return true;
        }
        i += 1;
    }
    false
}

/// Whether a text is listed.
fn has_name(names: &[String], name: &str) -> (r: bool)
    ensures
        r == texts(names@).contains(name@),
{
    let ghost all = texts(names@);
    let mut i: usize = 0;
    while i < names.len()
        invariant
            i <= names@.len(),
            all == texts(names@),
            forall|j: int| 0 <= j < i ==> #[trigger] all[j] != name@,
        decreases names@.len() - i,
    {
        if same_text(&names[i], name) {
            assert(all[i as int] == name@);
            return true;
        }
        i += 1;
    }
    false
}

/// What is known of the access to graphics devices.
#[derive(Debug)]
pub struct GpuAccess {
    /// Whether a device can be used.
    pub ready: bool,
    /// What stands in the way.
    pub message: String,
    /// The groups of the process.
    pub process_groups: Vec<String>,
    /// Whether the process is in the group for rendering.
    pub has_render_group: bool,
    /// Whether the process is in the group for video.
    pub has_video_group: bool,
    /// The line with the user of the process.
    pub uid_status: String,
    /// The line with the groups of the process.
    pub groups_status: String,
}

/// What stands in the way of using a device.
pub open spec fn access_message(nodes: int, usable: bool, in_render_group: bool) -> Seq<char> {
    if nodes == 0 {
        "no /dev/dri nodes (no Intel GPU device nodes visible)"@
    } else if !usable {
        "cannot open /dev/dri (missing render/video group or sg render at start)"@
    } else if !in_render_group {
        "/dev/dri open ok but process not in render group (may still work if root)"@
    } else {
        "render device open ok"@
    }
}

/// The names of the groups of a process.
pub open spec fn process_groups_of(groups_line: Seq<char>, group_file: Option<Seq<char>>) -> Seq<
    Seq<char>,
> {
    match group_file {
        Some(t) => group_names(text_lines(t), group_ids(groups_line)),
        None => Seq::empty(),
    }
}

/// The lines of the status of a process.
pub open spec fn status_lines(status: Option<Seq<char>>) -> Seq<Seq<char>> {
    match status {
        Some(t) => text_lines(t),
        None => Seq::empty(),
    }
}

/// Tells whether the process can use a graphics device, from the device nodes,
/// the status of the process and the list of groups.
pub fn gpu_access_probe(nodes: &[DriNode], status: Option<&str>, group_file: Option<&str>) -> (r:
    GpuAccess)
    ensures
        r.uid_status@ == last_line_with(
            status_lines(crate::character_ccip::given(status)),
            "Uid:"@,
        ),
        r.groups_status@ == last_line_with(
            status_lines(crate::character_ccip::given(status)),
            "Groups:"@,
        ),
        texts(r.process_groups@) == process_groups_of(
            r.groups_status@,
            crate::character_ccip::given(group_file),
        ),
        r.has_render_group == texts(r.process_groups@).contains("render"@),
        r.has_video_group == texts(r.process_groups@).contains("video"@),
        r.ready == any_usable(nodes@),
        r.message@ == access_message(nodes@.len() as int, any_usable(nodes@), r.has_render_group),
{
    let lines = match status {
        Some(t) => lines_of(t),
        None => Vec::new(),
    };
    assert(texts(lines@) =~= status_lines(crate::character_ccip::given(status)));
    let groups_status = find_line(&lines, "Groups:");
    let uid_status = find_line(&lines, "Uid:");
    let process_groups = match group_file {
        Some(t) => {
            let ids = read_group_ids(&groups_status);
            read_group_names(&lines_of(t), &ids)
        },
        None => Vec::new(),
    };
    assert(texts(process_groups@) =~= process_groups_of(
        groups_status@,
        crate::character_ccip::given(group_file),
    ));
    let has_render_group = has_name(&process_groups, "render");
    let has_video_group = has_name(&process_groups, "video");
    let usable = has_usable(nodes);
    let message = if nodes.len() == 0 {
        "no /dev/dri nodes (no Intel GPU device nodes visible)".to_owned()
    } else if !usable {
        "cannot open /dev/dri (missing render/video group or sg render at start)".to_owned()
    } else if !has_render_group {
        "/dev/dri open ok but process not in render group (may still work if root)".to_owned()
    } else {
        "render device open ok".to_owned()
    };
    GpuAccess {
        ready: usable,
        message,
        process_groups,
        has_render_group,
        has_video_group,
        uid_status,
        groups_status,
    }
}

/// Whether a session on a graphics device must not be tried, and why.
pub fn gpu_block(device: &str, access: &GpuAccess) -> (r: Option<String>)
    ensures
        crate::character_ccip::held(r) == (if crate::character_ccip::is_gpu(device@)
            && !access.ready {
            Some("OpenVINO device_type="@ + device@ + " blocked: "@ + access.message@)
        } else {
            None
        }),
{
    if crate::character_ccip::wants_gpu(device) && !access.ready {
        let mut out = "OpenVINO device_type=".to_owned();
        out.append(device);
        out.append(" blocked: ");
        out.append(&access.message);
        Some(out)
    } else {
        None
    }
}

/// The length of the first word of a text that begins with one.
proof fn lemma_first_word(word: Seq<char>, rest: Seq<char>)
    requires
        forall|i: int| 0 <= i < word.len() ==> !white_space(#[trigger] word[i]),
        rest.len() == 0 || white_space(rest[0]),
    ensures
        word_len(word + rest) == word.len(),
    decreases word.len(),
{
    let s = word + rest;
    if word.len() > 0 {
        assert(s[0] == word[0]);
        assert(s.skip(1) =~= word.skip(1) + rest);
        assert forall|i: int| 0 <= i < word.skip(1).len() implies !white_space(
            #[trigger] word.skip(1)[i],
        ) by {
            assert(word.skip(1)[i] == word[i + 1]);
        }
        lemma_first_word(word.skip(1), rest);
    } else {
        assert(s =~= rest);
    }
}

/// The first word of a text has no white space, and is followed by some or by nothing.
proof fn lemma_word(s: Seq<char>)
    ensures
        0 <= word_len(s) <= s.len(),
        forall|i: int| 0 <= i < word_len(s) ==> !white_space(#[trigger] s[i]),
        word_len(s) < s.len() ==> white_space(s[word_len(s)]),
    decreases s.len(),
{
    if s.len() > 0 && !white_space(s[0]) {
        let t = s.skip(1);
        lemma_word(t);
        assert forall|i: int| 0 <= i < word_len(s) implies !white_space(#[trigger] s[i]) by {
            if i > 0 {
                assert(s[i] == t[i - 1]);
            }
        }
        if word_len(s) < s.len() {
            assert(t[word_len(t)] == s[word_len(s)]);
        }
    }
}

/// The words of two texts with white space between them are the words of the first and then
/// those of the second.
pub proof fn white_space_parts_words(a: Seq<char>, gap: Seq<char>, b: Seq<char>)
    requires
        gap.len() > 0,
        forall|i: int| 0 <= i < gap.len() ==> white_space(#[trigger] gap[i]),
    ensures
        text_words(a + gap + b) == text_words(a) + text_words(b),
    decreases a.len() + gap.len(),
{
    let s = a + gap + b;
    if a.len() == 0 {
        assert(s[0] == gap[0]);
        let rest = gap.skip(1);
        if rest.len() > 0 {
            assert forall|i: int| 0 <= i < rest.len() implies white_space(#[trigger] rest[i]) by {
                assert(rest[i] == gap[i + 1]);
            }
            assert(s.skip(1) =~= a + rest + b);
            white_space_parts_words(a, rest, b);
        } else {
            assert(s.skip(1) =~= b);
        }
        assert(text_words(s) =~= text_words(a) + text_words(b));
    } else if white_space(a[0]) {
        assert(s[0] == a[0]);
        assert(s.skip(1) =~= a.skip(1) + gap + b);
        white_space_parts_words(a.skip(1), gap, b);
    } else {
        assert(s[0] == a[0]);
        let n = word_len(a);
        lemma_word(a);
        let word = a.take(n);
        let rest = a.skip(n) + gap + b;
        assert(s =~= word + rest);
        assert forall|i: int| 0 <= i < word.len() implies !white_space(#[trigger] word[i]) by {
            assert(word[i] == a[i]);
        }
        assert(white_space(rest[0])) by {
            if n < a.len() {
                assert(rest[0] == a[n]);
            } else {
                assert(rest[0] == gap[0]);
            }
        }
        lemma_first_word(word, rest);
        assert(s.take(n) =~= word);
        assert(s.skip(n) =~= a.skip(n) + gap + b);
        white_space_parts_words(a.skip(n), gap, b);
        assert(text_words(s) =~= text_words(a) + text_words(b));
    }
}

/// A text without white space is one word.
pub proof fn words_stand_alone(word: Seq<char>)
    requires
        word.len() > 0,
        forall|i: int| 0 <= i < word.len() ==> !white_space(#[trigger] word[i]),
    ensures
        text_words(word) == seq![word],
{
    lemma_first_word(word, Seq::empty());
    assert(word + Seq::<char>::empty() =~= word);
    let n = word.len() as int;
    assert(word.take(n) =~= word);
    assert(word.skip(n) =~= Seq::<char>::empty());
    assert(text_words(word.skip(n)) =~= Seq::<Seq<char>>::empty());
    assert(text_words(word) =~= seq![word]);
}

/// Each number behind the first word of a line of groups is a group of the process.
pub proof fn group_numbers_are_read(line: Seq<char>, gap: Seq<char>, n: u32)
    requires
        text_words(line).len() > 0,
        gap.len() > 0,
        forall|i: int| 0 <= i < gap.len() ==> white_space(#[trigger] gap[i]),
    ensures
        group_ids(line + gap + crate::text::decimal(n as nat)) == group_ids(line).push(n as int),
{
    let d = crate::text::decimal(n as nat);
    crate::text::lemma_decimal_value(n as nat);
    assert forall|i: int| 0 <= i < d.len() implies !white_space(#[trigger] d[i]) by {
        assert(crate::text::digit(d[i]));
    }
    white_space_parts_words(line, gap, d);
    words_stand_alone(d);
    let words = text_words(line);
    let all = text_words(line + gap + d);
    assert(all =~= words.push(d));
    assert(all.skip(1) =~= words.skip(1).push(d));
    assert(all.skip(1).drop_last() =~= words.skip(1));
    crate::text_laws::numbers_read_back(n as int);
}

/// The first word of a line of groups is no group.
pub proof fn labels_are_no_groups(word: Seq<char>)
    requires
        word.len() > 0,
        forall|i: int| 0 <= i < word.len() ==> !white_space(#[trigger] word[i]),
    ensures
        group_ids(word).len() == 0,
{
    words_stand_alone(word);
    assert(seq![word].skip(1) =~= Seq::<Seq<char>>::empty());
}

/// A line of the group file names its group where the process is in the group of its third
/// field, and no other line does.
pub proof fn groups_are_named_by_number(
    lines: Seq<Seq<char>>,
    ids: Seq<int>,
    name: Seq<char>,
    password: Seq<char>,
    id: u32,
    members: Seq<char>,
)
    requires
        !name.contains(':'),
        !password.contains(':'),
        !members.contains(':'),
    ensures
        ({
            let line = crate::text::joined(
                seq![name, password, crate::text::decimal(id as nat), members],
                seq![':'],
            );
            group_names(lines.push(line), ids) == if ids.contains(id as int) {
                group_names(lines, ids).push(name)
            } else {
                group_names(lines, ids)
            }
        }),
{
    let d = crate::text::decimal(id as nat);
    crate::text::lemma_decimal_value(id as nat);
    assert(!d.contains(':')) by {
        if d.contains(':') {
            let i = d.index_of(':');
            assert(crate::text::digit(d[i]));
        }
    }
    let parts = seq![name, password, d, members];
    crate::folder_archive::lemma_split_join(parts, ':');
    crate::text_laws::numbers_read_back(id as int);
    let line = crate::text::joined(parts, seq![':']);
    assert(split(line, ':')[2] == d);
    assert(lines.push(line).drop_last() =~= lines);
}

/// The last line that begins with a word is taken, and nothing where none does.
pub proof fn the_last_such_line_is_taken(lines: Seq<Seq<char>>, prefix: Seq<char>, k: int)
    requires
        -1 <= k < lines.len(),
        k >= 0 ==> starts_with(lines[k], prefix),
        forall|i: int| k < i < lines.len() ==> !starts_with(#[trigger] lines[i], prefix),
    ensures
        last_line_with(lines, prefix) == if k >= 0 {
            lines[k]
        } else {
            Seq::empty()
        },
    decreases lines.len(),
{
    if lines.len() > 0 && k < lines.len() - 1 {
        let d = lines.drop_last();
        assert(!starts_with(lines[lines.len() - 1], prefix));
        assert forall|i: int| k < i < d.len() implies !starts_with(#[trigger] d[i], prefix) by {
            assert(d[i] == lines[i]);
        }
        the_last_such_line_is_taken(d, prefix, k);
    }
}

/// Lines that end in a line feed, with a carriage return in front of it or without, are the
/// lines of a text.
pub proof fn lines_end_in_line_feeds(lines: Seq<Seq<char>>)
    requires
        forall|i: int|
            0 <= i < lines.len() ==> !(#[trigger] lines[i]).contains('\n') && !(lines[i].len() > 0
                && lines[i].last() == '\r'),
    ensures
        text_lines(crate::text::joined(lines.push(Seq::empty()), seq!['\n'])) == lines,
        text_lines(
            crate::text::joined(
                lines.map_values(|l: Seq<char>| l.push('\r')).push(Seq::empty()),
                seq!['\n'],
            ),
        ) == lines,
        lines.len() > 0 && lines.last().len() > 0 ==> text_lines(
            crate::text::joined(lines, seq!['\n']),
        ) == lines,
{
    let ended = lines.push(Seq::empty());
    assert forall|i: int| 0 <= i < ended.len() implies !(#[trigger] ended[i]).contains('\n') by {
        if i < lines.len() {
            assert(ended[i] == lines[i]);
        }
    }
    crate::folder_archive::lemma_split_join(ended, '\n');
    assert(text_lines(crate::text::joined(ended, seq!['\n'])) =~= lines);
    let returned = lines.map_values(|l: Seq<char>| l.push('\r'));
    let all = returned.push(Seq::empty());
    assert forall|i: int| 0 <= i < all.len() implies !(#[trigger] all[i]).contains('\n') by {
        if i < lines.len() {
            assert(all[i] == lines[i].push('\r'));
            if all[i].contains('\n') {
                let k = all[i].index_of('\n');
                assert(lines[i][k] == '\n');
                assert(lines[i].contains('\n'));
            }
        }
    }
    crate::folder_archive::lemma_split_join(all, '\n');
    let found = text_lines(crate::text::joined(all, seq!['\n']));
    assert forall|i: int| 0 <= i < lines.len() implies #[trigger] found[i] == lines[i] by {
        assert(all.drop_last()[i] == lines[i].push('\r'));
        assert(lines[i].push('\r').drop_last() =~= lines[i]);
    }
    assert(found =~= lines);
    if lines.len() > 0 && lines.last().len() > 0 {
        crate::folder_archive::lemma_split_join(lines, '\n');
        assert(text_lines(crate::text::joined(lines, seq!['\n'])) =~= lines);
    }
}

/// A render node or a card that can be opened makes the graphics device usable; one that
/// cannot be opened does not, nor does a node of another name.
pub proof fn openable_nodes_are_usable(name: Seq<char>, rest: Seq<char>, open_ok: bool)
    ensures
        usable_node("renderD"@ + rest, open_ok) == open_ok,
        usable_node("card"@ + rest, open_ok) == open_ok,
        name.len() > 0 && name[0] != 'r' && name[0] != 'c' ==> !usable_node(name, open_ok),
{
    reveal_strlit("renderD");
    reveal_strlit("card");
    crate::text_laws::parts_are_found("renderD"@, rest, Seq::empty());
    crate::text_laws::parts_are_found("card"@, rest, Seq::empty());
    if starts_with(name, "renderD"@) {
        assert(name.take(7)[0] == name[0]);
    }
    if starts_with(name, "card"@) {
        assert(name.take(4)[0] == name[0]);
    }
}

/// The device is usable where one of its nodes is, and the message tells what is missing:
/// nodes, the right to open them, or the group.
pub proof fn access_is_told_by_what_is_missing(nodes: Seq<DriNode>, i: int, in_group: bool)
    requires
        0 <= i < nodes.len(),
    ensures
        usable_node(nodes[i].name@, nodes[i].open_ok) ==> any_usable(nodes),
        !any_usable(Seq::empty()),
        (forall|j: int| 0 <= j < nodes.len() ==> !(#[trigger] nodes[j]).open_ok) ==> !any_usable(
            nodes,
        ),
        access_message(nodes.len() as int, true, true) == "render device open ok"@,
        access_message(0, any_usable(Seq::empty()), in_group)
            == "no /dev/dri nodes (no Intel GPU device nodes visible)"@,
        access_message(nodes.len() as int, false, in_group)
            == "cannot open /dev/dri (missing render/video group or sg render at start)"@,
        access_message(nodes.len() as int, true, false)
            == "/dev/dri open ok but process not in render group (may still work if root)"@,
{
}

/// The groups of a process are named only where the group file can be read.
pub proof fn groups_need_their_file(line: Seq<char>, file: Seq<char>)
    ensures
        process_groups_of(line, None).len() == 0,
        process_groups_of(line, Some(file)) == group_names(text_lines(file), group_ids(line)),
        status_lines(None).len() == 0,
        status_lines(Some(file)) == text_lines(file),
{
}

}
