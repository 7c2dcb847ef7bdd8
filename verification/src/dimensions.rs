//! The pixel sizes of images and videos.

use vstd::prelude::*;
use crate::tables::{kept, pick_rows, picked};
use crate::text::{
    find_char, index_of, lower, parsed_within, read_unsigned, same_text, sub_chars, trim_text,
    trimmed,
};

verus! {

/// The largest batch.
pub const MAX_BATCH_SIZE: i64 = 64;

/// How much of an image is read before its size is looked for.
pub const IMAGE_DIMENSION_READ_LIMIT: u64 = 1048576;

/// The size that the `image` crate finds in the bytes of an image.
pub uninterp spec fn image_size(bytes: Seq<u8>) -> Option<(int, int)>;

/// `image::ImageReader` on bytes, with the format guessed from their first ones:
/// the width and height of the image, or `None` where the format is unknown or
/// its header cannot be read. What the bytes have to be like is not spelled out:
/// the outcome has a name. No hook for other formats is registered.
#[verifier::external_body]
fn decode_dimensions(bytes: &[u8]) -> (r: Option<(u32, u32)>)
    ensures
        match r {
            Some(d) => image_size(bytes@) == Some((d.0 as int, d.1 as int)),
            None => image_size(bytes@) is None,
        },
{
    let reader = image::ImageReader::new(std::io::Cursor::new(bytes));
    match reader.with_guessed_format() {
        Ok(reader) => reader.into_dimensions().ok(),
        Err(_) => None,
    }
}

/// The width and height of an image from its bytes.
pub fn image_dimensions_from_reader(bytes: &[u8]) -> (r: Option<(u32, u32)>)
    ensures
        match r {
            Some(d) => image_size(bytes@) == Some((d.0 as int, d.1 as int)),
            None => image_size(bytes@) is None,
        },
{
    decode_dimensions(bytes)
}

/// The part of an image that is read before its size is looked for.
pub fn read_prefix(bytes: &[u8], limit: usize) -> (r: Vec<u8>)
    ensures
        r@ == (if bytes@.len() <= limit {
            bytes@
        } else {
            bytes@.take(limit as int)
        }),
{
    let n: usize = if bytes.len() <= limit {
        bytes.len()
    } else {
        limit
    };
    let mut out: Vec<u8> = Vec::new();
    let mut i: usize = 0;
    while i < n
        invariant
            i <= n <= bytes@.len(),
            out@ == bytes@.take(i as int),
        decreases n - i,
    {
        out.push(bytes[i]);
        assert(bytes@.take(i as int + 1) =~= bytes@.take(i as int).push(bytes@[i as int]));
        i += 1;
    }
    assert(bytes@.len() <= limit ==> bytes@.take(n as int) =~= bytes@);
    out
}

/// The width and height of an image from its first bytes: looked for there only
/// in a JPEG, whose reader else reads all of it. `None` asks for the whole image.
pub fn image_dimensions(jpeg: bool, prefix: &[u8]) -> (r: Option<(u32, u32)>)
    ensures
        match r {
            Some(d) => jpeg && image_size(prefix@) == Some((d.0 as int, d.1 as int)),
            None => !jpeg || image_size(prefix@) is None,
        },
{
    if jpeg {
        decode_dimensions(prefix)
    } else {
        None
    }
}

/// Whether a file name's extension is that of a JPEG.
pub open spec fn jpeg_name(name: Seq<char>) -> bool {
    let ext = crate::archive_ops::extension_of(name);
    lower(ext) == ".jpg"@ || lower(ext) == ".jpeg"@
}

/// Whether a file name's extension is that of a JPEG.
pub fn is_jpeg_path(name: &str) -> (r: bool)
    ensures
        r == jpeg_name(name@),
{
    let (_, ext) = crate::archive_ops::split_name(name);
    let low = crate::archive_profiles::target_key(&ext);
    same_text(&low, ".jpg") || same_text(&low, ".jpeg")
}

/// Where the size of a file is looked for.
#[derive(Clone, Copy, PartialEq, Eq, Debug, Structural)]
pub enum DimensionSource {
    /// In the image.
    Image,
    /// In the video, by another program.
    Video,
    /// Nowhere: files of other kinds have no size.
    Unsupported,
}

/// Where the size of a file is looked for.
pub fn media_dimensions(media_type: &str) -> (r: DimensionSource)
    ensures
        r == (if media_type@ == "image"@ {
            DimensionSource::Image
        } else if media_type@ == "video"@ {
            DimensionSource::Video
        } else {
            DimensionSource::Unsupported
        }),
{
    if same_text(media_type, "image") {
        DimensionSource::Image
    } else if same_text(media_type, "video") {
        DimensionSource::Video
    } else {
        DimensionSource::Unsupported
    }
}

/// Why a video has no size.
#[derive(Clone, Copy, PartialEq, Eq, Debug, Structural)]
pub enum VideoError {
    /// The program failed.
    ProbeFailed,
    /// It printed no size.
    NoDimensions,
    /// The width is no number.
    BadWidth,
    /// The height is no number.
    BadHeight,
}

impl VideoError {
    /// The message of the error.
    pub fn message(self) -> (r: &'static str)
        ensures
            r@ == (match self {
                VideoError::ProbeFailed => "ffprobe failed"@,
                VideoError::NoDimensions => "ffprobe returned no video dimensions"@,
                VideoError::BadWidth => "parse video width"@,
                VideoError::BadHeight => "parse video height"@,
            }),
    {
        match self {
            VideoError::ProbeFailed => "ffprobe failed",
            VideoError::NoDimensions => "ffprobe returned no video dimensions",
            VideoError::BadWidth => "parse video width",
            VideoError::BadHeight => "parse video height",
        }
    }
}

/// The outcome of reading a video's size from what the program printed: a width,
/// an `x` and a height.
pub open spec fn video_size(success: bool, stdout: Seq<char>) -> Result<(int, int), VideoError> {
    let t = trimmed(stdout);
    let k = index_of(t, 'x');
    if !success {
        Err(VideoError::ProbeFailed)
    } else if !(0 <= k < t.len()) {
        Err(VideoError::NoDimensions)
    } else {
        match parsed_within(t.take(k), false, 0, u32::MAX as int) {
            None => Err(VideoError::BadWidth),
            Some(w) => match parsed_within(t.skip(k + 1), false, 0, u32::MAX as int) {
                None => Err(VideoError::BadHeight),
                Some(h) => Ok((w, h)),
            },
        }
    }
}

/// Reads a video's size from what the program printed.
pub fn video_dimensions(success: bool, stdout: &str) -> (r: Result<(u32, u32), VideoError>)
    ensures
        match (r, video_size(success, stdout@)) {
            (Ok(a), Ok(b)) => (a.0 as int, a.1 as int) == b,
            (Err(a), Err(b)) => a == b,
            _ => false,
        },
{
    if !success {
        return Err(VideoError::ProbeFailed);
    }
    let t = trim_text(stdout);
    let k = find_char(&t, 0, 'x');
    assert(t@.skip(0) =~= t@);
    if k >= t.len() {
        return Err(VideoError::NoDimensions);
    }
    let width = match read_unsigned(&sub_chars(&t, 0, k), u32::MAX as u64) {
        Some(n) => n as u32,
        None => {
            return Err(VideoError::BadWidth);
        },
    };
    let height = match read_unsigned(&sub_chars(&t, k + 1, t.len()), u32::MAX as u64) {
        Some(n) => n as u32,
        None => {
            return Err(VideoError::BadHeight);
        },
    };
    Ok((width, height))
}

/// Where a batch begins and how large it is.
#[derive(Clone, Copy, PartialEq, Eq, Debug, Structural)]
pub struct BatchStart {
    /// Only rows behind this one are looked at.
    pub after_id: i64,
    /// How many rows are looked at.
    pub limit: i64,
}

/// Where a batch begins and how large it is.
pub fn batch_start(after_id: i64, requested_limit: i64) -> (r: BatchStart)
    ensures
        r.after_id == (if after_id < 0 {
            0
        } else {
            after_id as int
        }),
        r.limit == (if requested_limit < 1 {
            1
        } else if requested_limit > MAX_BATCH_SIZE {
            MAX_BATCH_SIZE as int
        } else {
            requested_limit as int
        }),
{
    BatchStart {
        after_id: if after_id < 0 {
            0
        } else {
            after_id
        },
        limit: if requested_limit < 1 {
            1
        } else if requested_limit > MAX_BATCH_SIZE {
            MAX_BATCH_SIZE
        } else {
            requested_limit
        },
    }
}

/// An item, as far as its size is concerned.
#[derive(Debug)]
pub struct SizedItem {
    /// The item.
    pub id: i64,
    /// Its kind.
    pub media_type: String,
    /// Whether its file is gone.
    pub missing: bool,
    /// Its width, 0 where it is not known.
    pub width: i64,
    /// Its height, 0 where it is not known.
    pub height: i64,
}

/// Whether the size of an item is to be found out.
pub open spec fn lacks_size(i: SizedItem) -> bool {
    !i.missing && (i.media_type@ == "image"@ || i.media_type@ == "video"@) && (i.width <= 0
        || i.height <= 0)
}

/// Whether the size of an item is to be found out.
fn is_without_size(i: &SizedItem) -> (r: bool)
    ensures
        r == lacks_size(*i),
{
    !i.missing && (same_text(&i.media_type, "image") || same_text(&i.media_type, "video")) && (
    i.width <= 0 || i.height <= 0)
}

/// Which items a batch looks at: those behind an item whose size is to be found
/// out.
pub open spec fn unmeasured(after_id: i64) -> spec_fn(SizedItem) -> Option<i64> {
    |i: SizedItem|
        if i.id > after_id && lacks_size(i) {
            Some(i.id)
        } else {
            None
        }
}

/// Chooses the items that a batch looks at, where the items come in the order of
/// their ids.
pub fn items_to_measure(items: &[SizedItem], start: BatchStart) -> (r: Vec<i64>)
    requires
        0 <= start.limit <= MAX_BATCH_SIZE,
    ensures
        r@ == picked(items@, unmeasured(start.after_id), start.limit as int),
        r@.len() <= start.limit,
{
    let ghost model = unmeasured(start.after_id);
    let due = |i: &SizedItem| -> (o: Option<i64>)
        ensures
            o == model(*i),
        {
            if i.id > start.after_id && is_without_size(i) {
                Some(i.id)
            } else {
                None
            }
        };
    pick_rows(items, due, start.limit as usize, Ghost(model))
}

/// Whether the ids of items rise.
pub open spec fn ids_rise(items: Seq<SizedItem>) -> bool {
    forall|i: int, j: int|
        0 <= i < j < items.len() ==> (#[trigger] items[i]).id < (#[trigger] items[j]).id
}

/// A batch goes on where the one before it ended: the two together, the second
/// without a limit, look at what one batch without a limit would. No item is lost
/// between them and none is looked at twice.
pub proof fn batches_resume(items: Seq<SizedItem>, after_id: i64, limit: int)
    requires
        ids_rise(items),
        picked(items, unmeasured(after_id), limit).len() > 0,
    ensures
        ({
            let batch = picked(items, unmeasured(after_id), limit);
            let all = items.len() as int;
            batch + picked(items, unmeasured(batch.last()), all) == picked(
                items,
                unmeasured(after_id),
                all,
            )
        }),
    decreases items.len(),
{
    let all = items.len() as int;
    let before = items.drop_last();
    let last = items.last();
    let batch = picked(items, unmeasured(after_id), limit);
    let former = picked(before, unmeasured(after_id), limit);
    lemma_picked_bound(before, unmeasured(after_id), all - 1);
    lemma_picked_whole(before, unmeasured(after_id), all);
    if former.len() == 0 {
        assert(batch =~= seq![last.id]);
        lemma_none_due(before, after_id, limit);
        lemma_nothing_above(items, batch.last());
        assert(picked(before, unmeasured(after_id), all) =~= Seq::<i64>::empty());
        assert(batch + picked(items, unmeasured(batch.last()), all) =~= picked(
            items,
            unmeasured(after_id),
            all,
        ));
    } else {
        batches_resume(before, after_id, limit);
        if batch.len() > former.len() {
            // The last item belongs to the batch, so all before it do.
            lemma_picked_short(before, after_id, limit);
            lemma_nothing_above(items, batch.last());
            assert(batch.last() == last.id);
            assert(batch + picked(items, unmeasured(batch.last()), all) =~= batch);
            assert(former == picked(before, unmeasured(after_id), all));
            lemma_picked_bound(before, unmeasured(after_id), all);
        } else {
            assert(batch == former);
            let end = batch.last();
            lemma_picked_whole(before, unmeasured(end), all);
            lemma_picked_bound(before, unmeasured(end), all - 1);
            lemma_picked_bound(before, unmeasured(after_id), all - 1);
            lemma_below_last(before, after_id, limit);
            assert(end < last.id);
            assert(batch + picked(items, unmeasured(end), all) =~= picked(
                items,
                unmeasured(after_id),
                all,
            ));
        }
    }
}

/// The last picked id is that of an item, and lies behind the given one.
proof fn lemma_below_last(items: Seq<SizedItem>, after_id: i64, limit: int)
    requires
        picked(items, unmeasured(after_id), limit).len() > 0,
    ensures
        picked(items, unmeasured(after_id), limit).last() > after_id,
        exists|i: int|
            0 <= i < items.len() && (#[trigger] items[i]).id == picked(
                items,
                unmeasured(after_id),
                limit,
            ).last(),
{
    let ids = picked(items, unmeasured(after_id), limit);
    assert(ids.contains(ids[ids.len() - 1]));
    crate::tables::lemma_picked(items, unmeasured(after_id), limit, ids.last());
    let i = choose|i: int|
        0 <= i < items.len() && unmeasured(after_id)(#[trigger] items[i]) == Some(ids.last());
    assert(items[i].id == ids.last());
}

/// No more is picked than there are rows.
proof fn lemma_picked_bound(
    items: Seq<SizedItem>,
    pick: spec_fn(SizedItem) -> Option<i64>,
    limit: int,
)
    ensures
        picked(items, pick, limit).len() <= items.len(),
    decreases items.len(),
{
    if items.len() > 0 {
        lemma_picked_bound(items.drop_last(), pick, limit);
    }
}

/// A limit of as many as there are rows is none.
proof fn lemma_picked_whole(
    items: Seq<SizedItem>,
    pick: spec_fn(SizedItem) -> Option<i64>,
    limit: int,
)
    requires
        items.len() <= limit,
    ensures
        picked(items, pick, limit) == picked(items, pick, items.len() as int),
    decreases items.len(),
{
    if items.len() > 0 {
        let before = items.drop_last();
        lemma_picked_whole(before, pick, limit);
        lemma_picked_whole(before, pick, items.len() as int);
        lemma_picked_bound(before, pick, limit);
        lemma_picked_bound(before, pick, items.len() as int);
    }
}

/// What does not reach the limit is all.
proof fn lemma_picked_short(items: Seq<SizedItem>, after_id: i64, limit: int)
    requires
        picked(items, unmeasured(after_id), limit).len() < limit,
    ensures
        picked(items, unmeasured(after_id), limit) == picked(
            items,
            unmeasured(after_id),
            items.len() as int,
        ),
        picked(items, unmeasured(after_id), limit) == picked(
            items,
            unmeasured(after_id),
            items.len() as int + 1,
        ),
    decreases items.len(),
{
    lemma_picked_whole(items, unmeasured(after_id), items.len() as int + 1);
    if items.len() > 0 {
        let before = items.drop_last();
        lemma_picked_short(before, after_id, limit);
        lemma_picked_whole(before, unmeasured(after_id), items.len() as int);
        lemma_picked_bound(before, unmeasured(after_id), items.len() as int);
    }
}

/// Nothing is picked behind the last id.
proof fn lemma_nothing_above(items: Seq<SizedItem>, id: i64)
    requires
        ids_rise(items),
        items.len() > 0,
        id >= items.last().id,
    ensures
        picked(items, unmeasured(id), items.len() as int) == Seq::<i64>::empty(),
    decreases items.len(),
{
    let before = items.drop_last();
    if before.len() > 0 {
        assert(before.last() == items[items.len() - 2]);
        assert(items[items.len() - 2].id < items[items.len() - 1].id);
        lemma_nothing_above(before, id);
        lemma_picked_whole(before, unmeasured(id), items.len() as int);
    }
    assert(picked(before, unmeasured(id), items.len() as int) =~= Seq::<i64>::empty());
    assert(unmeasured(id)(items.last()) is None);
}

/// Where nothing is picked under some limit, nothing is picked at all.
proof fn lemma_none_due(items: Seq<SizedItem>, after_id: i64, limit: int)
    requires
        picked(items, unmeasured(after_id), limit).len() == 0,
        limit > 0,
    ensures
        picked(items, unmeasured(after_id), items.len() as int + 1) == Seq::<i64>::empty(),
{
    lemma_picked_short(items, after_id, limit);
}

/// A row of a batch and the size that was found for it.
#[derive(Clone, Copy, PartialEq, Eq, Debug)]
pub struct DimensionRow {
    /// The row.
    pub id: i64,
    /// The size, where one was found.
    pub found: Option<(u32, u32)>,
}

/// Whether a usable size was found for a row.
pub open spec fn usable(row: DimensionRow) -> bool {
    match row.found {
        Some((w, h)) => w > 0 && h > 0,
        None => false,
    }
}

/// The rows that get a size, with their sizes.
pub open spec fn sized_rows(rows: Seq<DimensionRow>) -> Seq<(i64, u32, u32)>
    decreases rows.len(),
{
    if rows.len() == 0 {
        Seq::empty()
    } else if usable(rows.last()) {
        sized_rows(rows.drop_last()).push(
            (rows.last().id, rows.last().found->Some_0.0, rows.last().found->Some_0.1),
        )
    } else {
        sized_rows(rows.drop_last())
    }
}

/// What a batch found.
#[derive(Debug)]
pub struct DimensionBatch {
    /// The rows that get a size.
    pub updates: Vec<(i64, u32, u32)>,
    /// How many rows get none; they are looked at again in a later pass.
    pub failed: usize,
    /// Where the next batch begins.
    pub next_after_id: Option<i64>,
    /// Whether there is nothing behind this batch.
    pub cursor_done: bool,
}

/// Sums up a batch. `limit` is the number of rows that were asked for.
pub fn backfill_item_dimensions(rows: &[DimensionRow], limit: i64) -> (r: DimensionBatch)
    requires
        1 <= limit <= MAX_BATCH_SIZE,
    ensures
        r.updates@ == sized_rows(rows@),
        r.failed == rows@.len() - sized_rows(rows@).len(),
        r.next_after_id == (if rows@.len() == 0 {
            None
        } else {
            Some(rows@.last().id)
        }),
        r.cursor_done == (rows@.len() < limit),
{
    let mut updates: Vec<(i64, u32, u32)> = Vec::new();
    let mut failed: usize = 0;
    let mut i: usize = 0;
    while i < rows.len()
        invariant
            i <= rows@.len(),
            updates@ == sized_rows(rows@.take(i as int)),
            failed == i - updates@.len(),
        decreases rows@.len() - i,
    {
        assert(rows@.take(i as int + 1).drop_last() =~= rows@.take(i as int));
        let mut done: bool = false;
        match rows[i].found {
            Some((w, h)) => {
                if w > 0 && h > 0 {
                    updates.push((rows[i].id, w, h));
                    done = true;
                }
            },
            None => {},
        }
        if !done {
            failed += 1;
        }
        i += 1;
    }
    assert(rows@.take(rows@.len() as int) =~= rows@);
    DimensionBatch {
        updates,
        failed,
        next_after_id: if rows.len() == 0 {
            None
        } else {
            Some(rows[rows.len() - 1].id)
        },
        cursor_done: rows.len() < limit as usize,
    }
}

/// Whether an item gets a size.
pub open spec fn gets_size(updates: Seq<(i64, u32, u32)>, id: i64) -> bool {
    exists|k: int| 0 <= k < updates.len() && (#[trigger] updates[k]).0 == id
}

/// Whether an item gets a size.
fn is_sized(updates: &[(i64, u32, u32)], id: i64) -> (r: bool)
    ensures
        r == gets_size(updates@, id),
{
    let mut i: usize = 0;
    while i < updates.len()
        invariant
            i <= updates@.len(),
            forall|k: int| 0 <= k < i ==> (#[trigger] updates@[k]).0 != id,
        decreases updates@.len() - i,
    {
        if updates[i].0 == id {
            return true;
        }
        i += 1;
    }
    false
}

/// How many items are still without a size once a batch is written.
pub fn remaining_items(items: &[SizedItem], updates: &[(i64, u32, u32)]) -> (r: usize)
    ensures
        r == kept(items@, |i: SizedItem| lacks_size(i) && !gets_size(updates@, i.id)).len(),
{
    let ghost left = |i: SizedItem| lacks_size(i) && !gets_size(updates@, i.id);
    let mut count: usize = 0;
    let mut i: usize = 0;
    while i < items.len()
        invariant
            i <= items@.len(),
            count <= i,
            left == (|i: SizedItem| lacks_size(i) && !gets_size(updates@, i.id)),
            count == kept(items@.take(i as int), left).len(),
        decreases items@.len() - i,
    {
        assert(items@.take(i as int + 1).drop_last() =~= items@.take(i as int));
        if is_without_size(&items[i]) && !is_sized(updates, items[i].id) {
            count += 1;
        }
        i += 1;
    }
    assert(items@.take(items@.len() as int) =~= items@);
    count
}

/// An item whose size could not be found out stays due for a later pass.
pub proof fn failed_items_stay_due(rows: Seq<DimensionRow>, id: i64)
    requires
        forall|k: int| 0 <= k < rows.len() && (#[trigger] rows[k]).id == id ==> !usable(rows[k]),
    ensures
        !gets_size(sized_rows(rows), id),
    decreases rows.len(),
{
    if rows.len() > 0 {
        let before = rows.drop_last();
        assert forall|k: int| 0 <= k < before.len() && (#[trigger] before[k]).id == id implies !usable(
            before[k],
        ) by {
            assert(before[k] == rows[k]);
        }
        failed_items_stay_due(before, id);
        let former = sized_rows(before);
        let all = sized_rows(rows);
        if gets_size(all, id) {
            let k = choose|k: int| 0 <= k < all.len() && (#[trigger] all[k]).0 == id;
            if k < former.len() {
                assert(former[k] == all[k]);
            } else {
                assert(rows[rows.len() - 1].id == id);
            }
        }
    }
}

/// Whether the backfill is complete.
pub fn backfill_is_complete(remaining: i64) -> (r: bool)
    ensures
        r == (remaining == 0),
{
    remaining == 0
}

/// A video's width and height, as the probe writes them with an `x` between, read back, with
/// white space around them or without; where the probe failed nothing is read.
pub proof fn video_sizes_read_back(width: u32, height: u32, front: Seq<char>, back: Seq<char>)
    requires
        forall|i: int| 0 <= i < front.len() ==> crate::text::white_space(#[trigger] front[i]),
        forall|i: int| 0 <= i < back.len() ==> crate::text::white_space(#[trigger] back[i]),
    ensures
        ({
            let (w, h) = (
                crate::text::decimal(width as nat),
                crate::text::decimal(height as nat),
            );
            let text = front + (w + seq!['x'] + h) + back;
            &&& video_size(true, text) == Ok::<(int, int), VideoError>(
                (width as int, height as int),
            )
            &&& video_size(false, text) == Err::<(int, int), VideoError>(VideoError::ProbeFailed)
        }),
{
    let (w, h) = (crate::text::decimal(width as nat), crate::text::decimal(height as nat));
    crate::text::lemma_decimal_value(width as nat);
    crate::text::lemma_decimal_value(height as nat);
    let t = w + seq!['x'] + h;
    assert(crate::text::digit(w[0]) && crate::text::digit(h[h.len() - 1]));
    assert(t[0] == w[0] && t.last() == h.last());
    crate::text_laws::trimming_takes_the_white_ends(front, t, back);
    assert forall|i: int| 0 <= i < w.len() implies t[i] != 'x' by {
        assert(t[i] == w[i]);
        assert(crate::text::digit(w[i]));
    }
    assert(t[w.len() as int] == 'x');
    crate::text::lemma_index_of_unique(t, 'x', w.len() as int);
    assert(t.take(w.len() as int) =~= w);
    assert(t.skip(w.len() as int + 1) =~= h);
    crate::text_laws::numbers_read_back(width as int);
    crate::text_laws::numbers_read_back(height as int);
}

/// Text without an `x` tells no size of a video.
pub proof fn sizes_need_their_mark(stdout: Seq<char>)
    requires
        !stdout.contains('x'),
    ensures
        video_size(true, stdout) == Err::<(int, int), VideoError>(VideoError::NoDimensions),
{
    let t = trimmed(stdout);
    crate::text::lemma_index_of(t, 'x');
    let k = index_of(t, 'x');
    if 0 <= k < t.len() {
        crate::text::lemma_trim_subset(stdout, crate::text::CharClass::White);
        assert(stdout.contains(t[k]));
    }
}

/// Every row with a size above zero both ways becomes an update with that size, in order, and
/// the others do not.
pub proof fn found_sizes_are_stored(rows: Seq<DimensionRow>, id: i64, width: u32, height: u32)
    ensures
        sized_rows(rows).contains((id, width, height)) <==> exists|k: int|
            0 <= k < rows.len() && (#[trigger] rows[k]) == (DimensionRow {
                id,
                found: Some((width, height)),
            }) && width > 0 && height > 0,
    decreases rows.len(),
{
    let all = sized_rows(rows);
    let row = (id, width, height);
    let whole = DimensionRow { id, found: Some((width, height)) };
    if rows.len() > 0 {
        let d = rows.drop_last();
        let before = sized_rows(d);
        found_sizes_are_stored(d, id, width, height);
        if all.contains(row) {
            let k = all.index_of(row);
            if k < before.len() {
                assert(before[k] == row);
                assert(before.contains(row));
                let j = choose|j: int| 0 <= j < d.len() && (#[trigger] d[j]) == whole;
                assert(rows[j] == whole);
            } else {
                assert(rows[rows.len() - 1] == whole);
            }
        }
        if width > 0 && height > 0 && exists|k: int|
            0 <= k < rows.len() && (#[trigger] rows[k]) == whole {
            let k = choose|k: int| 0 <= k < rows.len() && (#[trigger] rows[k]) == whole;
            if k < d.len() {
                assert(d[k] == whole);
                assert(before.contains(row));
                let j = before.index_of(row);
                assert(all[j] == row);
            } else {
                assert(all[before.len() as int] == row);
            }
        }
    }
}

/// The items to measure are images and videos that are there, lack a size and come behind the
/// start; with room left, all of them.
pub proof fn measured_items_lack_a_size(
    items: Seq<SizedItem>,
    after_id: i64,
    limit: int,
    i: int,
)
    requires
        0 <= i < items.len(),
    ensures
        ({
            let it = items[i];
            let batch = picked(items, unmeasured(after_id), limit);
            !it.missing && (it.media_type@ == "image"@ || it.media_type@ == "video"@) && (it.width
                <= 0 || it.height <= 0) && it.id > after_id && batch.len() < limit
                ==> batch.contains(it.id)
        }),
        forall|id: i64| #[trigger]
            picked(items, unmeasured(after_id), limit).contains(id) ==> id > after_id,
{
    let batch = picked(items, unmeasured(after_id), limit);
    if unmeasured(after_id)(items[i]) is Some && batch.len() < limit {
        crate::tables::short_picks_take_everything(items, unmeasured(after_id), limit, i);
    }
    assert forall|id: i64| #[trigger] batch.contains(id) implies id > after_id by {
        crate::tables::lemma_picked(items, unmeasured(after_id), limit, id);
        let k = choose|k: int|
            0 <= k < items.len() && unmeasured(after_id)(#[trigger] items[k]) == Some(id);
    }
}

}
