//! The database pool, the statistics that its query planner works with, and the
//! small repairs of a start-up.

use vstd::prelude::*;
use crate::folder_archive::{join_path, path_joined};
use crate::json::{Json, JsonTree};
use crate::paths::behind_last_slash;
use crate::tables::kept;
use crate::text::{
    chars_of, decimal_int, decimal_int_text, digit, has_prefix, lemma_decimal_value,
    lemma_trim_fixed, parsed_within, read_i64, read_unsigned, replace_char, replaced, same_text,
    starts_with, sub_chars, text_of, texts, trim_end_chars, trim_end_of, trim_text, trimmed,
    CharClass,
};

verus! {

/// The largest number of connections that a pool may have.
pub const MAX_POOL_SIZE: usize = 32;

/// How a pool is set up.
#[derive(Clone, Copy, PartialEq, Eq, Debug, Structural)]
pub struct DbConfig {
    /// Whether its connections only read.
    pub read_only: bool,
    /// How many connections it may have.
    pub pool_size: usize,
}

/// The connections of a pool, by number. Those that are not idle are in use.
#[derive(Clone, Copy, PartialEq, Eq, Debug, Structural)]
pub struct PoolState {
    /// How many are idle.
    pub idle: usize,
    /// How many there are.
    pub live: usize,
    /// How many there may be.
    pub size: usize,
}

/// What somebody who wants a connection is to do.
#[derive(Clone, Copy, PartialEq, Eq, Debug, Structural)]
pub enum Checkout {
    /// Take one of the idle connections.
    TakeIdle,
    /// Open another one.
    Open,
    /// Wait until one is given back.
    Wait,
}

/// The size that a pool gets.
pub open spec fn pool_size_of(wanted: int) -> int {
    if wanted < 1 {
        1
    } else if wanted > MAX_POOL_SIZE {
        MAX_POOL_SIZE as int
    } else {
        wanted
    }
}

impl PoolState {
    /// A pool never has more connections than it may, and no idle connection
    /// that it does not have.
    pub open spec fn inv(self) -> bool {
        self.idle <= self.live <= self.size && 1 <= self.size <= MAX_POOL_SIZE
    }

    /// A pool with all of its connections open and idle.
    pub fn with_config(config: DbConfig) -> (r: PoolState)
        ensures
            r.inv(),
            r.size == pool_size_of(config.pool_size as int),
            r.idle == r.size,
            r.live == r.size,
    {
        let size: usize = if config.pool_size < 1 {
            1
        } else if config.pool_size > MAX_POOL_SIZE {
            MAX_POOL_SIZE
        } else {
            config.pool_size
        };
        PoolState { idle: size, live: size, size }
    }

    /// What somebody who wants a connection is to do. An idle connection is taken
    /// at once; another one is opened only below the limit.
    pub fn get(&mut self) -> (r: Checkout)
        requires
            old(self).inv(),
        ensures
            final(self).inv(),
            final(self).size == old(self).size,
            final(self).live == old(self).live,
            r == (if old(self).idle > 0 {
                Checkout::TakeIdle
            } else if old(self).live >= old(self).size {
                Checkout::Wait
            } else {
                Checkout::Open
            }),
            final(self).idle == (if old(self).idle > 0 {
                old(self).idle - 1
            } else {
                0
            }),
            r is TakeIdle <==> final(self).idle + 1 == old(self).idle,
            r is Open ==> old(self).idle == 0 && old(self).live < old(self).size,
            r is Wait ==> old(self).idle == 0 && old(self).live == old(self).size,
    {
        if self.idle > 0 {
            self.idle = self.idle - 1;
            Checkout::TakeIdle
        } else if self.live >= self.size {
            Checkout::Wait
        } else {
            Checkout::Open
        }
    }

    /// Counts a connection that was opened.
    pub fn opened(&mut self)
        requires
            old(self).inv(),
            old(self).live < old(self).size,
        ensures
            final(self).inv(),
            final(self).live == old(self).live + 1,
            final(self).idle == old(self).idle,
            final(self).size == old(self).size,
            final(self).live - final(self).idle == old(self).live - old(self).idle + 1,
    {
        self.live = self.live + 1;
    }

    /// Takes a connection back. One that could not be brought out of its open
    /// transaction is closed, and so is one too many.
    pub fn give_back(&mut self, clean: bool) -> (r: bool)
        requires
            old(self).inv(),
            old(self).idle < old(self).live,
        ensures
            final(self).inv(),
            final(self).size == old(self).size,
            r == clean,
            final(self).idle == (if clean {
                old(self).idle + 1
            } else {
                old(self).idle as int
            }),
            final(self).live == (if clean {
                old(self).live as int
            } else {
                old(self).live - 1
            }),
            final(self).live - final(self).idle == old(self).live - old(self).idle - 1,
            clean <==> final(self).idle > old(self).idle,
            !clean <==> final(self).live < old(self).live,
    {
        if !clean {
            self.live = self.live - 1;
            return false;
        }
        if self.idle < self.size {
            self.idle = self.idle + 1;
            true
        } else {
            self.live = self.live - 1;
            false
        }
    }
}

/// Whether waiting for a connection is over: the time is up, and nothing came.
pub fn wait_is_over(now: u128, deadline: u128, woke_by_timeout: bool, idle: usize) -> (r: bool)
    ensures
        r == ((woke_by_timeout && idle == 0) || (!woke_by_timeout && now >= deadline)),
{
    if woke_by_timeout {
        idle == 0
    } else {
        now >= deadline
    }
}

/// A number among the settings of the environment, or its default where it is
/// missing or no such number.
pub open spec fn number_setting(value: Option<Seq<char>>, default: int) -> int {
    match value {
        Some(v) => match parsed_within(trimmed(v), false, 0, u64::MAX as int) {
            Some(n) => n,
            None => default,
        },
        None => default,
    }
}

/// A number among the settings of the environment.
pub fn read_number_setting(value: Option<&str>, default: u64) -> (r: u64)
    ensures
        r == number_setting(
            match value {
                Some(v) => Some(v@),
                None => None,
            },
            default as int,
        ),
{
    match value {
        Some(v) => match read_unsigned(&trim_text(v), u64::MAX) {
            Some(n) => n,
            None => default,
        },
        None => default,
    }
}

/// A signed number among the settings of the environment, or its default.
pub open spec fn signed_setting(value: Option<Seq<char>>, default: int) -> int {
    match value {
        Some(v) => match parsed_within(trimmed(v), true, i64::MIN as int, i64::MAX as int) {
            Some(n) => n,
            None => default,
        },
        None => default,
    }
}

/// A signed number among the settings of the environment.
pub fn read_signed_setting(value: Option<&str>, default: i64) -> (r: i64)
    ensures
        r == signed_setting(
            match value {
                Some(v) => Some(v@),
                None => None,
            },
            default as int,
        ),
{
    match value {
        Some(v) => match read_i64(&trim_text(v)) {
            Some(n) => n,
            None => default,
        },
        None => default,
    }
}

/// How long somebody waits for a connection, in milliseconds.
pub fn pool_acquire_timeout(value: Option<&str>) -> (r: u64)
    ensures
        r == number_setting(
            match value {
                Some(v) => Some(v@),
                None => None,
            },
            10000,
        ),
{
    read_number_setting(value, 10000)
}

/// How long a connection waits for a lock by default, in milliseconds.
pub const DEFAULT_SQLITE_BUSY_TIMEOUT_MS: u64 = 30000;

/// The settings of a connection.
#[derive(Clone, Copy, PartialEq, Eq, Debug, Structural)]
pub struct ConnectionSettings {
    /// How long it waits for a lock, in milliseconds.
    pub busy_timeout: u64,
    /// How large its journal may stay.
    pub journal_size_limit: i64,
    /// How much of the database it maps.
    pub mmap_size: i64,
}

/// Reads the settings of a connection.
pub fn configure_connection(
    busy_timeout: Option<&str>,
    journal_size_limit: Option<&str>,
    mmap_size: Option<&str>,
) -> (r: ConnectionSettings)
    ensures
        r.busy_timeout == number_setting(
            match busy_timeout {
                Some(v) => Some(v@),
                None => None,
            },
            DEFAULT_SQLITE_BUSY_TIMEOUT_MS as int,
        ),
        r.journal_size_limit == signed_setting(
            match journal_size_limit {
                Some(v) => Some(v@),
                None => None,
            },
            67108864,
        ),
        r.mmap_size == signed_setting(
            match mmap_size {
                Some(v) => Some(v@),
                None => None,
            },
            268435456,
        ),
{
    ConnectionSettings {
        busy_timeout: read_number_setting(busy_timeout, DEFAULT_SQLITE_BUSY_TIMEOUT_MS),
        journal_size_limit: read_signed_setting(journal_size_limit, 67108864),
        mmap_size: read_signed_setting(mmap_size, 268435456),
    }
}

/// Whether a text is nothing but white space.
pub open spec fn blank(s: Seq<char>) -> bool {
    trimmed(s).len() == 0
}

/// The path of the database: the one that is named, where it is not blank, else
/// in the data folder.
pub open spec fn db_path_of(named: Option<Seq<char>>, data_dir: Option<Seq<char>>) -> Seq<char> {
    let base = match data_dir {
        Some(d) => d,
        None => "data"@,
    };
    match named {
        Some(p) => if blank(p) {
            path_joined(base, "gallery.db"@)
        } else {
            p
        },
        None => path_joined(base, "gallery.db"@),
    }
}

/// The path of the database.
pub fn env_db_path(named: Option<&str>, data_dir: Option<&str>) -> (r: String)
    ensures
        r@ == db_path_of(
            match named {
                Some(p) => Some(p@),
                None => None,
            },
            match data_dir {
                Some(d) => Some(d@),
                None => None,
            },
        ),
{
    match named {
        Some(p) => {
            if trim_text(p).len() > 0 {
                return p.to_owned();
            }
        },
        None => {},
    }
    match data_dir {
        Some(d) => join_path(d, "gallery.db"),
        None => join_path("data", "gallery.db"),
    }
}

/// The change of a row count, in either direction, that makes statistics
/// unrepresentative.
pub const STATS_REFRESH_FACTOR: i64 = 4;

/// A row count times the refresh factor, as far as it can be counted.
pub open spec fn scaled(n: int) -> int {
    if n * STATS_REFRESH_FACTOR > i64::MAX {
        i64::MAX as int
    } else if n * STATS_REFRESH_FACTOR < i64::MIN {
        i64::MIN as int
    } else {
        n * STATS_REFRESH_FACTOR
    }
}

/// Whether a row count is close enough to the one that was analyzed. An empty
/// table that was analyzed stays current as long as it is empty.
pub open spec fn current(live: int, analyzed: int) -> bool {
    if analyzed == 0 {
        live == 0
    } else {
        live < scaled(analyzed) && scaled(live) > analyzed
    }
}

/// A row count times the refresh factor.
fn scale(n: i64) -> (r: i64)
    ensures
        r == scaled(n as int),
{
    let wide: i128 = (n as i128) * (STATS_REFRESH_FACTOR as i128);
    if wide > i64::MAX as i128 {
        i64::MAX
    } else if wide < i64::MIN as i128 {
        i64::MIN
    } else {
        wide as i64
    }
}

/// Whether a row count is close enough to the one that was analyzed.
pub fn cardinality_is_current(live: i64, analyzed: i64) -> (r: bool)
    ensures
        r == current(live as int, analyzed as int),
{
    if analyzed == 0 {
        live == 0
    } else {
        live < scale(analyzed) && scale(live) > analyzed
    }
}

/// Growing to four times the rows, or shrinking to a quarter of them, makes
/// statistics out of date; anything in between does not.
pub proof fn statistics_age_both_ways(live: int, analyzed: int)
    requires
        0 < analyzed < i64::MAX,
        0 <= live < i64::MAX,
    ensures
        current(live, analyzed) <==> analyzed < 4 * live && live < 4 * analyzed,
{
}

/// Statistics are current for the rows that they were collected for.
pub proof fn fresh_statistics_are_current(rows: int)
    requires
        0 <= rows < i64::MAX,
    ensures
        current(rows, rows),
{
}

/// Whether the recorded statistics still represent the library: both counts have
/// to be recorded and close enough.
pub open spec fn stats_current(
    analyzed_items: Option<i64>,
    analyzed_item_tags: Option<i64>,
    live_items: i64,
    live_item_tags: i64,
) -> bool {
    match (analyzed_items, analyzed_item_tags) {
        (Some(items), Some(tags)) => current(live_items as int, items as int) && current(
            live_item_tags as int,
            tags as int,
        ),
        _ => false,
    }
}

/// Whether the recorded statistics still represent the library.
pub fn query_planner_stats_are_current(
    analyzed_items: Option<i64>,
    analyzed_item_tags: Option<i64>,
    live_items: i64,
    live_item_tags: i64,
) -> (r: bool)
    ensures
        r == stats_current(analyzed_items, analyzed_item_tags, live_items, live_item_tags),
{
    match (analyzed_items, analyzed_item_tags) {
        (Some(items), Some(tags)) => cardinality_is_current(live_items, items)
            && cardinality_is_current(live_item_tags, tags),
        _ => false,
    }
}

/// The count that a stored setting holds.
pub open spec fn count_in(value: Option<Seq<char>>) -> Option<i64> {
    match value {
        None => None,
        Some(v) => match parsed_within(trimmed(v), true, i64::MIN as int, i64::MAX as int) {
            Some(n) => Some(n as i64),
            None => None,
        },
    }
}

/// The text of a stored setting.
pub open spec fn setting_text(value: Option<&str>) -> Option<Seq<char>> {
    match value {
        Some(v) => Some(v@),
        None => None,
    }
}

/// The count that a stored setting holds.
pub fn recorded_setting_count(value: Option<&str>) -> (r: Option<i64>)
    ensures
        r == count_in(setting_text(value)),
{
    match value {
        Some(v) => read_i64(&trim_text(v)),
        None => None,
    }
}

/// What the settings of the statistics hold once they were collected anew.
#[derive(Debug)]
pub struct StatsRecord {
    /// How many items there were.
    pub items: String,
    /// How many tags of items there were.
    pub item_tags: String,
}

/// Decides whether the statistics are collected anew, by what the two settings hold and
/// how many rows there are now: where they are, the counts are recorded.
pub fn ensure_query_planner_stats(
    analyzed_items: Option<&str>,
    analyzed_item_tags: Option<&str>,
    live_items: i64,
    live_item_tags: i64,
) -> (r: Option<StatsRecord>)
    ensures
        r is None <==> stats_current(
            count_in(setting_text(analyzed_items)),
            count_in(setting_text(analyzed_item_tags)),
            live_items,
            live_item_tags,
        ),
        r matches Some(record) ==> record.items@ == decimal_int(live_items as int)
            && record.item_tags@ == decimal_int(live_item_tags as int),
{
    let items: Option<i64> = recorded_setting_count(analyzed_items);
    let item_tags: Option<i64> = recorded_setting_count(analyzed_item_tags);
    if query_planner_stats_are_current(items, item_tags, live_items, live_item_tags) {
        None
    } else {
        Some(
            StatsRecord {
                items: decimal_int_text(live_items),
                item_tags: decimal_int_text(live_item_tags),
            },
        )
    }
}

/// A count that was recorded is read back.
pub proof fn recorded_counts_read_back(n: i64)
    requires
        n >= 0,
    ensures
        count_in(Some(decimal_int(n as int))) == Some(n),
{
    let s = decimal_int(n as int);
    lemma_decimal_value(n as nat);
    assert(digit(s[0]) && digit(s[s.len() - 1]));
    lemma_trim_fixed(s, CharClass::White);
    assert(trimmed(s) == s);
}

/// Statistics that were collected are not collected again while the library stays as it
/// is, not even for an empty one.
pub proof fn unchanged_libraries_are_analyzed_once(items: i64, item_tags: i64)
    requires
        0 <= items < i64::MAX,
        0 <= item_tags < i64::MAX,
    ensures
        stats_current(
            count_in(Some(decimal_int(items as int))),
            count_in(Some(decimal_int(item_tags as int))),
            items,
            item_tags,
        ),
{
    recorded_counts_read_back(items);
    recorded_counts_read_back(item_tags);
    fresh_statistics_are_current(items as int);
    fresh_statistics_are_current(item_tags as int);
}

/// The default interval between two looks at the library, in nanoseconds.
pub const DEFAULT_STATS_REFRESH_INTERVAL: u128 = 60000000000;

/// A gate that lets statistics be refreshed at most once in an interval. Times
/// are in nanoseconds of a clock that does not go back.
#[derive(Clone, Copy, PartialEq, Eq, Debug, Structural)]
pub struct StatsRefreshGate {
    interval: u128,
    last: Option<u128>,
}

impl StatsRefreshGate {
    /// The interval between refreshes.
    pub closed spec fn every(self) -> u128 {
        self.interval
    }

    /// When it was open last.
    pub closed spec fn opened_at(self) -> Option<u128> {
        self.last
    }

    /// A gate that was never opened.
    pub fn new(interval: u128) -> (r: StatsRefreshGate)
        ensures
            r.every() == interval,
            r.opened_at() is None,
    {
        StatsRefreshGate { interval, last: None }
    }

    /// A gate with the interval that the environment names in seconds; zero
    /// switches the refresh off, and what is no number counts for nothing.
    pub fn from_env(value: Option<&str>) -> (r: StatsRefreshGate)
        ensures
            r.every() == number_setting(
                match value {
                    Some(v) => Some(v@),
                    None => None,
                },
                60,
            ) * 1000000000,
            r.opened_at() is None,
    {
        let seconds = read_number_setting(value, 60);
        StatsRefreshGate::new(seconds as u128 * 1000000000)
    }

    /// The interval between refreshes.
    pub fn interval(&self) -> (r: u128)
        ensures
            r == self.every(),
    {
        self.interval
    }

    /// Lets a refresh through, unless it is switched off or was opened less than an
    /// interval ago. It closes for a full interval before the work is tried, so
    /// that a failure is not retried at once.
    pub fn maybe_refresh(&mut self, now: u128) -> (r: bool)
        ensures
            final(self).every() == old(self).every(),
            r == (old(self).every() > 0 && (match old(self).opened_at() {
                None => true,
                Some(last) => now >= last && now - last >= old(self).every(),
            })),
            final(self).opened_at() == (if r {
                Some(now)
            } else {
                old(self).opened_at()
            }),
            old(self).every() == 0 ==> !r,
            r ==> final(self).opened_at() == Some(now),
            r && old(self).opened_at() is Some ==> now >= old(self).opened_at()->Some_0 + old(
                self,
            ).every(),
            !r && old(self).every() > 0 ==> old(self).opened_at() is Some && now < old(
                self,
            ).opened_at()->Some_0 + old(self).every(),
    {
        if self.interval == 0 {
            return false;
        }
        match self.last {
            Some(last) => {
                let since: u128 = if now >= last {
                    now - last
                } else {
                    0
                };
                if since < self.interval {
                    return false;
                }
            },
            None => {},
        }
        self.last = Some(now);
        true
    }
}

/// The columns that are missing from a table, in order.
pub open spec fn missing_from(wanted: Seq<Seq<char>>, present: Seq<Seq<char>>) -> Seq<Seq<char>>
    decreases wanted.len(),
{
    if wanted.len() == 0 {
        Seq::empty()
    } else if present.contains(wanted.last()) {
        missing_from(wanted.drop_last(), present)
    } else {
        missing_from(wanted.drop_last(), present).push(wanted.last())
    }
}

/// The columns that are missing from a table, in order.
pub fn missing_columns(wanted: &[String], present: &[String]) -> (r: Vec<String>)
    ensures
        texts(r@) == missing_from(texts(wanted@), texts(present@)),
{
    let ghost all = texts(wanted@);
    let mut out: Vec<String> = Vec::new();
    let mut i: usize = 0;
    assert(texts(out@) =~= Seq::<Seq<char>>::empty());
    while i < wanted.len()
        invariant
            i <= wanted@.len(),
            all == texts(wanted@),
            texts(out@) == missing_from(all.take(i as int), texts(present@)),
        decreases wanted@.len() - i,
    {
        let ghost now = all.take(i as int + 1);
        assert(now.drop_last() =~= all.take(i as int));
        assert(now.last() == wanted@[i as int]@);
        if !crate::archive_profiles::has_key(present, &wanted[i]) {
            let ghost before = out@;
            out.push(wanted[i].clone());
            assert(texts(out@) =~= texts(before).push(wanted@[i as int]@));
        }
        i += 1;
    }
    assert(all.take(all.len() as int) =~= all);
    out
}

/// The folder chain of an item below its artist, from their stored paths: what
/// stands in front of the file's name.
pub open spec fn date_folder_of(artist_path: Seq<char>, file_path: Seq<char>) -> Option<Seq<char>> {
    let artist = trim_end_of(artist_path, CharClass::Slash);
    let full = trim_end_of(file_path, CharClass::Slash);
    if artist.len() == 0 || full.len() == 0 {
        None
    } else {
        let chain = if full == artist {
            Seq::empty()
        } else if starts_with(full, artist + seq!['/']) {
            full.skip(artist.len() as int + 1)
        } else {
            full
        };
        let n = behind_last_slash(chain);
        if n > 0 {
            Some(chain.take(n - 1))
        } else {
            Some(Seq::empty())
        }
    }
}

/// The folder chain of an item below its artist; `None` where a path is empty.
pub fn backfill_date_folder(artist_path: &str, file_path: &str) -> (r: Option<String>)
    ensures
        match r {
            Some(f) => date_folder_of(artist_path@, file_path@) == Some(f@),
            None => date_folder_of(artist_path@, file_path@) is None,
        },
{
    let artist = trim_end_chars(&chars_of(artist_path), CharClass::Slash);
    let full = trim_end_chars(&chars_of(file_path), CharClass::Slash);
    if artist.len() == 0 || full.len() == 0 {
        return None;
    }
    let mut prefix = sub_chars(&artist, 0, artist.len());
    prefix.push('/');
    assert(prefix@ =~= artist@ + seq!['/']);
    let chain = if crate::text::same_chars(&full, &artist) {
        Vec::new()
    } else if has_prefix(&full, &prefix) {
        sub_chars(&full, prefix.len(), full.len())
    } else {
        full
    };
    let mut n: usize = chain.len();
    assert(chain@.take(chain@.len() as int) =~= chain@);
    while n > 0 && chain[n - 1] != '/'
        invariant
            n <= chain@.len(),
            behind_last_slash(chain@.take(n as int)) == behind_last_slash(chain@),
        decreases n,
    {
        assert(chain@.take(n as int).drop_last() =~= chain@.take(n as int - 1));
        n -= 1;
    }
    if n > 0 {
        Some(text_of(&sub_chars(&chain, 0, n - 1)))
    } else {
        Some(String::new())
    }
}

/// An item, as far as its date is concerned.
#[derive(Debug)]
pub struct DatedItem {
    /// The item.
    pub id: i64,
    /// Its date in full.
    pub date: String,
    /// Its date as it is written in its folders, empty where that was not looked for.
    pub detected_date: String,
    /// What its folders name as a date: as it is written, and in full.
    pub found: Option<(String, String)>,
}

/// Whether the date of an item is to be looked for in its folders.
pub open spec fn lacks_detected_date(i: DatedItem) -> bool {
    i.detected_date@.len() == 0 && i.date@.len() > 0
}

/// The date that an item gets: as it is written in its folders, where those name
/// its date, else its date as it was stored.
pub open spec fn detected_from(found: Option<(String, String)>, date: Seq<char>) -> Seq<char> {
    match found {
        Some((raw, canonical)) => if canonical@ == date {
            raw@
        } else {
            date
        },
        None => date,
    }
}

/// The date that an item gets.
pub fn backfill_detected_from_path(found: &Option<(String, String)>, legacy_date: &str) -> (r:
    String)
    ensures
        r@ == detected_from(*found, legacy_date@),
{
    match found {
        Some((raw, canonical)) => if same_text(canonical, legacy_date) {
            raw.clone()
        } else {
            legacy_date.to_owned()
        },
        None => legacy_date.to_owned(),
    }
}

/// The date that an item gets.
pub open spec fn detected_date_of(i: DatedItem) -> Seq<char> {
    detected_from(i.found, i.date@)
}

/// The items that get a date, with their dates.
pub open spec fn dates_found(items: Seq<DatedItem>) -> Seq<(i64, Seq<char>)>
    decreases items.len(),
{
    if items.len() == 0 {
        Seq::empty()
    } else if lacks_detected_date(items.last()) {
        dates_found(items.drop_last()).push((items.last().id, detected_date_of(items.last())))
    } else {
        dates_found(items.drop_last())
    }
}

/// The items that get a date, with their dates. `None` where that was done before,
/// which `marker` says, and where the artists have no paths.
pub fn backfill_item_detected_dates(
    items: &[DatedItem],
    marker: Option<&str>,
    has_paths: bool,
) -> (r: Option<Vec<(i64, String)>>)
    ensures
        r is None <==> (marker is Some && marker->Some_0@ == "1"@) || !has_paths,
        match r {
            Some(dates) => dates@.map_values(|d: (i64, String)| (d.0, d.1@)) == dates_found(items@),
            None => true,
        },
{
    let done = match marker {
        Some(m) => same_text(m, "1"),
        None => false,
    };
    if done || !has_paths {
        return None;
    }
    let ghost plain = |d: (i64, String)| (d.0, d.1@);
    let mut out: Vec<(i64, String)> = Vec::new();
    let mut i: usize = 0;
    assert(out@.map_values(plain) =~= Seq::<(i64, Seq<char>)>::empty());
    while i < items.len()
        invariant
            i <= items@.len(),
            plain == (|d: (i64, String)| (d.0, d.1@)),
            out@.map_values(plain) == dates_found(items@.take(i as int)),
        decreases items@.len() - i,
    {
        assert(items@.take(i as int + 1).drop_last() =~= items@.take(i as int));
        if items[i].detected_date.as_str().is_empty() && !items[i].date.as_str().is_empty() {
            let date = backfill_detected_from_path(&items[i].found, &items[i].date);
            let ghost before = out@;
            out.push((items[i].id, date));
            assert(out@.map_values(plain) =~= before.map_values(plain).push(
                (items@[i as int].id, detected_date_of(items@[i as int])),
            ));
        }
        i += 1;
    }
    assert(items@.take(items@.len() as int) =~= items@);
    Some(out)
}

/// A date that was found in the folders of an item is never replaced: only items
/// without one get one, and only those that have a date.
pub proof fn detected_dates_are_kept(items: Seq<DatedItem>, k: int)
    requires
        0 <= k < dates_found(items).len(),
    ensures
        exists|i: int|
            0 <= i < items.len() && lacks_detected_date(#[trigger] items[i]) && dates_found(
                items,
            )[k] == (items[i].id, detected_date_of(items[i])),
    decreases items.len(),
{
    let before = items.drop_last();
    if k < dates_found(before).len() {
        detected_dates_are_kept(before, k);
        let i = choose|i: int|
            0 <= i < before.len() && lacks_detected_date(#[trigger] before[i]) && dates_found(
                before,
            )[k] == (before[i].id, detected_date_of(before[i]));
        assert(items[i] == before[i]);
    } else {
        assert(lacks_detected_date(items[items.len() - 1]));
    }
}

/// Whether a name begins with a year, a month and a hyphen behind each.
pub open spec fn dated_name(name: Seq<char>) -> bool {
    &&& name.len() >= 8
    &&& digit(name[0]) && digit(name[1]) && digit(name[2]) && digit(name[3])
    &&& name[4] == '-'
    &&& digit(name[5]) && digit(name[6])
    &&& name[7] == '-'
}

/// Whether the last name of a target has the former format: a year and a month,
/// and behind them either a day with a hyphen or no space.
pub open spec fn former_format(target: Seq<char>) -> bool {
    let name = target.skip(behind_last_slash(target));
    let with_day = name.len() >= 11 && name[10] == '-' && digit(name[8]) && digit(name[9]);
    dated_name(name) && (with_day || !(name.len() > 8 && name[8] == ' '))
}

/// Whether a character is an ASCII digit.
fn is_digit(c: char) -> (r: bool)
    ensures
        r == digit(c),
{
    '0' <= c && c <= '9'
}

/// Whether the last name of a target has the former format.
fn has_former_format(target: &str) -> (r: bool)
    ensures
        r == former_format(target@),
{
    let t = chars_of(target);
    let mut n: usize = t.len();
    assert(t@.take(t@.len() as int) =~= t@);
    while n > 0 && t[n - 1] != '/'
        invariant
            n <= t@.len(),
            behind_last_slash(t@.take(n as int)) == behind_last_slash(t@),
        decreases n,
    {
        assert(t@.take(n as int).drop_last() =~= t@.take(n as int - 1));
        n -= 1;
    }
    let name = sub_chars(&t, n, t.len());
    assert(name@ =~= target@.skip(behind_last_slash(target@)));
    let dated = name.len() >= 8 && is_digit(name[0]) && is_digit(name[1]) && is_digit(name[2])
        && is_digit(name[3]) && name[4] == '-' && is_digit(name[5]) && is_digit(name[6]) && name[7]
        == '-';
    let with_day = name.len() >= 11 && name[10] == '-' && is_digit(name[8]) && is_digit(name[9]);
    let spaced = name.len() > 8 && name[8] == ' ';
    dated && (with_day || !spaced)
}

/// A folder plan with its log.
#[derive(Debug)]
pub struct LoggedPlan {
    /// The plan.
    pub id: i64,
    /// Its status.
    pub status: String,
    /// Its target.
    pub target: String,
    /// Its log, where that is JSON.
    pub log: Option<Json>,
}

/// The reason in the last entry of a log.
pub open spec fn last_reason(log: Option<Json>) -> Option<Seq<char>> {
    match log {
        Some(j) => match j.tree() {
            JsonTree::Array(entries) => if entries.len() > 0 {
                match entries.last().get("reason"@) {
                    Some(v) => v.as_text(),
                    None => None,
                }
            } else {
                None
            },
            _ => None,
        },
        None => None,
    }
}

/// Whether a plan waits for somebody to look at it, has a target of the former
/// format, and missed its source at last.
pub open spec fn outdated(plan: LoggedPlan) -> bool {
    plan.status@ == "manual_review"@ && former_format(plan.target@) && last_reason(plan.log)
        == Some("source_missing"@)
}

/// Whether a plan is outdated.
fn is_outdated(plan: &LoggedPlan) -> (r: bool)
    ensures
        r == outdated(*plan),
{
    let reason: Option<&str> = match &plan.log {
        Some(Json::Array(entries)) => {
            let n = entries.len();
            if n > 0 {
                assert(plan.log->0.tree()->Array_0.last() == entries@[n - 1].tree());
                match entries[n - 1].get("reason") {
                    Some(v) => v.as_text(),
                    None => None,
                }
            } else {
                None
            }
        },
        _ => None,
    };
    let missed = match reason {
        Some(s) => same_text(s, "source_missing"),
        None => false,
    };
    missed && same_text(&plan.status, "manual_review") && has_former_format(&plan.target)
}

/// The plans that the clean-up of missing archives deletes. It is made once: the
/// marker `1` says that it was.
pub fn cleanup_legacy_missing_archive_plans(plans: &[LoggedPlan], marker: Option<&str>) -> (r:
    Option<Vec<i64>>)
    ensures
        r is None <==> (marker is Some && marker->0@ == "1"@),
        r is Some ==> r->0@ == kept(plans@, |p: LoggedPlan| outdated(p)).map_values(
            |p: LoggedPlan| p.id,
        ),
{
    if let Some(m) = marker {
        if same_text(m, "1") {
            return None;
        }
    }
    let ghost old_plan = |p: LoggedPlan| outdated(p);
    let ghost id_of = |p: LoggedPlan| p.id;
    let mut ids: Vec<i64> = Vec::new();
    let mut i: usize = 0;
    assert(kept(plans@.take(0), old_plan).map_values(id_of) =~= Seq::empty());
    while i < plans.len()
        invariant
            i <= plans@.len(),
            old_plan == (|p: LoggedPlan| outdated(p)),
            id_of == (|p: LoggedPlan| p.id),
            ids@ == kept(plans@.take(i as int), old_plan).map_values(id_of),
        decreases plans@.len() - i,
    {
        let ghost seen = plans@.take(i as int + 1);
        assert(seen.drop_last() =~= plans@.take(i as int));
        let drop = is_outdated(&plans[i]);
        if drop {
            ids.push(plans[i].id);
        }
        assert(ids@ =~= kept(seen, old_plan).map_values(id_of));
        i += 1;
    }
    assert(plans@.take(i as int) =~= plans@);
    Some(ids)
}

/// A clean-up leaves nothing for another one: of the plans that it keeps none is
/// outdated.
pub proof fn clean_ups_are_final(plans: Seq<LoggedPlan>)
    ensures
        kept(
            kept(plans, |p: LoggedPlan| !outdated(p)),
            |p: LoggedPlan| outdated(p),
        ).len() == 0,
    decreases plans.len(),
{
    if plans.len() > 0 {
        clean_ups_are_final(plans.drop_last());
        let left = kept(plans.drop_last(), |p: LoggedPlan| !outdated(p));
        assert(left.push(plans.last()).drop_last() =~= left);
    }
}

/// The first characters of a name in a statement.
pub open spec fn ident_start(c: char) -> bool {
    'a' <= c <= 'z' || c == '_'
}

/// The characters of a name in a statement.
pub open spec fn ident_char(c: char) -> bool {
    ident_start(c) || '0' <= c <= '9'
}

/// Whether a text may stand in a statement as the name of a table or column.
pub open spec fn internal_ident(name: Seq<char>) -> bool {
    name.len() > 0 && ident_start(name[0]) && forall|i: int|
        0 <= i < name.len() ==> ident_char(#[trigger] name[i])
}

/// Whether a text may stand in a statement as the name of a table or column.
pub fn is_sql_ident(name: &str) -> (r: bool)
    ensures
        r == internal_ident(name@),
{
    let n = chars_of(name);
    if n.len() == 0 {
        return false;
    }
    let first = n[0];
    if !(('a' <= first && first <= 'z') || first == '_') {
        return false;
    }
    let mut i: usize = 0;
    while i < n.len()
        invariant
            i <= n@.len(),
            n@ == name@,
            forall|j: int| 0 <= j < i ==> ident_char(#[trigger] n@[j]),
        decreases n@.len() - i,
    {
        let c = n[i];
        if !(('a' <= c && c <= 'z') || c == '_' || ('0' <= c && c <= '9')) {
            assert(!ident_char(n@[i as int]));
            return false;
        }
        i += 1;
    }
    true
}

/// A name that stands in a statement. Only internal names may: anything else is
/// a mistake of the program.
pub fn sql_ident(name: &str) -> (r: &str)
    requires
        internal_ident(name@),
    ensures
        r@ == name@,
{
    name
}

/// Whether a byte stands for itself in the address of a database.
pub open spec fn plain_byte(b: u8) -> bool {
    ||| 65 <= b <= 90
    ||| 97 <= b <= 122
    ||| 48 <= b <= 57
    ||| b == 47
    ||| b == 46
    ||| b == 95
    ||| b == 45
    ||| b == 58
}

/// An upper-case hexadecimal digit.
pub open spec fn hex_upper(n: int) -> char {
    if n < 10 {
        (48 + n) as u8 as char
    } else {
        (55 + n) as u8 as char
    }
}

/// A byte in the address of a database: itself, or a percent sign and two
/// hexadecimal digits.
pub open spec fn encoded_byte(b: u8) -> Seq<char> {
    if plain_byte(b) {
        seq![b as char]
    } else {
        seq!['%', hex_upper(b as int / 16), hex_upper(b as int % 16)]
    }
}

/// Bytes in the address of a database.
pub open spec fn encoded_bytes(bytes: Seq<u8>) -> Seq<char>
    decreases bytes.len(),
{
    if bytes.len() == 0 {
        Seq::empty()
    } else {
        encoded_bytes(bytes.drop_last()) + encoded_byte(bytes.last())
    }
}

/// An upper-case hexadecimal digit.
fn hex_char(n: u8) -> (r: char)
    requires
        n < 16,
    ensures
        r == hex_upper(n as int),
{
    if n < 10 {
        (48 + n) as char
    } else {
        (55 + n) as char
    }
}

/// The address under which a database is opened that nobody changes.
pub fn sqlite_immutable_uri(path: &str) -> (r: String)
    ensures
        r@ == "file:"@ + encoded_bytes(vstd::utf8::encode_utf8(replaced(path@, '\\', '/')))
            + "?mode=ro&immutable=1"@,
{
    let slashed = text_of(&replace_char(&chars_of(path), '\\', '/'));
    let text = slashed.as_str();
    let bytes = text.as_bytes();
    let mut out = "file:".to_owned();
    let mut i: usize = 0;
    assert(bytes@.take(0) =~= Seq::<u8>::empty());
    assert(out@ =~= "file:"@ + encoded_bytes(bytes@.take(0)));
    while i < bytes.len()
        invariant
            i <= bytes@.len(),
            out@ == "file:"@ + encoded_bytes(bytes@.take(i as int)),
        decreases bytes@.len() - i,
    {
        let ghost before = out@;
        let ghost now = bytes@.take(i as int + 1);
        assert(now.drop_last() =~= bytes@.take(i as int));
        let b = bytes[i];
        if (65 <= b && b <= 90) || (97 <= b && b <= 122) || (48 <= b && b <= 57) || b == 47 || b
            == 46 || b == 95 || b == 45 || b == 58 {
            out.push(b as char);
        } else {
            out.push('%');
            out.push(hex_char(b / 16));
            out.push(hex_char(b % 16));
        }
        assert(out@ =~= before + encoded_byte(b));
        assert(out@ =~= "file:"@ + encoded_bytes(now));
        i += 1;
    }
    assert(bytes@.take(bytes@.len() as int) =~= bytes@);
    out.append("?mode=ro&immutable=1");
    out
}

/// A setting that writes a number, with white space around it or without, is that number; one
/// that is not given or writes none is the default.
pub proof fn settings_read_back(
    n: i64,
    default: int,
    front: Seq<char>,
    back: Seq<char>,
    other: Seq<char>,
)
    requires
        forall|i: int| 0 <= i < front.len() ==> crate::text::white_space(#[trigger] front[i]),
        forall|i: int| 0 <= i < back.len() ==> crate::text::white_space(#[trigger] back[i]),
        exists|i: int| 1 <= i < trimmed(other).len() && !digit(#[trigger] trimmed(other)[i]),
    ensures
        signed_setting(Some(front + decimal_int(n as int) + back), default) == n,
        n >= 0 ==> number_setting(Some(front + decimal_int(n as int) + back), default) == n,
        n < 0 ==> number_setting(Some(front + decimal_int(n as int) + back), default) == default,
        signed_setting(None, default) == default,
        number_setting(None, default) == default,
        signed_setting(Some(other), default) == default,
        number_setting(Some(other), default) == default,
{
    let s = decimal_int(n as int);
    if n >= 0 {
        lemma_decimal_value(n as nat);
        assert(digit(s[0]) && digit(s[s.len() - 1]));
    } else {
        let d = crate::text::decimal((-n) as nat);
        lemma_decimal_value((-n) as nat);
        assert(s[0] == '-' && s.last() == d[d.len() - 1]);
        assert(digit(d[d.len() - 1]));
    }
    crate::text_laws::trimming_takes_the_white_ends(front, s, back);
    crate::text_laws::numbers_read_back(n as int);
    let i = choose|i: int| 1 <= i < trimmed(other).len() && !digit(#[trigger] trimmed(other)[i]);
    crate::text_laws::only_digits_are_numbers(trimmed(other), i);
}

/// The database is the one that is named, and `gallery.db` in the data folder where none is;
/// the data folder is `data` where none is given.
pub proof fn databases_are_where_they_are_named(named: Seq<char>, dir: Seq<char>)
    requires
        trimmed(named).len() > 0,
        dir.len() > 0,
        dir.last() != '/',
    ensures
        db_path_of(Some(named), Some(dir)) == named,
        db_path_of(Some(named), None) == named,
        db_path_of(None, Some(dir)) == dir + "/gallery.db"@,
        db_path_of(Some(Seq::empty()), Some(dir)) == dir + "/gallery.db"@,
        db_path_of(None, None) == "data/gallery.db"@,
{
    reveal_strlit("gallery.db");
    reveal_strlit("/gallery.db");
    reveal_strlit("data/gallery.db");
    reveal_strlit("data");
    crate::text_laws::white_texts_are_trimmed_away(Seq::empty());
    assert(dir + seq!['/'] + "gallery.db"@ =~= dir + "/gallery.db"@);
    assert("data"@.last() == 'a');
    assert("data"@ + seq!['/'] + "gallery.db"@ =~= "data/gallery.db"@);
}

/// The missing columns are those that are wanted and not there.
pub proof fn missing_columns_are_wanted(
    wanted: Seq<Seq<char>>,
    present: Seq<Seq<char>>,
    column: Seq<char>,
)
    ensures
        missing_from(wanted, present).contains(column) <==> wanted.contains(column)
            && !present.contains(column),
    decreases wanted.len(),
{
    let now = missing_from(wanted, present);
    if wanted.len() > 0 {
        let d = wanted.drop_last();
        let before = missing_from(d, present);
        missing_columns_are_wanted(d, present, column);
        if wanted.contains(column) {
            let k = wanted.index_of(column);
            if k < d.len() {
                assert(d[k] == column);
            }
        }
        if d.contains(column) {
            let k = d.index_of(column);
            assert(wanted[k] == column);
        }
        assert(wanted[d.len() as int] == wanted.last());
        if before.contains(column) {
            let k = before.index_of(column);
            assert(now[k] == column);
        }
        if now.contains(column) {
            let k = now.index_of(column);
            if k < before.len() {
                assert(before[k] == column);
            }
        }
        if !present.contains(wanted.last()) {
            assert(now[before.len() as int] == wanted.last());
        }
    }
}

/// The date folder of a file is what stands between the artist's folder and the file's name,
/// and nothing where the file lies in the artist's folder.
pub proof fn date_folders_stand_between(
    artist: Seq<char>,
    folder: Seq<char>,
    name: Seq<char>,
    slashes: Seq<char>,
)
    requires
        artist.len() > 0,
        artist.last() != '/',
        name.len() > 0,
        !name.contains('/'),
        forall|i: int| 0 <= i < slashes.len() ==> #[trigger] slashes[i] == '/',
    ensures
        date_folder_of(
            artist + slashes,
            artist + seq!['/'] + folder + seq!['/'] + name,
        ) == Some(folder),
        date_folder_of(artist + slashes, artist + seq!['/'] + name) == Some(Seq::<char>::empty()),
{
    let slash = seq!['/'];
    let none = Seq::<char>::empty();
    assert(name.last() != '/') by {
        assert(name.contains(name.last()));
    }
    crate::text_laws::end_slashes_are_taken(artist, slashes);
    let deep = artist + slash + folder + slash + name;
    assert(deep.last() == name.last());
    assert(deep + none =~= deep);
    crate::text_laws::end_slashes_are_taken(deep, none);
    assert(deep.take(artist.len() as int + 1) =~= artist + slash);
    let chain = folder + slash + name;
    assert(deep.skip(artist.len() as int + 1) =~= chain);
    crate::paths::lemma_name_start(folder + slash, name);
    assert(chain.take(folder.len() as int) =~= folder);
    let flat = artist + slash + name;
    assert(flat.last() == name.last());
    assert(flat + none =~= flat);
    crate::text_laws::end_slashes_are_taken(flat, none);
    assert(flat.take(artist.len() as int + 1) =~= artist + slash);
    assert(flat.skip(artist.len() as int + 1) =~= name);
    crate::paths::lemma_name_start(none, name);
    assert(none + name =~= name);
}

/// Every item with a date and without a detected one gets the date as its path spells it, where
/// that is the same date, and else the date it has.
pub proof fn undetected_dates_are_filled(items: Seq<DatedItem>, i: int)
    requires
        0 <= i < items.len(),
        items[i].detected_date@.len() == 0,
        items[i].date@.len() > 0,
    ensures
        dates_found(items).contains(
            (
                items[i].id,
                match items[i].found {
                    Some((raw, canonical)) => if canonical@ == items[i].date@ {
                        raw@
                    } else {
                        items[i].date@
                    },
                    None => items[i].date@,
                },
            ),
        ),
    decreases items.len(),
{
    let d = items.drop_last();
    let now = dates_found(items);
    let row = (items[i].id, detected_date_of(items[i]));
    if i < d.len() {
        assert(d[i] == items[i]);
        undetected_dates_are_filled(d, i);
        let k = dates_found(d).index_of(row);
        assert(now[k] == row);
    } else {
        assert(now[dates_found(d).len() as int] == row);
    }
}

/// A folder name that begins with a year and a month, each with a hyphen behind it, is of the
/// former format, unless a space follows and no day does; the folder it lies in does not
/// matter.
pub proof fn former_names_begin_with_a_month(
    folder: Seq<char>,
    year: nat,
    month: nat,
    day: nat,
    rest: Seq<char>,
)
    requires
        year <= 9999,
        month <= 99,
        day <= 99,
        !rest.contains('/'),
    ensures
        ({
            let (y, m) = (crate::calendar::padded(year, 4), crate::calendar::padded(month, 2));
            let d = crate::calendar::padded(day, 2);
            let head = folder + seq!['/'] + y + seq!['-'] + m + seq!['-'];
            &&& former_format(head + d + seq!['-'] + rest)
            &&& !former_format(head + seq![' '] + rest) || (rest.len() >= 2 && rest[1] == '-')
            &&& former_format(head)
        }),
        dated_name(rest) || !former_format(folder + seq!['/'] + rest),
{
    let (y, m) = (crate::calendar::padded(year, 4), crate::calendar::padded(month, 2));
    let d = crate::calendar::padded(day, 2);
    crate::date_laws::padded_numbers_read_back(year, 4);
    crate::date_laws::padded_numbers_read_back(month, 2);
    crate::date_laws::padded_numbers_read_back(day, 2);
    let front = folder + seq!['/'];
    let head = front + y + seq!['-'] + m + seq!['-'];
    let start = y + seq!['-'] + m + seq!['-'];
    assert(start.len() == 8);
    assert(!start.contains('/')) by {
        if start.contains('/') {
            let i = start.index_of('/');
            if i < 4 {
                assert(start[i] == y[i]);
            } else if 5 <= i < 7 {
                assert(start[i] == m[i - 5]);
            }
        }
    }
    let dated = start + d + seq!['-'] + rest;
    lemma_former(start, dated, d + seq!['-'] + rest);
    assert(head + d + seq!['-'] + rest =~= front + dated);
    assert(!dated.contains('/')) by {
        if dated.contains('/') {
            let i = dated.index_of('/');
            if i < 8 {
                assert(dated[i] == start[i]);
                assert(start.contains('/'));
            } else if i < 10 {
                assert(dated[i] == d[i - 8]);
            } else if i >= 11 {
                assert(dated[i] == rest[i - 11]);
                assert(rest.contains('/'));
            }
        }
    }
    crate::paths::lemma_name_start(front, dated);
    assert((front + dated).skip(front.len() as int) =~= dated);
    assert(dated[8] == d[0] && dated[9] == d[1] && dated[10] == '-');
    let spaced = start + seq![' '] + rest;
    lemma_former(start, spaced, seq![' '] + rest);
    assert(head + seq![' '] + rest =~= front + spaced);
    assert(!spaced.contains('/')) by {
        if spaced.contains('/') {
            let i = spaced.index_of('/');
            if i < 8 {
                assert(spaced[i] == start[i]);
                assert(start.contains('/'));
            } else if i >= 9 {
                assert(spaced[i] == rest[i - 9]);
                assert(rest.contains('/'));
            }
        }
    }
    crate::paths::lemma_name_start(front, spaced);
    assert((front + spaced).skip(front.len() as int) =~= spaced);
    assert(spaced[8] == ' ');
    lemma_former(start, start, Seq::empty());
    assert(head =~= front + start);
    crate::paths::lemma_name_start(front, start);
    assert((front + start).skip(front.len() as int) =~= start);
    crate::paths::lemma_name_start(front, rest);
    assert((front + rest).skip(front.len() as int) =~= rest);
}

/// A name that begins with a month is dated.
proof fn lemma_former(start: Seq<char>, name: Seq<char>, rest: Seq<char>)
    requires
        name =~= start + rest,
        start.len() == 8,
        forall|i: int|
            0 <= i < 8 ==> if i == 4 || i == 7 {
                #[trigger] start[i] == '-'
            } else {
                digit(start[i])
            },
    ensures
        dated_name(name),
{
    assert forall|i: int| 0 <= i < 8 implies name[i] == start[i] by {}
}

/// Letters, digits and a few marks of a path stand for themselves in an address; any other
/// byte is written as a percent sign and its two hexadecimal digits.
pub proof fn other_bytes_are_written_in_hexadecimal(bytes: Seq<u8>, b: u8)
    ensures
        encoded_bytes(Seq::empty()).len() == 0,
        ({
            let now = encoded_bytes(bytes.push(b));
            let before = encoded_bytes(bytes);
            let plain = 48 <= b <= 57 || 65 <= b <= 90 || 97 <= b <= 122 || b == 45 || b == 46 || b
                == 47 || b == 58 || b == 95;
            &&& plain ==> now == before.push(b as char)
            &&& !plain ==> now.len() == before.len() + 3 && now.take(before.len() as int) == before
                && now[before.len() as int] == '%' && hex_worth(now[before.len() as int + 1]) * 16
                + hex_worth(now[before.len() as int + 2]) == b
        }),
{
    let all = bytes.push(b);
    assert(all.drop_last() =~= bytes);
    let before = encoded_bytes(bytes);
    let now = encoded_bytes(all);
    assert(now == before + encoded_byte(b));
    if plain_byte(b) {
        assert(now =~= before.push(b as char));
    } else {
        assert(now.take(before.len() as int) =~= before);
        assert(0 <= b as int / 16 < 16 && 0 <= b as int % 16 < 16);
    }
}

/// What a hexadecimal digit is worth.
pub open spec fn hex_worth(c: char) -> int {
    if '0' <= c <= '9' {
        c as int - 48
    } else {
        c as int - 55
    }
}

/// A pool has as many connections as is asked for, from one up to thirty-two.
pub proof fn pools_have_limits(wanted: int, more: int)
    requires
        wanted <= more,
    ensures
        1 <= pool_size_of(wanted) <= 32,
        1 <= wanted <= 32 ==> pool_size_of(wanted) == wanted,
        pool_size_of(wanted) <= pool_size_of(more),
{
}

/// A name is accepted exactly where it consists of lower-case letters, digits and underscores
/// and does not begin with a digit.
pub proof fn accepted_names_are_plain(name: Seq<char>)
    ensures
        internal_ident(name) <==> name.len() > 0 && !(48 <= name[0] as int <= 57) && forall|i: int|
            0 <= i < name.len() ==> {
                let c = (#[trigger] name[i]) as int;
                97 <= c <= 122 || 48 <= c <= 57 || c == 95
            },
{
    if name.len() > 0 && !(48 <= name[0] as int <= 57) && forall|i: int|
        0 <= i < name.len() ==> {
            let c = (#[trigger] name[i]) as int;
            97 <= c <= 122 || 48 <= c <= 57 || c == 95
        } {
        assert(ident_char(name[0]));
        assert forall|i: int| 0 <= i < name.len() implies ident_char(#[trigger] name[i]) by {
            let c = name[i] as int;
            assert(97 <= c <= 122 || 48 <= c <= 57 || c == 95);
        }
    }
    if internal_ident(name) {
        assert forall|i: int| 0 <= i < name.len() implies {
            let c = (#[trigger] name[i]) as int;
            97 <= c <= 122 || 48 <= c <= 57 || c == 95
        } by {
            assert(ident_char(name[i]));
        }
    }
}

/// Statistics are current where neither table has grown or shrunk to four times or a quarter of
/// what was analyzed; where one was never analyzed they are not.
pub proof fn both_tables_have_to_be_current(items: i64, tags: i64, live_items: i64, live_tags: i64)
    requires
        0 < items < i64::MAX,
        0 < tags < i64::MAX,
        0 <= live_items < i64::MAX,
        0 <= live_tags < i64::MAX,
    ensures
        stats_current(Some(items), Some(tags), live_items, live_tags) <==> items < 4 * live_items
            && live_items < 4 * items && tags < 4 * live_tags && live_tags < 4 * tags,
        !stats_current(None, Some(tags), live_items, live_tags),
        !stats_current(Some(items), None, live_items, live_tags),
        !stats_current(None, None, live_items, live_tags),
        stats_current(Some(0), Some(0), live_items, live_tags) <==> live_items == 0 && live_tags
            == 0,
{
    statistics_age_both_ways(live_items as int, items as int);
    statistics_age_both_ways(live_tags as int, tags as int);
}

}
