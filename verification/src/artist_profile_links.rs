//! The social and subscription links of artists, which are kept by hand.

use vstd::prelude::*;
use crate::order::{lemma_text_le_total, lemma_text_le_transitive, not_after, text_le};
use crate::tables::{find_row, first, keep_rows, kept, views};
use crate::text::{chars_of, lower, same_chars, same_text, text_of, to_lower, trim_text, trimmed};

verus! {

/// How long the name of a platform may be.
pub const MAX_PLATFORM_CHARS: usize = 120;

/// How long an address may be.
pub const MAX_URL_CHARS: usize = 4096;

/// The kind of a link.
#[derive(Clone, Copy, PartialEq, Eq, Debug, Structural)]
pub enum LinkKind {
    /// Where an artist is found.
    Social,
    /// Where an artist is paid.
    Subscription,
}

impl LinkKind {
    /// The word for a kind.
    pub open spec fn word(self) -> Seq<char> {
        match self {
            LinkKind::Social => "social"@,
            LinkKind::Subscription => "subscription"@,
        }
    }

    /// The word for a kind.
    pub fn label(self) -> (r: &'static str)
        ensures
            r@ == self.word(),
    {
        match self {
            LinkKind::Social => "social",
            LinkKind::Subscription => "subscription",
        }
    }
}

/// Why a link is refused.
#[derive(Clone, Copy, PartialEq, Eq, Debug, Structural)]
pub enum LinkError {
    /// There is no such artist.
    NoArtist,
    /// The kind is none of the two.
    BadKind,
    /// The address is empty or too long.
    BadLength,
    /// The address cannot be parsed.
    NotAUrl,
    /// The address is not one of the web.
    BadScheme,
    /// The address names a user or a password.
    Credentials,
    /// The address has no host.
    NoHost,
    /// The name of the platform is too long.
    LongPlatform,
}

impl LinkError {
    /// The message for a refusal.
    pub open spec fn text(self) -> Seq<char> {
        match self {
            LinkError::NoArtist => "artist not found"@,
            LinkError::BadKind => "link kind must be social or subscription"@,
            LinkError::BadLength => "URL must contain at most 4096 characters"@,
            LinkError::NotAUrl => "URL is not valid"@,
            LinkError::BadScheme => "URL must use http or https"@,
            LinkError::Credentials => "URL must not include credentials"@,
            LinkError::NoHost => "URL must include a host"@,
            LinkError::LongPlatform => "platform must contain at most 120 characters"@,
        }
    }

    /// The message for a refusal.
    pub fn message(self) -> (r: &'static str)
        ensures
            r@ == self.text(),
    {
        match self {
            LinkError::NoArtist => "artist not found",
            LinkError::BadKind => "link kind must be social or subscription",
            LinkError::BadLength => "URL must contain at most 4096 characters",
            LinkError::NotAUrl => "URL is not valid",
            LinkError::BadScheme => "URL must use http or https",
            LinkError::Credentials => "URL must not include credentials",
            LinkError::NoHost => "URL must include a host",
            LinkError::LongPlatform => "platform must contain at most 120 characters",
        }
    }
}

/// The kind that a word stands for, white space around it aside.
pub open spec fn kind_of(word: Seq<char>) -> Option<LinkKind> {
    if trimmed(word) == "social"@ {
        Some(LinkKind::Social)
    } else if trimmed(word) == "subscription"@ {
        Some(LinkKind::Subscription)
    } else {
        None
    }
}

/// The kind that a word stands for.
pub fn normalize_kind(kind: &str) -> (r: Result<LinkKind, LinkError>)
    ensures
        r == (match kind_of(kind@) {
            Some(k) => Ok(k),
            None => Err(LinkError::BadKind),
        }),
{
    let word = trim_text(kind);
    if same_chars(&word, &chars_of("social")) {
        Ok(LinkKind::Social)
    } else if same_chars(&word, &chars_of("subscription")) {
        Ok(LinkKind::Subscription)
    } else {
        Err(LinkError::BadKind)
    }
}

/// The parts of an address that are looked at.
#[derive(Debug)]
pub struct UrlParts {
    /// The scheme.
    pub scheme: String,
    /// The user, empty where none is named.
    pub username: String,
    /// Whether there is a password.
    pub has_password: bool,
    /// The host, where there is one.
    pub host: Option<String>,
    /// The whole address in its normal form.
    pub text: String,
}

/// The value of [`UrlParts`].
pub struct UrlView {
    /// The scheme.
    pub scheme: Seq<char>,
    /// The user.
    pub username: Seq<char>,
    /// Whether there is a password.
    pub has_password: bool,
    /// The host.
    pub host: Option<Seq<char>>,
    /// The whole address.
    pub text: Seq<char>,
}

impl View for UrlParts {
    type V = UrlView;

    open spec fn view(&self) -> UrlView {
        UrlView {
            scheme: self.scheme@,
            username: self.username@,
            has_password: self.has_password,
            host: match self.host {
                Some(h) => Some(h@),
                None => None,
            },
            text: self.text@,
        }
    }
}

/// The parts of the address that the `url` crate reads from a text.
pub uninterp spec fn url_parsed(text: Seq<char>) -> Option<UrlView>;

/// `url::Url::parse` and the accessors `scheme`, `username`, `password`,
/// `host_str` and `as_str` of its result: the parts of an address, or `None`
/// where the text is none. What an address is, and what its normal form is, is
/// not spelled out: the outcome has a name.
#[verifier::external_body]
fn parse_url(text: &str) -> (r: Option<UrlParts>)
    ensures
        match r {
            Some(p) => url_parsed(text@) == Some(p@),
            None => url_parsed(text@) is None,
        },
{
    let parsed = url::Url::parse(text).ok()?;
    Some(UrlParts {
        scheme: parsed.scheme().to_string(),
        username: parsed.username().to_string(),
        has_password: parsed.password().is_some(),
        host: parsed.host_str().map(str::to_string),
        text: parsed.as_str().to_string(),
    })
}

/// The address and the host of a link, or why it is refused, by the parts of its
/// address.
pub open spec fn checked_url(parts: Option<UrlView>) -> Result<(Seq<char>, Seq<char>), LinkError> {
    match parts {
        None => Err(LinkError::NotAUrl),
        Some(p) => if p.scheme != "http"@ && p.scheme != "https"@ {
            Err(LinkError::BadScheme)
        } else if p.username.len() > 0 || p.has_password {
            Err(LinkError::Credentials)
        } else {
            match p.host {
                None => Err(LinkError::NoHost),
                Some(h) => Ok((p.text, lower(h))),
            }
        },
    }
}

/// The outcome of reading an address: the parts count only where the text,
/// white space around it aside, is neither empty nor too long.
pub open spec fn normal_url(value: Seq<char>, parts: Option<UrlView>) -> Result<
    (Seq<char>, Seq<char>),
    LinkError,
> {
    let t = trimmed(value);
    if t.len() == 0 || t.len() > MAX_URL_CHARS {
        Err(LinkError::BadLength)
    } else {
        checked_url(parts)
    }
}

/// Whether an outcome of text is the outcome of a model.
pub open spec fn same_pair(
    a: Result<(String, String), LinkError>,
    b: Result<(Seq<char>, Seq<char>), LinkError>,
) -> bool {
    match (a, b) {
        (Ok(x), Ok(y)) => (x.0@, x.1@) == y,
        (Err(x), Err(y)) => x == y,
        _ => false,
    }
}

/// Checks the parts of an address.
pub fn check_url(parts: Option<UrlParts>) -> (r: Result<(String, String), LinkError>)
    ensures
        same_pair(
            r,
            checked_url(
                match parts {
                    Some(p) => Some(p@),
                    None => None,
                },
            ),
        ),
{
    let p = match parts {
        Some(p) => p,
        None => {
            return Err(LinkError::NotAUrl);
        },
    };
    if !same_text(&p.scheme, "http") && !same_text(&p.scheme, "https") {
        return Err(LinkError::BadScheme);
    }
    if chars_of(&p.username).len() > 0 || p.has_password {
        return Err(LinkError::Credentials);
    }
    match &p.host {
        None => Err(LinkError::NoHost),
        Some(h) => {
            let host = text_of(&to_lower(&chars_of(h)));
            Ok((p.text, host))
        },
    }
}

/// The address and the host of a link.
pub fn normalize_url(value: &str) -> (r: Result<(String, String), LinkError>)
    ensures
        same_pair(r, normal_url(value@, url_parsed(trimmed(value@)))),
{
    let t = trim_text(value);
    if t.len() == 0 || t.len() > MAX_URL_CHARS {
        return Err(LinkError::BadLength);
    }
    let parts = parse_url(&text_of(&t));
    check_url(parts)
}

/// The name of a platform: the host where none is given.
pub open spec fn platform_of(value: Seq<char>, host: Seq<char>) -> Option<Seq<char>> {
    let t = trimmed(value);
    if t.len() > MAX_PLATFORM_CHARS {
        None
    } else if t.len() == 0 {
        Some(host)
    } else {
        Some(t)
    }
}

/// The name of a platform.
pub fn normalize_platform(value: &str, host: &str) -> (r: Result<String, LinkError>)
    ensures
        match platform_of(value@, host@) {
            Some(p) => r is Ok && r->Ok_0@ == p,
            None => r is Err && r->Err_0 == LinkError::LongPlatform,
        },
{
    let t = trim_text(value);
    if t.len() > MAX_PLATFORM_CHARS {
        return Err(LinkError::LongPlatform);
    }
    if t.len() == 0 {
        Ok(host.to_owned())
    } else {
        Ok(text_of(&t))
    }
}

/// A link of an artist.
#[derive(Debug)]
pub struct ArtistProfileLink {
    /// The link.
    pub id: i64,
    /// The artist.
    pub artist_id: i64,
    /// The kind.
    pub kind: LinkKind,
    /// The name of the platform.
    pub platform: String,
    /// The address.
    pub url: String,
    /// The host of the address.
    pub host: String,
    /// When the link was made, in seconds.
    pub created_at: i64,
    /// When it was changed last, in seconds.
    pub updated_at: i64,
}

/// The value of an [`ArtistProfileLink`].
#[verifier::ext_equal]
pub struct LinkView {
    /// The link.
    pub id: i64,
    /// The artist.
    pub artist_id: i64,
    /// The kind.
    pub kind: LinkKind,
    /// The name of the platform.
    pub platform: Seq<char>,
    /// The address.
    pub url: Seq<char>,
    /// The host of the address.
    pub host: Seq<char>,
    /// When the link was made.
    pub created_at: i64,
    /// When it was changed last.
    pub updated_at: i64,
}

impl View for ArtistProfileLink {
    type V = LinkView;

    open spec fn view(&self) -> LinkView {
        LinkView {
            id: self.id,
            artist_id: self.artist_id,
            kind: self.kind,
            platform: self.platform@,
            url: self.url@,
            host: self.host@,
            created_at: self.created_at,
            updated_at: self.updated_at,
        }
    }
}

impl ArtistProfileLink {
    /// A second copy of a link.
    pub fn duplicate(&self) -> (r: ArtistProfileLink)
        ensures
            r@ == self@,
    {
        ArtistProfileLink {
            id: self.id,
            artist_id: self.artist_id,
            kind: self.kind,
            platform: self.platform.clone(),
            url: self.url.clone(),
            host: self.host.clone(),
            created_at: self.created_at,
            updated_at: self.updated_at,
        }
    }
}

/// Whether a link is the one of an artist with a kind and an address.
pub open spec fn is_link(artist_id: i64, kind: LinkKind, url: Seq<char>) -> spec_fn(LinkView) -> bool {
    |l: LinkView| l.artist_id == artist_id && l.kind == kind && l.url == url
}

/// Whether no artist has two links of one kind with one address.
pub open spec fn links_are_unique(links: Seq<LinkView>) -> bool {
    forall|i: int, j: int|
        0 <= i < j < links.len() ==> !is_link(
            (#[trigger] links[j]).artist_id,
            links[j].kind,
            links[j].url,
        )(#[trigger] links[i])
}

/// What saving a link leaves: the link with its kind and address gets the new
/// platform, host and time; where there is none, a new link stands at the end.
pub open spec fn with_link(links: Seq<LinkView>, link: LinkView) -> Seq<LinkView>
    decreases links.len(),
{
    if links.len() == 0 {
        seq![link]
    } else if is_link(link.artist_id, link.kind, link.url)(links[0]) {
        seq![
            LinkView {
                platform: link.platform,
                host: link.host,
                updated_at: link.updated_at,
                ..links[0]
            },
        ] + links.skip(1)
    } else {
        seq![links[0]] + with_link(links.skip(1), link)
    }
}

/// Where a link with a kind and an address stands and is put: saving changes
/// that place only.
proof fn lemma_with_link(links: Seq<LinkView>, link: LinkView, n: int)
    requires
        0 <= n <= links.len(),
        forall|j: int|
            0 <= j < n ==> !is_link(link.artist_id, link.kind, link.url)(#[trigger] links[j]),
        n < links.len() ==> is_link(link.artist_id, link.kind, link.url)(links[n]),
    ensures
        with_link(links, link) == (if n == links.len() {
            links.push(link)
        } else {
            links.update(
                n,
                LinkView {
                    platform: link.platform,
                    host: link.host,
                    updated_at: link.updated_at,
                    ..links[n]
                },
            )
        }),
    decreases links.len(),
{
    if links.len() == 0 {
        assert(with_link(links, link) =~= links.push(link));
    } else if n == 0 {
        assert(with_link(links, link) =~= links.update(
            0,
            LinkView {
                platform: link.platform,
                host: link.host,
                updated_at: link.updated_at,
                ..links[0]
            },
        ));
    } else {
        let rest = links.skip(1);
        assert forall|j: int| 0 <= j < n - 1 implies !is_link(link.artist_id, link.kind, link.url)(
            #[trigger] rest[j],
        ) by {
            assert(rest[j] == links[j + 1]);
        }
        assert(!is_link(link.artist_id, link.kind, link.url)(links[0]));
        lemma_with_link(rest, link, n - 1);
        if n == links.len() {
            assert(with_link(links, link) =~= links.push(link));
        } else {
            assert(with_link(links, link) =~= links.update(
                n,
                LinkView {
                    platform: link.platform,
                    host: link.host,
                    updated_at: link.updated_at,
                    ..links[n]
                },
            ));
        }
    }
}

/// The link to be saved, or why it is refused.
pub open spec fn accepted_link(
    artist_exists: bool,
    artist_id: i64,
    kind: Seq<char>,
    platform: Seq<char>,
    url: Result<(Seq<char>, Seq<char>), LinkError>,
    id: i64,
    now: i64,
) -> Result<LinkView, LinkError> {
    if !artist_exists {
        Err(LinkError::NoArtist)
    } else {
        match kind_of(kind) {
            None => Err(LinkError::BadKind),
            Some(k) => match url {
                Err(e) => Err(e),
                Ok((address, host)) => match platform_of(platform, host) {
                    None => Err(LinkError::LongPlatform),
                    Some(p) => Ok(
                        LinkView {
                            id,
                            artist_id,
                            kind: k,
                            platform: p,
                            url: address,
                            host,
                            created_at: now,
                            updated_at: now,
                        },
                    ),
                },
            },
        }
    }
}

/// Saves a link, or refuses it and changes nothing. `id` is the id of a new link.
/// The saved link comes back.
pub fn create_artist_profile_link(
    links: &mut Vec<ArtistProfileLink>,
    artist_exists: bool,
    artist_id: i64,
    kind: &str,
    platform: &str,
    url: &str,
    id: i64,
    now: i64,
) -> (r: Result<ArtistProfileLink, LinkError>)
    ensures
        match accepted_link(
            artist_exists,
            artist_id,
            kind@,
            platform@,
            normal_url(url@, url_parsed(trimmed(url@))),
            id,
            now,
        ) {
            Err(e) => r is Err && r->Err_0 == e && views(final(links)@) == views(old(links)@),
            Ok(link) => {
                &&& views(final(links)@) == with_link(views(old(links)@), link)
                &&& r is Ok
                &&& first(
                    views(final(links)@),
                    is_link(link.artist_id, link.kind, link.url),
                ) == Some(r->Ok_0@)
            },
        },
{
    if !artist_exists {
        return Err(LinkError::NoArtist);
    }
    let kind = match normalize_kind(kind) {
        Ok(k) => k,
        Err(e) => {
            return Err(e);
        },
    };
    let (url, host) = match normalize_url(url) {
        Ok(p) => p,
        Err(e) => {
            return Err(e);
        },
    };
    let platform = match normalize_platform(platform, &host) {
        Ok(p) => p,
        Err(e) => {
            return Err(e);
        },
    };
    let link = ArtistProfileLink {
        id,
        artist_id,
        kind,
        platform,
        url,
        host,
        created_at: now,
        updated_at: now,
    };
    Ok(save_link(links, link))
}

/// Saves a link.
fn save_link(links: &mut Vec<ArtistProfileLink>, link: ArtistProfileLink) -> (r: ArtistProfileLink)
    ensures
        views(final(links)@) == with_link(views(old(links)@), link@),
        first(views(final(links)@), is_link(link@.artist_id, link@.kind, link@.url)) == Some(r@),
{
    let ghost before = views(links@);
    let ghost wanted = is_link(link@.artist_id, link@.kind, link@.url);
    let (artist_id, kind) = (link.artist_id, link.kind);
    let url = link.url.clone();
    let is_it = |l: &ArtistProfileLink| -> (b: bool)
        ensures
            b == wanted(l@),
        { l.artist_id == artist_id && l.kind == kind && same_text(&l.url, &url) };
    let found = find_row(links, is_it, Ghost(wanted));
    match found {
        Some(i) => {
            let saved = ArtistProfileLink {
                id: links[i].id,
                artist_id,
                kind,
                platform: link.platform,
                url,
                host: link.host,
                created_at: links[i].created_at,
                updated_at: link.updated_at,
            };
            let r = saved.duplicate();
            proof {
                lemma_with_link(before, link@, i as int);
            }
            links.set(i, saved);
            assert(views(links@) =~= before.update(i as int, saved@));
            proof {
                lemma_first_at(views(links@), wanted, i as int);
            }
            r
        },
        None => {
            proof {
                crate::tables::lemma_first(before, wanted);
                lemma_with_link(before, link@, before.len() as int);
            }
            let r = link.duplicate();
            links.push(link);
            assert(views(links@) =~= before.push(link@));
            proof {
                lemma_first_at(views(links@), wanted, before.len() as int);
            }
            r
        },
    }
}

/// A row that meets a condition, with none before it, is the first that does.
proof fn lemma_first_at(rows: Seq<LinkView>, wanted: spec_fn(LinkView) -> bool, n: int)
    requires
        0 <= n < rows.len(),
        wanted(rows[n]),
        forall|j: int| 0 <= j < n ==> !wanted(#[trigger] rows[j]),
    ensures
        first(rows, wanted) == Some(rows[n]),
    decreases rows.len(),
{
    let d = rows.drop_last();
    if n < d.len() {
        lemma_first_at(d, wanted, n);
    } else {
        crate::tables::lemma_first(d, wanted);
        if first(d, wanted) is Some {
            let j = d.index_of(first(d, wanted)->Some_0);
            assert(!wanted(rows[j]));
        }
    }
}

/// Deletes the link of an artist. Whether there was one comes back.
pub fn delete_artist_profile_link(
    links: &mut Vec<ArtistProfileLink>,
    artist_id: i64,
    link_id: i64,
) -> (r: bool)
    ensures
        views(final(links)@) == kept(
            views(old(links)@),
            |l: LinkView| !(l.id == link_id && l.artist_id == artist_id),
        ),
        r == (final(links)@.len() < old(links)@.len()),
{
    let ghost model = |l: LinkView| !(l.id == link_id && l.artist_id == artist_id);
    let n = links.len();
    let stays = |l: &ArtistProfileLink| -> (b: bool)
        ensures
            b == model(l@),
        { !(l.id == link_id && l.artist_id == artist_id) };
    keep_rows(links, stays, Ghost(model));
    links.len() < n
}

/// The place of a kind in a list.
pub open spec fn kind_rank(kind: LinkKind) -> int {
    match kind {
        LinkKind::Social => 0,
        LinkKind::Subscription => 1,
    }
}

/// Whether a link stands before another in a list, or is as good: social links
/// first, then by the platform without regard to the case of ASCII letters, then
/// by id.
pub open spec fn link_le(a: LinkView, b: LinkView) -> bool {
    if a.kind != b.kind {
        kind_rank(a.kind) < kind_rank(b.kind)
    } else if lower(a.platform) != lower(b.platform) {
        text_le(lower(a.platform), lower(b.platform))
    } else {
        a.id <= b.id
    }
}

/// Whether a link stands before another in a list.
fn stands_before(a: &ArtistProfileLink, b: &ArtistProfileLink) -> (r: bool)
    ensures
        r == link_le(a@, b@),
{
    if a.kind != b.kind {
        match a.kind {
            LinkKind::Social => true,
            LinkKind::Subscription => false,
        }
    } else {
        let x = text_of(&to_lower(&chars_of(&a.platform)));
        let y = text_of(&to_lower(&chars_of(&b.platform)));
        if !same_text(&x, &y) {
            not_after(&x, &y)
        } else {
            a.id <= b.id
        }
    }
}

/// Two different texts do not both stand before each other.
proof fn lemma_text_le_antisymmetric(a: Seq<char>, b: Seq<char>)
    requires
        text_le(a, b),
        text_le(b, a),
    ensures
        a == b,
    decreases a.len(),
{
    if a.len() == 0 {
        assert(a =~= b);
    } else {
        lemma_text_le_antisymmetric(a.skip(1), b.skip(1));
        assert(a =~= seq![a[0]] + a.skip(1));
        assert(b =~= seq![b[0]] + b.skip(1));
    }
}

/// Of two links one stands before the other.
proof fn lemma_link_le_total(a: LinkView, b: LinkView)
    ensures
        link_le(a, b) || link_le(b, a),
{
    lemma_text_le_total(lower(a.platform), lower(b.platform));
}

/// The order of links carries over.
proof fn lemma_link_le_transitive(a: LinkView, b: LinkView, c: LinkView)
    requires
        link_le(a, b),
        link_le(b, c),
    ensures
        link_le(a, c),
{
    let (x, y, z) = (lower(a.platform), lower(b.platform), lower(c.platform));
    if a.kind == b.kind && b.kind == c.kind && x != y && y != z {
        lemma_text_le_transitive(x, y, z);
        if x == z {
            lemma_text_le_antisymmetric(x, y);
        }
    }
}

/// Whether links stand in the order of a list.
pub open spec fn links_in_order(links: Seq<LinkView>) -> bool {
    forall|i: int, j: int| 0 <= i < j < links.len() ==> link_le(#[trigger] links[i], #[trigger] links[j])
}

/// Puts a link in its place in a list that is in order.
fn insert_link(list: &mut Vec<ArtistProfileLink>, link: ArtistProfileLink)
    requires
        links_in_order(views(old(list)@)),
    ensures
        links_in_order(views(final(list)@)),
        views(final(list)@).to_multiset() == views(old(list)@).to_multiset().insert(link@),
{
    let ghost before = views(list@);
    let mut i: usize = 0;
    while i < list.len() && stands_before(&list[i], &link)
        invariant
            i <= list@.len(),
            views(list@) == before,
            forall|j: int| 0 <= j < i ==> link_le(#[trigger] before[j], link@),
        decreases list@.len() - i,
    {
        assert(before[i as int] == list@[i as int]@);
        i += 1;
    }
    let ghost value = link@;
    proof {
        if i < before.len() {
            assert(before[i as int] == list@[i as int]@);
            lemma_link_le_total(value, before[i as int]);
        }
        assert forall|j: int| i <= j < before.len() implies link_le(value, #[trigger] before[j]) by {
            if j > i {
                assert(link_le(before[i as int], before[j]));
                lemma_link_le_transitive(value, before[i as int], before[j]);
            }
        }
    }
    list.insert(i, link);
    proof {
        let now = views(list@);
        assert(now =~= before.insert(i as int, value));
        assert forall|a: int, b: int| 0 <= a < b < now.len() implies link_le(
            #[trigger] now[a],
            #[trigger] now[b],
        ) by {
            if a < i {
                assert(now[a] == before[a]);
            } else if a > i {
                assert(now[a] == before[a - 1]);
            }
            if b < i {
                assert(now[b] == before[b]);
            } else if b > i {
                assert(now[b] == before[b - 1]);
            }
        }
        vstd::seq_lib::to_multiset_insert(before, i as int, value);
    }
}

/// The links of an artist as they are shown, with the numbers of both kinds.
#[derive(Debug)]
pub struct ProfileLinks {
    /// The artist.
    pub artist_id: i64,
    /// How many links are social ones.
    pub social: usize,
    /// How many are subscriptions.
    pub subscription: usize,
    /// The links in their order.
    pub links: Vec<ArtistProfileLink>,
}

/// The links of an artist.
pub open spec fn links_of(links: Seq<LinkView>, artist_id: i64) -> Seq<LinkView> {
    kept(links, |l: LinkView| l.artist_id == artist_id)
}

/// How many links are of a kind.
pub open spec fn links_of_kind(links: Seq<LinkView>, kind: LinkKind) -> nat {
    crate::tables::tally(links, |l: LinkView| l.kind == kind)
}

/// Shows the links of an artist. A library that never had links has an empty
/// table.
pub fn artist_profile_links_response(links: &Vec<ArtistProfileLink>, artist_id: i64) -> (r:
    ProfileLinks)
    ensures
        r.artist_id == artist_id,
        views(r.links@).to_multiset() == links_of(views(links@), artist_id).to_multiset(),
        links_in_order(views(r.links@)),
        r.social == links_of_kind(links_of(views(links@), artist_id), LinkKind::Social),
        r.subscription == links_of_kind(
            links_of(views(links@), artist_id),
            LinkKind::Subscription,
        ),
{
    let ghost all = views(links@);
    let ghost mine = |l: LinkView| l.artist_id == artist_id;
    let ghost is_social = |l: LinkView| l.kind == LinkKind::Social;
    let ghost is_subscription = |l: LinkView| l.kind == LinkKind::Subscription;
    let mut out: Vec<ArtistProfileLink> = Vec::new();
    let mut social: usize = 0;
    let mut subscription: usize = 0;
    let mut i: usize = 0;
    proof {
        assert(all.take(0) =~= Seq::<LinkView>::empty());
        assert(views(out@) =~= Seq::<LinkView>::empty());
    }
    while i < links.len()
        invariant
            i <= links@.len(),
            all == views(links@),
            mine == (|l: LinkView| l.artist_id == artist_id),
            is_social == (|l: LinkView| l.kind == LinkKind::Social),
            is_subscription == (|l: LinkView| l.kind == LinkKind::Subscription),
            views(out@).to_multiset() == kept(all.take(i as int), mine).to_multiset(),
            links_in_order(views(out@)),
            social == kept(kept(all.take(i as int), mine), is_social).len(),
            subscription == kept(kept(all.take(i as int), mine), is_subscription).len(),
            social <= i,
            subscription <= i,
        decreases links@.len() - i,
    {
        let ghost so_far = kept(all.take(i as int), mine);
        proof {
            assert(all.take(i as int + 1).drop_last() =~= all.take(i as int));
            assert(all.take(i as int + 1).last() == links@[i as int]@);
        }
        if links[i].artist_id == artist_id {
            proof {
                let value = links@[i as int]@;
                assert(so_far.push(value).drop_last() =~= so_far);
                so_far.to_multiset_ensures();
            }
            match links[i].kind {
                LinkKind::Social => {
                    social += 1;
                },
                LinkKind::Subscription => {
                    subscription += 1;
                },
            }
            insert_link(&mut out, links[i].duplicate());
        }
        i += 1;
    }
    assert(all.take(all.len() as int) =~= all);
    ProfileLinks { artist_id, social, subscription, links: out }
}

/// Saving a link keeps the links unique.
pub proof fn saving_keeps_links_unique(links: Seq<LinkView>, link: LinkView)
    requires
        links_are_unique(links),
    ensures
        links_are_unique(with_link(links, link)),
{
    let wanted = is_link(link.artist_id, link.kind, link.url);
    let n = lemma_place(links, wanted);
    lemma_with_link(links, link, n);
    let now = with_link(links, link);
    assert forall|i: int, j: int| 0 <= i < j < now.len() implies !is_link(
        (#[trigger] now[j]).artist_id,
        now[j].kind,
        now[j].url,
    )(#[trigger] now[i]) by {
        if j < links.len() {
            assert(!is_link(links[j].artist_id, links[j].kind, links[j].url)(links[i]));
        } else {
            assert(!wanted(links[i]));
        }
    }
}

/// Saving a link a second time, with another platform, changes the saved link
/// and adds none.
pub proof fn saving_again_updates(links: Seq<LinkView>, link: LinkView, again: LinkView)
    requires
        again.artist_id == link.artist_id,
        again.kind == link.kind,
        again.url == link.url,
    ensures
        with_link(with_link(links, link), again).len() == with_link(links, link).len(),
        ({
            let wanted = is_link(link.artist_id, link.kind, link.url);
            let saved = first(with_link(with_link(links, link), again), wanted);
            &&& saved is Some
            &&& saved->Some_0.platform == again.platform
            &&& saved->Some_0.host == again.host
            &&& saved->Some_0.updated_at == again.updated_at
            &&& first(with_link(links, link), wanted) is Some
            &&& saved->Some_0.id == first(with_link(links, link), wanted)->Some_0.id
        }),
{
    let wanted = is_link(link.artist_id, link.kind, link.url);
    let n = lemma_place(links, wanted);
    lemma_with_link(links, link, n);
    let once = with_link(links, link);
    assert forall|j: int| 0 <= j < n implies !wanted(#[trigger] once[j]) by {
        assert(once[j] == links[j]);
    }
    lemma_with_link(once, again, n);
    let twice = with_link(once, again);
    assert forall|j: int| 0 <= j < n implies !wanted(#[trigger] twice[j]) by {
        assert(twice[j] == once[j]);
    }
    lemma_first_at(once, wanted, n);
    lemma_first_at(twice, wanted, n);
}

/// The place of the first link that meets a condition, or the end.
proof fn lemma_place(links: Seq<LinkView>, wanted: spec_fn(LinkView) -> bool) -> (n: int)
    ensures
        0 <= n <= links.len(),
        forall|j: int| 0 <= j < n ==> !wanted(#[trigger] links[j]),
        n < links.len() ==> wanted(links[n]),
    decreases links.len(),
{
    if links.len() == 0 {
        0
    } else {
        let d = links.drop_last();
        let n = lemma_place(d, wanted);
        assert forall|j: int| 0 <= j < n implies !wanted(#[trigger] links[j]) by {
            assert(d[j] == links[j]);
        }
        if n < d.len() || wanted(links.last()) {
            n
        } else {
            n + 1
        }
    }
}

/// The kind of a link is named by its word, with white space around it or without; any other
/// word names none.
pub proof fn kinds_are_named_by_their_words(word: Seq<char>, front: Seq<char>, back: Seq<char>)
    requires
        forall|i: int| 0 <= i < front.len() ==> crate::text::white_space(#[trigger] front[i]),
        forall|i: int| 0 <= i < back.len() ==> crate::text::white_space(#[trigger] back[i]),
    ensures
        kind_of(front + "social"@ + back) == Some(LinkKind::Social),
        kind_of(front + "subscription"@ + back) == Some(LinkKind::Subscription),
        trimmed(word) != "social"@ && trimmed(word) != "subscription"@ ==> kind_of(word) is None,
        kind_of(LinkKind::Social.word()) == Some(LinkKind::Social),
        kind_of(LinkKind::Subscription.word()) == Some(LinkKind::Subscription),
{
    reveal_strlit("social");
    reveal_strlit("subscription");
    let (a, b) = ("social"@, "subscription"@);
    assert(a.len() == 6 && b.len() == 12);
    assert(a[0] == 's' && a[5] == 'l' && b[0] == 's' && b[11] == 'n');
    crate::text_laws::trimming_takes_the_white_ends(front, a, back);
    crate::text_laws::trimming_takes_the_white_ends(front, b, back);
    let none = Seq::<char>::empty();
    crate::text_laws::trimming_takes_the_white_ends(none, a, none);
    crate::text_laws::trimming_takes_the_white_ends(none, b, none);
    assert(none + a + none =~= a);
    assert(none + b + none =~= b);
}

/// An address is accepted exactly where it is a web address with a host and without
/// credentials, and then as the parser writes it, with its host in lower case.
pub proof fn plain_web_addresses_are_accepted(p: UrlView)
    ensures
        checked_url(Some(p)) is Ok <==> (p.scheme == "http"@ || p.scheme == "https"@)
            && p.username.len() == 0 && !p.has_password && p.host is Some,
        checked_url(Some(p)) is Ok ==> checked_url(Some(p))->Ok_0 == (p.text, lower(p.host->Some_0)),
        checked_url(None) == Err::<(Seq<char>, Seq<char>), LinkError>(LinkError::NotAUrl),
        checked_url(Some(p)) == Err::<(Seq<char>, Seq<char>), LinkError>(LinkError::Credentials)
            <==> (p.scheme == "http"@ || p.scheme == "https"@) && (p.username.len() > 0
            || p.has_password),
        checked_url(Some(p)) == Err::<(Seq<char>, Seq<char>), LinkError>(LinkError::NoHost) <==> (
        p.scheme == "http"@ || p.scheme == "https"@) && p.username.len() == 0 && !p.has_password
            && p.host is None,
{
}

/// An address with nothing but white space, or with more than 4096 characters, is refused
/// whatever the parser makes of it.
pub proof fn addresses_have_a_length(value: Seq<char>, parts: Option<UrlView>)
    ensures
        normal_url(value, parts) == Err::<(Seq<char>, Seq<char>), LinkError>(LinkError::BadLength)
            <==> !(1 <= trimmed(value).len() <= 4096),
        1 <= trimmed(value).len() <= 4096 ==> normal_url(value, parts) == checked_url(parts),
{
}

/// The platform of a link is what was given for it, trimmed, and the host where nothing was;
/// up to 120 characters are accepted.
pub proof fn platforms_default_to_the_host(value: Seq<char>, host: Seq<char>)
    ensures
        platform_of(value, host) is Some <==> trimmed(value).len() <= 120,
        platform_of(value, host) matches Some(p) ==> p == if trimmed(value).len() == 0 {
            host
        } else {
            trimmed(value)
        },
{
}

/// Saving a new link puts it behind the others; saving one that is there changes its platform,
/// its host and the time of its change, and no other link.
pub proof fn saving_changes_one_link(links: Seq<LinkView>, link: LinkView, k: int)
    requires
        0 <= k <= links.len(),
        forall|i: int|
            0 <= i < k ==> !((#[trigger] links[i]).artist_id == link.artist_id && links[i].kind
                == link.kind && links[i].url == link.url),
        k < links.len() ==> links[k].artist_id == link.artist_id && links[k].kind == link.kind
            && links[k].url == link.url,
    ensures
        with_link(links, link) == if k < links.len() {
            links.update(
                k,
                LinkView {
                    id: links[k].id,
                    artist_id: link.artist_id,
                    kind: link.kind,
                    platform: link.platform,
                    url: link.url,
                    host: link.host,
                    created_at: links[k].created_at,
                    updated_at: link.updated_at,
                },
            )
        } else {
            links.push(link)
        },
    decreases k,
{
    let now = with_link(links, link);
    if k == 0 {
        if links.len() > 0 {
            assert(now =~= links.update(0, now[0]));
        } else {
            assert(now =~= links.push(link));
        }
    } else {
        let rest = links.skip(1);
        assert(!(links[0].artist_id == link.artist_id && links[0].kind == link.kind && links[0].url
            == link.url));
        assert forall|i: int| 0 <= i < k - 1 implies !((#[trigger] rest[i]).artist_id
            == link.artist_id && rest[i].kind == link.kind && rest[i].url == link.url) by {
            assert(rest[i] == links[i + 1]);
        }
        if k < links.len() {
            assert(rest[k - 1] == links[k]);
        }
        saving_changes_one_link(rest, link, k - 1);
        if k < links.len() {
            assert(now =~= links.update(k, now[k]));
        } else {
            assert(now =~= links.push(link));
        }
    }
}

/// Links are shown social ones first, then by platform without regard to case, then by number.
pub proof fn social_links_come_first(a: LinkView, b: LinkView)
    requires
        link_le(a, b),
    ensures
        a.kind == LinkKind::Subscription ==> b.kind == LinkKind::Subscription,
        a.kind == b.kind ==> text_le(lower(a.platform), lower(b.platform)),
        a.kind == b.kind && lower(a.platform) == lower(b.platform) ==> a.id <= b.id,
{
    crate::order::lemma_text_le_total(lower(a.platform), lower(a.platform));
}

/// A link is refused for the first thing that is wrong with it: the artist, the kind, the
/// address, the platform; else it holds what was given.
pub proof fn links_are_refused_in_order(
    artist_exists: bool,
    artist_id: i64,
    kind: Seq<char>,
    platform: Seq<char>,
    url: Result<(Seq<char>, Seq<char>), LinkError>,
    id: i64,
    now: i64,
)
    ensures
        ({
            let r = accepted_link(artist_exists, artist_id, kind, platform, url, id, now);
            &&& r is Ok <==> artist_exists && (trimmed(kind) == "social"@ || trimmed(kind)
                == "subscription"@) && url is Ok && trimmed(platform).len() <= 120
            &&& r matches Ok(l) ==> l.id == id && l.artist_id == artist_id && l.kind.word()
                == trimmed(kind) && l.url == url->Ok_0.0 && l.host == url->Ok_0.1 && l.created_at
                == now && l.updated_at == now && (trimmed(platform).len() > 0 ==> l.platform
                == trimmed(platform)) && (trimmed(platform).len() == 0 ==> l.platform == l.host)
            &&& !artist_exists ==> r == Err::<LinkView, LinkError>(LinkError::NoArtist)
        }),
{
}

/// Listed links stand in order: social ones in front, then by platform without regard to ASCII
/// case, then by number.
pub proof fn listed_links_stand_in_order(links: Seq<LinkView>, i: int, j: int)
    requires
        links_in_order(links),
        0 <= i < j < links.len(),
    ensures
        !(links[i].kind is Subscription && links[j].kind is Social),
        links[i].kind == links[j].kind ==> text_le(
            lower(links[i].platform),
            lower(links[j].platform),
        ) || lower(links[i].platform) == lower(links[j].platform),
        links[i].kind == links[j].kind && lower(links[i].platform) == lower(links[j].platform)
            ==> links[i].id <= links[j].id,
{
    assert(link_le(links[i], links[j]));
}

}
