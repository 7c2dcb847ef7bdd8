//! Links of artists.

use gallery_accel::artist_profile_links::{
    artist_profile_links_response, check_url, create_artist_profile_link,
    delete_artist_profile_link, normalize_kind, normalize_platform, normalize_url,
    ArtistProfileLink, LinkError, LinkKind, UrlParts,
};

struct Table {
    links: Vec<ArtistProfileLink>,
    next_id: i64,
}

impl Table {
    fn new() -> Table {
        Table { links: Vec::new(), next_id: 1 }
    }

    fn create(&mut self, kind: &str, platform: &str, url: &str) -> Result<i64, LinkError> {
        let made = create_artist_profile_link(
            &mut self.links, true, 1, kind, platform, url, self.next_id, 100,
        )?;
        self.next_id += 1;
        Ok(made.id)
    }
}

#[test]
fn creates_updates_lists_and_deletes_profile_links() {
    let mut table = Table::new();
    let social_id = table.create("social", "X", "https://x.com/example").unwrap();
    table.create("social", "Twitter", "https://x.com/example").unwrap();
    table.create("subscription", "", "https://patreon.com/example").unwrap();

    let response = artist_profile_links_response(&table.links, 1);
    assert_eq!(response.social, 1);
    assert_eq!(response.subscription, 1);
    assert_eq!(response.links[0].platform, "Twitter");
    assert_eq!(response.links[1].platform, "patreon.com");

    assert_eq!(delete_artist_profile_link(&mut table.links, 1, social_id), true);
    assert_eq!(artist_profile_links_response(&table.links, 1).social, 0);
}

#[test]
fn rejects_invalid_links_without_a_network_request() {
    let mut table = Table::new();
    assert!(table.create("social", "X", "mailto:test@example.com").is_err());
    assert!(table.create("unknown", "X", "https://x.com/example").is_err());
}

#[test]
fn returns_empty_data_when_an_old_read_only_database_has_no_table() {
    let response = artist_profile_links_response(&Vec::new(), 1);
    assert!(response.links.is_empty());
    assert_eq!((response.social, response.subscription), (0, 0));
}

#[test]
fn every_refusal_has_its_reason() {
    let mut table = Table::new();
    let long = "x".repeat(5000);
    assert_eq!(table.create("social", "X", " ").unwrap_err(), LinkError::BadLength);
    assert_eq!(table.create("social", "X", &long).unwrap_err(), LinkError::BadLength);
    assert_eq!(table.create("social", "X", "not a url").unwrap_err(), LinkError::NotAUrl);
    assert_eq!(table.create("social", "X", "ftp://a/b").unwrap_err(), LinkError::BadScheme);
    assert_eq!(
        table.create("social", "X", "https://u:p@a.com/").unwrap_err(),
        LinkError::Credentials
    );
    assert_eq!(table.create("fan", "X", "https://a.com/").unwrap_err(), LinkError::BadKind);
    assert_eq!(
        table.create("social", &"p".repeat(121), "https://a.com/").unwrap_err(),
        LinkError::LongPlatform
    );
    let gone = create_artist_profile_link(
        &mut table.links, false, 1, "social", "X", "https://a.com/", 9, 0,
    );
    assert_eq!(gone.unwrap_err(), LinkError::NoArtist);
    assert!(table.links.is_empty());
    assert_eq!(LinkError::NotAUrl.message(), "URL is not valid");
}

#[test]
fn addresses_are_normalized() {
    assert_eq!(
        normalize_url("  HTTPS://Example.COM  ").unwrap(),
        ("https://example.com/".to_string(), "example.com".to_string())
    );
    let parts = UrlParts {
        scheme: "https".to_string(),
        username: String::new(),
        has_password: false,
        host: Some("A.Com".to_string()),
        text: "https://A.Com/".to_string(),
    };
    assert_eq!(
        check_url(Some(parts)).unwrap(),
        ("https://A.Com/".to_string(), "a.com".to_string())
    );
    let bare = UrlParts {
        scheme: "http".to_string(),
        username: String::new(),
        has_password: false,
        host: None,
        text: "http:".to_string(),
    };
    assert_eq!(check_url(Some(bare)).unwrap_err(), LinkError::NoHost);
    assert_eq!(check_url(None).unwrap_err(), LinkError::NotAUrl);
    assert_eq!(normalize_kind(" social ").unwrap(), LinkKind::Social);
    assert_eq!(normalize_platform("  ", "a.com").unwrap(), "a.com");
}

#[test]
fn links_stand_by_kind_platform_and_id() {
    let mut table = Table::new();
    table.create("subscription", "a", "https://a.com/1").unwrap();
    table.create("social", "b", "https://b.com/1").unwrap();
    table.create("social", "A", "https://c.com/1").unwrap();
    table.create("social", "a", "https://d.com/1").unwrap();
    let shown: Vec<i64> =
        artist_profile_links_response(&table.links, 1).links.iter().map(|l| l.id).collect();
    assert_eq!(shown, vec![3, 4, 2, 1]);
    assert!(!delete_artist_profile_link(&mut table.links, 2, 3));
}
