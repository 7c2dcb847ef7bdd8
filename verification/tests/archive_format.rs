//! Templates, profiles and settings of folder archives.

use gallery_accel::archive_format::{
    all_tokens, default_profile, default_settings, formatted_date, is_windows_reserved_component,
    normalize_profile,
    normalize_settings, parse_date, parse_template, parse_year_month, profile_by_id,
    profile_for_artist, render_profile, render_with_dates, rule_snapshot, sanitize_token_value,
    settings_response, validate_profile_id, validate_rendered_target, validate_tag_separator,
    validate_template, CollisionStrategy, DateFormat, ProfileSource, RenderContext,
};
use gallery_accel::json::Json;

fn text(s: &str) -> Json {
    Json::Text(s.to_string())
}

fn object(members: Vec<(&str, Json)>) -> Json {
    Json::Object(members.into_iter().map(|(k, v)| (k.to_string(), v)).collect())
}

fn profile(id: &str, template: &str) -> Json {
    object(vec![("id", text(id)), ("name", text(id)), ("template", text(template))])
}

fn context(artist: &str, date: &str, tags: &[&str], title: &str, folder: &str, index: usize) -> RenderContext {
    RenderContext {
        artist: artist.to_string(),
        date: date.to_string(),
        tags: tags.iter().map(|t| t.to_string()).collect(),
        title: title.to_string(),
        folder: folder.to_string(),
        index,
    }
}

#[test]
fn renders_all_tokens_with_safe_values() {
    let profile = object(vec![
        ("id", text("custom")),
        ("name", text("Custom")),
        (
            "template",
            text("{artist}/{year}/{month}/{date} - {title} - {tags} - {folder} - {index}"),
        ),
        ("tag_separator", text("+")),
        ("date_format", text("iso")),
        ("conflict_strategy", text("reject")),
    ]);
    let rendered = render_profile(
        &profile,
        &context("A/rtist", "2024.03.04", &["one", "two/two"], "..", "source/name", 3),
    )
    .unwrap();
    assert_eq!(
        rendered.target_folder,
        "A_rtist/2024/03/2024-03-04 - untitled - one+two_two - source_name - 3"
    );
    assert_eq!(rendered.tokens.year, "2024");
    assert_eq!(rendered.tokens.tag_values, vec!["one", "two_two"]);
}

#[test]
fn renders_year_month_without_inventing_a_day() {
    let rendered = render_profile(
        &object(vec![
            ("id", text("month")),
            ("name", text("Month")),
            ("template", text("{year}/{date} {tags}")),
        ]),
        &context("Artist", "2024-03", &["one", "two"], "Title", "Folder", 1),
    )
    .unwrap();

    assert_eq!(rendered.target_folder, "2024/2024-03 one&two");
    assert_eq!(rendered.tokens.month, "03");
}

#[test]
fn rejects_unknown_unmatched_and_traversal_templates() {
    for template in [
        "{unknown}",
        "{title",
        "title}",
        "../{title}",
        "{title}/../x",
    ] {
        assert!(validate_template(template).is_err(), "{template}");
    }
    assert!(validate_rendered_target("x/../y").is_err());
    assert!(validate_rendered_target("C:/x").is_err());
}

#[test]
fn settings_select_artist_profile_and_validate_references() {
    let settings = normalize_settings(&object(vec![
        ("default_profile_id", text("global")),
        (
            "profiles",
            Json::Array(vec![
                object(vec![
                    ("id", text("global")),
                    ("name", text("Global")),
                    ("template", text("{title}")),
                ]),
                object(vec![
                    ("id", text("artist")),
                    ("name", text("Artist")),
                    ("template", text("{folder}/{index}")),
                    ("conflict_strategy", text("suffix")),
                ]),
            ]),
        ),
        ("artist_profile_ids", object(vec![("42", text("artist"))])),
    ]))
    .unwrap();
    let (profile, source) = profile_for_artist(&settings.to_json(), 42).unwrap();
    assert_eq!(profile.id, "artist");
    assert_eq!(source.name(), "artist");
    assert!(normalize_settings(&object(vec![
        (
            "profiles",
            Json::Array(vec![object(vec![
                ("id", text("only")),
                ("name", text("Only")),
                ("template", text("{title}")),
            ])]),
        ),
        ("default_profile_id", text("missing")),
    ]))
    .is_err());
}

#[test]
fn templates_are_read_into_parts() {
    let parts = parse_template("{year}/{date} {tags}").unwrap();
    assert_eq!(parts.len(), 5);
    assert_eq!(parse_template("{{title}}").is_err(), true);
    assert_eq!(all_tokens().len(), 8);
    assert_eq!(
        all_tokens().iter().map(|t| t.name()).collect::<Vec<_>>(),
        vec!["artist", "date", "year", "month", "tags", "title", "folder", "index"]
    );
}

#[test]
fn targets_are_checked_component_by_component() {
    assert_eq!(validate_rendered_target("a/b c/d").unwrap(), "a/b c/d");
    for bad in ["", "/a", "a//b", "a/./b", "a:b", "con", "a/NUL.txt", "a/b.", "a /b"] {
        assert!(validate_rendered_target(bad).is_err(), "{bad:?}");
    }
    assert_eq!(validate_rendered_target("a\\b").unwrap(), "a/b");
    let once = validate_rendered_target("x/y").unwrap();
    assert_eq!(validate_rendered_target(&once).unwrap(), once);
}

#[test]
fn device_names_are_reserved() {
    for name in ["CON", "con.txt", "prn", "AUX", "nul", "com1", "LPT9.log"] {
        assert!(is_windows_reserved_component(name), "{name}");
    }
    for name in ["console", "com0x", "lpt", "nulla", "a.con"] {
        assert!(!is_windows_reserved_component(name), "{name}");
    }
}

#[test]
fn token_values_fall_back_step_by_step() {
    assert_eq!(sanitize_token_value(" a/b: ", "x"), "a_b_");
    assert_eq!(sanitize_token_value("..", "fall"), "fall");
    assert_eq!(sanitize_token_value("..", ""), "");
    assert_eq!(sanitize_token_value("con", "nul"), "untitled");
    assert_eq!(sanitize_token_value(&"x".repeat(200), "y").chars().count(), 160);
}

#[test]
fn dates_are_read_in_several_forms() {
    let day = parse_date("2024.03.04").unwrap();
    assert_eq!((day.year, day.month, day.day), (2024, 3, 4));
    assert!(parse_date("2024-02-30").is_none());
    assert!(parse_date("nonsense").is_none());
    let month = parse_year_month("2024-03").unwrap();
    assert_eq!((month.year, month.month), (2024, 3));
    assert!(parse_year_month("2024-13").is_none());
}

#[test]
fn dates_are_written_by_format() {
    assert_eq!(
        formatted_date("2024-03-04", DateFormat::Iso, "none"),
        ("2024-03-04".to_string(), "2024".to_string(), "03".to_string())
    );
    assert_eq!(
        formatted_date("2024-03-04", DateFormat::Compact, "none"),
        ("20240304".to_string(), "2024".to_string(), "03".to_string())
    );
    assert_eq!(
        formatted_date("2024-03-04", DateFormat::YearMonth, "none"),
        ("2024-03".to_string(), "2024".to_string(), "03".to_string())
    );
    assert_eq!(
        formatted_date("?", DateFormat::Iso, "none"),
        ("none".to_string(), "none".to_string(), "none".to_string())
    );
}

#[test]
fn profiles_name_what_is_wrong() {
    let wrong = |members: Vec<(&str, Json)>| normalize_profile(&object(members)).unwrap_err();
    assert_eq!(
        normalize_profile(&Json::Null).unwrap_err(),
        "archive format profile must be an object"
    );
    assert_eq!(wrong(vec![]), "id must be a string");
    assert_eq!(wrong(vec![("id", text(" "))]), "id cannot be empty");
    assert_eq!(
        wrong(vec![("id", text("a b"))]),
        "profile id must use ASCII letters, numbers, underscore, or hyphen"
    );
    let base = |key: &'static str, value: Json| {
        vec![("id", text("a")), ("name", text("A")), ("template", text("{title}")), (key, value)]
    };
    assert_eq!(
        wrong(base("tag_separator", text("/"))),
        "tag_separator contains unsafe filename characters"
    );
    assert_eq!(
        wrong(base("date_format", text("long"))),
        "date_format must be iso, compact, or year_month"
    );
    assert_eq!(
        wrong(base("collision_strategy", text("ask"))),
        "collision_strategy must be reject, suffix, or merge"
    );
    assert_eq!(wrong(base("collision", Json::Bool(true))), "collision_strategy must be a string");
    assert!(validate_profile_id("ok-1_B").is_ok());
    assert!(validate_profile_id("").is_err());
    assert!(validate_tag_separator(" & ").is_ok());
    assert!(validate_tag_separator("?").is_err());
}

#[test]
fn defaults_fill_what_a_profile_leaves_out() {
    let p = normalize_profile(&profile("a", "{title}")).unwrap();
    assert_eq!(p.empty_value, "untitled");
    assert_eq!(p.tag_separator, "&");
    assert_eq!(p.date_format, DateFormat::Iso);
    assert_eq!(p.collision_strategy, CollisionStrategy::Suffix);
    let merged = normalize_profile(&object(vec![
        ("id", text("m")),
        ("name", text("M")),
        ("template", text("{title}")),
        ("collision_strategy", text("merge")),
    ]))
    .unwrap();
    assert_eq!(merged.collision_strategy, CollisionStrategy::Merge);
}

#[test]
fn stored_settings_are_read_back() {
    let settings = normalize_settings(&object(vec![
        ("active_profile_id", text(" one ")),
        ("profiles", Json::Array(vec![profile("one", "{title}"), profile("two", "{folder}")])),
        ("artist_profile_ids", object(vec![("7", text("two"))])),
    ]))
    .unwrap();
    let again = normalize_settings(&settings.to_json()).unwrap();
    assert_eq!(again.active_profile_id, "one");
    assert_eq!(again.profiles.len(), 2);
    assert_eq!(again.profiles[1].template, "{folder}");
    assert_eq!(again.artist_profile_ids, vec![(7, "two".to_string())]);
    assert_eq!(profile_by_id(&settings.to_json(), "two").unwrap().id, "two");
    assert!(profile_by_id(&settings.to_json(), "three").is_err());
}

#[test]
fn settings_name_what_is_wrong() {
    let wrong = |members: Vec<(&str, Json)>| normalize_settings(&object(members)).unwrap_err();
    assert_eq!(
        normalize_settings(&Json::Array(vec![])).unwrap_err(),
        "archive format settings must be an object"
    );
    assert_eq!(
        wrong(vec![("version", Json::Int(2))]),
        "unsupported archive format settings version: 2"
    );
    assert_eq!(wrong(vec![("profiles", Json::Null)]), "profiles must be an array");
    assert_eq!(
        wrong(vec![("profiles", Json::Array(vec![]))]),
        "at least one archive format profile is required"
    );
    assert_eq!(
        wrong(vec![(
            "profiles",
            Json::Array(vec![profile("a", "{title}"), profile("a", "{title}")])
        )]),
        "duplicate archive format profile id: a"
    );
    assert_eq!(
        wrong(vec![("artist_profile_ids", object(vec![("0", text("default"))]))]),
        "artist profile selection has an invalid artist id"
    );
    assert_eq!(
        wrong(vec![("artist_profile_ids", object(vec![("1", text("gone"))]))]),
        "artist profile selection references an unknown profile"
    );
}

#[test]
fn settings_answer_for_an_artist() {
    let settings = default_settings();
    let response = settings_response(&settings.to_json(), Some(5)).unwrap();
    assert_eq!(response.effective_profile.id, "default");
    assert_eq!(response.profile_source, ProfileSource::Global);
    assert_eq!(response.artist_id, Some(5));
    assert_eq!(response.tokens.len(), 8);
}

#[test]
fn rendering_with_known_dates_is_exact() {
    let p = default_profile();
    let dates = ("2020-01-02".to_string(), "2020".to_string(), "01".to_string());
    let out = render_with_dates(&p, dates, &context("A", "?", &["x", "y"], "T", "F", 1)).unwrap();
    assert_eq!(out.target_folder, "2020/2020-01-02 x&y");
    let snapshot = rule_snapshot(&p, "global");
    assert_eq!(snapshot.profile_id, "default");
    assert_eq!(snapshot.profile_source, "global");
    assert_eq!(snapshot.version, 1);
}
