use release_aggregator::index::SectionIndex;
use release_aggregator::merge::{merge_release_notes, merge_release_notes_by_heading, ReleaseNoteItem};
use release_aggregator::release::{format_date, parse_rate_limit, AggregateError, Date, Release};
use release_aggregator::render::{
    generate_markdown, generate_markdown_merged_headings, group_by_section_and_version,
};
use release_aggregator::sections::{extract_sections, normalize_section_name, parse_release_notes};
use release_aggregator::select::{
    filter_releases_by_range, filter_releases_by_tags, prepare_releases, select_releases, Selection,
};
use release_aggregator::version::{compare_semver, extract_version, is_semver};
use std::cmp::Ordering;

fn release(id: u64, tag: &str, body: Option<&str>, published_at: &str, prerelease: bool) -> Release {
    Release {
        id,
        tag_name: tag.to_string(),
        name: Some(format!("Version {}", tag)),
        body: body.map(|b| b.to_string()),
        published_at: published_at.to_string(),
        prerelease,
    }
}

fn tags_of(rs: &[Release]) -> Vec<String> {
    rs.iter().map(|r| r.tag_name.clone()).collect()
}

#[test]
fn test_parse_release_notes() {
    let example_release_notes = r#"# Features

- Added new feature 1
- Added new feature 2

# Bug Fixes

- Fixed bug 1
- Fixed bug 2

# Documentation

- Updated docs"#;

    let sections = parse_release_notes(example_release_notes);

    assert_eq!(sections.len(), 3);
    assert!(sections.contains_key("Features"));
    assert!(sections.contains_key("Bug Fixes"));
    assert!(sections.contains_key("Documentation"));

    assert_eq!(sections.get("Features").unwrap().len(), 2);
    assert_eq!(sections.get("Bug Fixes").unwrap().len(), 2);
    assert_eq!(sections.get("Documentation").unwrap().len(), 1);

    assert_eq!(sections.get("Features").unwrap()[0], "- Added new feature 1");
    assert_eq!(sections.get("Features").unwrap()[1], "- Added new feature 2");
    assert_eq!(sections.get("Bug Fixes").unwrap()[0], "- Fixed bug 1");
    assert_eq!(sections.get("Bug Fixes").unwrap()[1], "- Fixed bug 2");
    assert_eq!(sections.get("Documentation").unwrap()[0], "- Updated docs");
}

#[test]
fn test_merge_release_notes() {
    let releases = vec![
        Release {
            id: 1,
            tag_name: "v1.0.0".to_string(),
            name: Some("Version 1.0.0".to_string()),
            body: Some(
                r#"# Features
- Feature A v1
- Feature B v1

# Bug Fixes
- Bug Fix A v1"#
                    .to_string(),
            ),
            published_at: "2023-01-01T00:00:00Z".to_string(),
            prerelease: false,
        },
        Release {
            id: 2,
            tag_name: "v2.0.0".to_string(),
            name: Some("Version 2.0.0".to_string()),
            body: Some(
                r#"# Features
- Feature A v2
- Feature C v2

# Performance
- Performance improvement v2"#
                    .to_string(),
            ),
            published_at: "2023-02-01T00:00:00Z".to_string(),
            prerelease: false,
        },
    ];

    let merged_sections = merge_release_notes(&releases).unwrap();

    assert_eq!(merged_sections.len(), 3);
    assert!(merged_sections.contains_key("Features"));
    assert!(merged_sections.contains_key("Bug Fixes"));
    assert!(merged_sections.contains_key("Performance"));

    let features = merged_sections.get("Features").unwrap();
    assert_eq!(features.len(), 4);

    let v1_features = features.iter().filter(|item| item.version == "v1.0.0").count();
    let v2_features = features.iter().filter(|item| item.version == "v2.0.0").count();
    assert_eq!(v1_features, 2);
    assert_eq!(v2_features, 2);

    let jan_1_2023 = Date::from_ymd(2023, 1, 1);
    let feb_1_2023 = Date::from_ymd(2023, 2, 1);
    for item in features {
        if item.version == "v1.0.0" {
            assert_eq!(item.date, jan_1_2023);
        } else if item.version == "v2.0.0" {
            assert_eq!(item.date, feb_1_2023);
        }
    }
}

fn note(content: &str, version: &str, date: Date) -> ReleaseNoteItem {
    ReleaseNoteItem { content: content.to_string(), version: version.to_string(), date }
}

#[test]
fn test_generate_markdown() {
    let date1 = Date::from_ymd(2023, 1, 1);
    let date2 = Date::from_ymd(2023, 2, 1);
    let features = vec![
        note("- Feature A v1", "v1.0.0", date1),
        note("- Feature B v1", "v1.0.0", date1),
        note("- Feature A v2", "v2.0.0", date2),
    ];
    let bugs = vec![note("- Bug Fix A v1", "v1.0.0", date1)];
    let merged_sections = SectionIndex {
        names: vec!["Features".to_string(), "Bug Fixes".to_string()],
        lists: vec![features, bugs],
    };

    let markdown = generate_markdown(&merged_sections);

    assert!(markdown.contains("# Aggregated Release Notes"));
    assert!(markdown.contains("## Bug Fixes"));
    assert!(markdown.contains("## Features"));
    assert!(markdown.contains("### v1.0.0 (2023-01-01)"));
    assert!(markdown.contains("### v2.0.0 (2023-02-01)"));

    assert!(markdown.contains("- Feature A v1"));
    assert!(markdown.contains("- Feature B v1"));
    assert!(markdown.contains("- Feature A v2"));
    assert!(markdown.contains("- Bug Fix A v1"));
}

#[test]
fn generate_markdown_exact_text() {
    let date1 = Date::from_ymd(2023, 1, 1);
    let date2 = Date::from_ymd(2023, 2, 1);
    let idx = SectionIndex {
        names: vec!["Features".to_string()],
        lists: vec![vec![
            note("- A1", "v1.0.0", date1),
            note("- A2", "v2.0.0", date2),
            note("- B1", "v1.0.0", date1),
        ]],
    };
    assert_eq!(
        generate_markdown(&idx),
        "# Aggregated Release Notes\n\n## Features\n\n### v2.0.0 (2023-02-01)\n\n- A2\n\n### v1.0.0 (2023-01-01)\n\n- A1\n- B1\n\n"
    );
}

#[test]
fn headings_only_body_is_empty() {
    let sections = parse_release_notes("# Features\n\n## Fixes\n###### Deep\n");
    assert_eq!(sections.len(), 0);
    assert!(sections.is_empty());
}

#[test]
fn leading_content_is_uncategorized() {
    let sections = parse_release_notes("Intro line\n\n  second\n# Features\n- x");
    let unc = sections.get("Uncategorized").unwrap();
    assert_eq!(unc, &vec!["Intro line".to_string(), "  second".to_string()]);
    assert_eq!(sections.get("Features").unwrap(), &vec!["- x".to_string()]);
}

#[test]
fn parse_edge_cases() {
    assert_eq!(parse_release_notes("").len(), 0);
    // Seven hashes are no heading; "#x" has no space; "# " has no text.
    let s = parse_release_notes("####### seven\n#x\n# \n#   Spaced Name   \r\nline\r\n");
    assert_eq!(
        s.get("Uncategorized").unwrap(),
        &vec!["####### seven".to_string(), "#x".to_string(), "# ".to_string()]
    );
    assert_eq!(s.get("Spaced Name").unwrap(), &vec!["line".to_string()]);
    // A repeated heading continues the same section.
    let r = parse_release_notes("# A\none\n# B\ntwo\n# A\nthree");
    assert_eq!(r.get("A").unwrap(), &vec!["one".to_string(), "three".to_string()]);
}

#[test]
fn extract_sections_two_levels() {
    let s = extract_sections("pre\n# A\n### deep\nx\n\n## B\ny\n# A\nz");
    assert_eq!(s.get("Uncategorized").unwrap(), &vec!["pre".to_string()]);
    assert_eq!(s.get("A").unwrap(), &vec!["z".to_string()]);
    assert_eq!(s.get("B").unwrap(), &vec!["y".to_string()]);
    assert_eq!(s.len(), 3);
    let t = extract_sections("# Only\n### deep\n\nline");
    assert_eq!(
        t.get("Only").unwrap(),
        &vec!["### deep".to_string(), "".to_string(), "line".to_string()]
    );
}

#[test]
fn semver_examples() {
    assert!(is_semver("v1.2.3"));
    assert!(!is_semver("nightly"));
    assert_eq!(extract_version("V2.0.0"), "2.0.0");
    assert_eq!(extract_version("2.0.0"), "2.0.0");
    assert!(is_semver("1.0.0-rc.1+build.5"));
    assert!(is_semver("V10.20.30+meta"));
    assert!(!is_semver("1.0"));
    assert!(!is_semver("1.0.0-"));
    assert!(!is_semver("1.0.0-a..b"));
    assert!(!is_semver("1.0.0 "));
}

#[test]
fn compare_is_numeric() {
    assert_eq!(compare_semver("1.9.0", "1.10.0"), Ordering::Less);
    assert_eq!(compare_semver("1.10.0", "1.9.0"), Ordering::Greater);
    assert_eq!(compare_semver("v2.0.0", "2.0.0"), Ordering::Equal);
    assert_eq!(compare_semver("1.0.0-rc1", "1.0.0-rc1"), Ordering::Equal);
    // Not both semantic versions: compared as text.
    assert_eq!(compare_semver("nightly", "1.0.0"), Ordering::Greater);
    assert_eq!(compare_semver("alpha", "beta"), Ordering::Less);
}

fn four_releases() -> Vec<Release> {
    vec![
        release(4, "v4.0.0", Some("# A\n- four"), "2023-04-01T00:00:00Z", false),
        release(3, "v3.0.0", Some("# A\n- three"), "2023-03-01T00:00:00Z", false),
        release(2, "v2.0.0", Some("# A\n- two"), "2023-02-01T00:00:00Z", false),
        release(1, "v1.0.0", Some("# A\n- one"), "2023-01-01T00:00:00Z", false),
    ]
}

#[test]
fn explicit_tags_newest_first() {
    let all = four_releases();
    let r = filter_releases_by_tags(&all, &["v2.0.0", "v1.0.0"]).unwrap();
    assert_eq!(tags_of(&r), vec!["v2.0.0", "v1.0.0"]);
    let r = filter_releases_by_tags(&all, &["v1.0.0", "v2.0.0"]).unwrap();
    assert_eq!(tags_of(&r), vec!["v2.0.0", "v1.0.0"]);
    let r = filter_releases_by_tags(&all, &["v1.0.0", "v1.0.0"]).unwrap();
    assert_eq!(tags_of(&r), vec!["v1.0.0", "v1.0.0"]);
}

#[test]
fn explicit_tags_missing_all_reported() {
    let all = four_releases();
    match filter_releases_by_tags(&all, &["v9", "v1.0.0", "v8"]) {
        Err(AggregateError::MultipleTagsNotFound(tags)) => {
            assert_eq!(tags, vec!["v9".to_string(), "v8".to_string()])
        }
        _ => panic!("expected the missing tags"),
    }
}

#[test]
fn range_same_tag_is_one_record() {
    let all = four_releases();
    let r = filter_releases_by_range(&all, Some("v1.0.0"), Some("v1.0.0")).unwrap();
    assert_eq!(tags_of(&r), vec!["v1.0.0"]);
}

#[test]
fn range_forms() {
    let all = four_releases();
    let r = filter_releases_by_range(&all, Some("v2.0.0"), Some("v4.0.0")).unwrap();
    assert_eq!(tags_of(&r), vec!["v4.0.0", "v3.0.0", "v2.0.0"]);
    let r = filter_releases_by_range(&all, Some("v3.0.0"), None).unwrap();
    assert_eq!(tags_of(&r), vec!["v3.0.0", "v2.0.0", "v1.0.0"]);
    let r = filter_releases_by_range(&all, None, Some("v3.0.0")).unwrap();
    assert_eq!(tags_of(&r), vec!["v4.0.0", "v3.0.0"]);
    let r = filter_releases_by_range(&all, None, None).unwrap();
    assert_eq!(r.len(), 4);
    match filter_releases_by_range(&all, Some("v0"), Some("v1.0.0")) {
        Err(AggregateError::TagNotFound(t)) => assert_eq!(t, "v0"),
        _ => panic!("expected a missing tag"),
    }
}

#[test]
fn prepare_drops_prereleases_and_sorts() {
    let rs = vec![
        release(1, "v1", None, "2023-01-01T00:00:00Z", false),
        release(3, "v3-rc", None, "2023-03-01T00:00:00Z", true),
        release(2, "v2", None, "2023-02-01T10:00:00+02:00", false),
        release(5, "v2b", None, "2023-02-01T08:00:00Z", false),
    ];
    let r = prepare_releases(&rs, false).unwrap();
    assert_eq!(tags_of(&r), vec!["v2", "v2b", "v1"]);
    let r = prepare_releases(&rs, true).unwrap();
    assert_eq!(tags_of(&r), vec!["v3-rc", "v2", "v2b", "v1"]);
    let bad = vec![release(1, "v1", None, "yesterday", false)];
    match prepare_releases(&bad, false) {
        Err(AggregateError::DateParseFailure(s)) => assert_eq!(s, "yesterday"),
        _ => panic!("expected a date failure"),
    }
}

#[test]
fn select_modes() {
    let mut all = four_releases();
    all.insert(1, release(9, "v3.5-rc", None, "2023-03-15T00:00:00Z", true));
    let r = select_releases(&all, &Selection::AllVersions, false).unwrap();
    assert_eq!(r.len(), 4);
    let r = select_releases(&all, &Selection::AllVersions, true).unwrap();
    assert_eq!(r.len(), 5);
    let sel = Selection::Range(Some("v2.0.0".to_string()), Some("v4.0.0".to_string()));
    assert_eq!(tags_of(&select_releases(&all, &sel, false).unwrap()), vec!["v4.0.0", "v3.0.0", "v2.0.0"]);
    let sel = Selection::ExplicitTags(vec!["v1.0.0".to_string(), "v3.0.0".to_string()]);
    assert_eq!(tags_of(&select_releases(&all, &sel, false).unwrap()), vec!["v3.0.0", "v1.0.0"]);
    let sel = Selection::ExplicitTags(vec!["v3.5-rc".to_string()]);
    assert!(select_releases(&all, &sel, false).is_err());
}

fn typo_releases() -> Vec<Release> {
    vec![
        release(2, "v2.0.0", Some("# Features\n- Fixed typo\n- Zoom"), "2023-02-01T00:00:00Z", false),
        release(1, "v1.0.0", Some("# Features\n- Fixed typo\n- Alpha"), "2023-01-01T00:00:00Z", false),
    ]
}

#[test]
fn heading_merge_dedups() {
    let merged = merge_release_notes_by_heading(&typo_releases());
    let items = merged.get("Features").unwrap();
    assert_eq!(items.len(), 3);
    assert_eq!(items[0].content, "- Fixed typo");
    assert_eq!(items[0].sources, vec!["v2.0.0".to_string(), "v1.0.0".to_string()]);
    assert_eq!(items[1].content, "- Alpha");
    assert_eq!(items[2].content, "- Zoom");
}

#[test]
fn version_merge_keeps_both() {
    let merged = merge_release_notes(&typo_releases()).unwrap();
    let items = merged.get("Features").unwrap();
    let typos: Vec<&ReleaseNoteItem> = items.iter().filter(|i| i.content == "- Fixed typo").collect();
    assert_eq!(typos.len(), 2);
    assert_eq!(typos[0].version, "v2.0.0");
    assert_eq!(typos[0].date, Date::from_ymd(2023, 2, 1));
    assert_eq!(typos[1].version, "v1.0.0");
    assert_eq!(typos[1].date, Date::from_ymd(2023, 1, 1));
}

#[test]
fn merge_date_failure() {
    let rs = vec![release(1, "v1", Some("x"), "not a date", false)];
    assert!(matches!(merge_release_notes(&rs), Err(AggregateError::DateParseFailure(_))));
    let rs = vec![release(1, "v1", None, "not a date", false)];
    assert_eq!(merge_release_notes(&rs).unwrap().len(), 0);
}

#[test]
fn uncategorized_renders_last() {
    let d = Date::from_ymd(2023, 1, 1);
    let idx = SectionIndex {
        names: vec!["Zeta".to_string(), "Uncategorized".to_string(), "Alpha".to_string()],
        lists: vec![vec![note("z", "v1", d)], vec![note("u", "v1", d)], vec![note("a", "v1", d)]],
    };
    let md = generate_markdown(&idx);
    let a = md.find("## Alpha").unwrap();
    let z = md.find("## Zeta").unwrap();
    let u = md.find("## Uncategorized").unwrap();
    assert!(a < z && z < u);
}

#[test]
fn merged_headings_text() {
    let merged = merge_release_notes_by_heading(&typo_releases());
    let md = generate_markdown_merged_headings(&merged);
    assert_eq!(
        md,
        "# Aggregated Release Notes (Merged by Heading)\n\n## Features\n\n- Fixed typo\n*(Present in versions: v1.0.0, v2.0.0)*\n\n- Alpha\n*(From version: v1.0.0)*\n\n- Zoom\n*(From version: v2.0.0)*\n\n\n"
    );
}

#[test]
fn round_trip_version_blocks() {
    let merged = merge_release_notes(&typo_releases()).unwrap();
    let md = generate_markdown(&merged);
    let reparsed = parse_release_notes(&md);
    assert_eq!(
        reparsed.get("v2.0.0 (2023-02-01)").unwrap(),
        &vec!["- Fixed typo".to_string(), "- Zoom".to_string()]
    );
    assert_eq!(
        reparsed.get("v1.0.0 (2023-01-01)").unwrap(),
        &vec!["- Fixed typo".to_string(), "- Alpha".to_string()]
    );
}

#[test]
fn dates_and_rate_limits() {
    assert_eq!(format_date("2023-02-01T23:30:00-02:00").unwrap(), "2023-02-02");
    assert_eq!(format_date("0099-01-05T00:00:00Z").unwrap(), "0099-01-05");
    assert!(format_date("2023-13-01T00:00:00Z").is_err());
    let r = parse_rate_limit(Some("60"), Some("+59"), Some("1700000000")).unwrap();
    assert_eq!((r.limit, r.remaining, r.reset), (60, 59, 1700000000));
    assert!(parse_rate_limit(Some("4294967296"), Some("1"), Some("1")).is_none());
    assert!(parse_rate_limit(Some("1"), None, Some("1")).is_none());
    assert!(parse_rate_limit(Some("1"), Some("-1"), Some("1")).is_none());
}

#[test]
fn section_names_normalized() {
    assert_eq!(normalize_section_name("  Bug FIXES \t"), "bug fixes");
    assert_eq!(normalize_section_name("Ärger"), "ärger");
}

#[test]
fn grouping_by_section_and_version() {
    let d1 = Date::from_ymd(2023, 1, 1);
    let d2 = Date::from_ymd(2023, 2, 1);
    let rec = |s: &str, c: &str, v: &str, d: Date| (s.to_string(), c.to_string(), v.to_string(), d);
    let g = group_by_section_and_version(vec![
        rec("A", "a1", "v1", d1),
        rec("B", "b2", "v2", d2),
        rec("A", "a2", "v2", d2),
        rec("A", "a3", "v1", d1),
    ]);
    assert_eq!(g.len(), 2);
    let a = g.get("A").unwrap();
    assert_eq!(a.len(), 2);
    assert_eq!(a[0].version, "v1");
    assert_eq!(a[0].date, d1);
    assert_eq!(a[0].contents, vec!["a1".to_string(), "a3".to_string()]);
    assert_eq!(a[1].version, "v2");
    assert_eq!(a[1].contents, vec!["a2".to_string()]);
    assert_eq!(g.get("B").unwrap()[0].contents, vec!["b2".to_string()]);
}

#[test]
fn compare_ignores_suffixes_on_equal_core() {
    assert_eq!(compare_semver("1.0.0-rc1", "1.0.0"), Ordering::Equal);
    assert_eq!(compare_semver("1.0.5-rc1", "1.0.5"), Ordering::Equal);
    assert_eq!(compare_semver("1.2.3+build.5", "1.2.3"), Ordering::Equal);
    assert_eq!(compare_semver("v1.0.5-rc.1+b", "1.0.5"), Ordering::Equal);
    assert_eq!(compare_semver("1.0.5-rc1", "1.0.6"), Ordering::Less);
    assert_eq!(compare_semver("1.0.12+x", "1.0.9"), Ordering::Greater);
}

#[test]
fn heading_merge_counts_distinct_versions() {
    let rs = vec![
        release(2, "v2.0.0", Some("# Features\n- Apple"), "2023-02-01T00:00:00Z", false),
        release(1, "v1.0.0", Some("# Features\n- Zed\n- Zed"), "2023-01-01T00:00:00Z", false),
    ];
    let merged = merge_release_notes_by_heading(&rs);
    let items = merged.get("Features").unwrap();
    assert_eq!(items.len(), 2);
    assert_eq!(items[0].content, "- Apple");
    assert_eq!(items[1].content, "- Zed");
    assert_eq!(items[1].sources, vec!["v1.0.0".to_string(), "v1.0.0".to_string()]);
}

#[test]
fn first_unreadable_timestamp_is_reported() {
    let rs = vec![
        release(1, "v1", Some("x"), "2023-01-01T00:00:00Z", false),
        release(2, "v2", Some("y"), "first bad", false),
        release(3, "v3", Some("z"), "second bad", false),
    ];
    match merge_release_notes(&rs) {
        Err(AggregateError::DateParseFailure(s)) => assert_eq!(s, "first bad"),
        _ => panic!("expected a date failure"),
    }
    match prepare_releases(&rs, false) {
        Err(AggregateError::DateParseFailure(s)) => assert_eq!(s, "first bad"),
        _ => panic!("expected a date failure"),
    }
    match filter_releases_by_tags(&rs, &["v3", "v2"]) {
        Err(AggregateError::DateParseFailure(s)) => assert_eq!(s, "second bad"),
        _ => panic!("expected a date failure"),
    }
}
