use temprix::history::{
    collect_versions, display_time, find_project_root, history_location, parse_version_name,
    project_root_candidates, version_destination, version_file_name, ListingEntry,
};

#[test]
fn version_names_round_trip() {
    let name = version_file_name("App", "20260322012530", ".tsx");
    assert_eq!(name, "App_20260322012530.tsx");
    assert_eq!(parse_version_name(&name, "App", ".tsx"), Some("20260322012530".to_string()));
    assert_eq!(parse_version_name("Makefile_20260322012530", "Makefile", ""), Some("20260322012530".to_string()));
}

#[test]
fn other_names_are_not_versions() {
    assert_eq!(parse_version_name("App_2026032201253.tsx", "App", ".tsx"), None);
    assert_eq!(parse_version_name("App_2026032201253x.tsx", "App", ".tsx"), None);
    assert_eq!(parse_version_name("App_20260322012530.ts", "App", ".tsx"), None);
    assert_eq!(parse_version_name("Apps_20260322012530.tsx", "App", ".tsx"), None);
    assert_eq!(parse_version_name("App_20260322012530.tsx.bak", "App", ".tsx"), None);
    assert_eq!(parse_version_name("a_.txt", "a", ".txt"), None);
}

#[test]
fn display_time_splits_fields() {
    assert_eq!(display_time("20260322012530"), "2026-03-22 01:25:30");
}

#[test]
fn versions_live_under_the_project_history() {
    let loc = history_location("/p/myapp/src/App.tsx", "/p/myapp", "/h").unwrap();
    assert_eq!(loc.dir, "/h/p__myapp-dd9a/src");
    assert_eq!(loc.stem, "App");
    assert_eq!(loc.ext, ".tsx");
    let top = history_location("/p/myapp/.env", "/p/myapp", "/h").unwrap();
    assert_eq!(top.dir, "/h/p__myapp-dd9a/");
    assert_eq!(top.stem, ".env");
    assert_eq!(top.ext, "");
    assert!(history_location("/q/other.txt", "/p/myapp", "/h").is_none());
}

#[test]
fn destination_is_in_the_listed_folder() {
    assert_eq!(
        version_destination("/p/myapp/src/App.tsx", "/p/myapp", "/h", "20260322012530"),
        Some("/h/p__myapp-dd9a/src/App_20260322012530.tsx".to_string())
    );
    assert_eq!(version_destination("/q/x.txt", "/p/myapp", "/h", "20260322012530"), None);
}

fn listing(name: &str, size: Option<u64>) -> ListingEntry {
    ListingEntry { name: Some(name.to_string()), path: format!("/d/{}", name), size }
}

#[test]
fn listing_is_filtered_and_newest_first() {
    let entries = vec![
        listing("App_20260322012530.tsx", Some(10)),
        listing("App_20260322014500.tsx", Some(20)),
        listing("Other_20260322014500.tsx", Some(30)),
        listing("App_20250101000000.tsx", None),
        ListingEntry { name: None, path: "/d/?".to_string(), size: Some(1) },
        listing("App_20240101000000.tsx", Some(5)),
    ];
    let vs = collect_versions("App", ".tsx", &entries);
    let ts: Vec<&str> = vs.iter().map(|v| v.timestamp.as_str()).collect();
    assert_eq!(ts, vec!["20260322014500", "20260322012530", "20240101000000"]);
    assert_eq!(vs[0].path, "/d/App_20260322014500.tsx");
    assert_eq!(vs[0].display_time, "2026-03-22 01:45:00");
    assert_eq!(vs[0].size, 20);
    assert_eq!(vs[2].size, 5);
}

#[test]
fn project_root_is_nearest_marked_folder() {
    let chain = project_root_candidates("/t/myapp/src/app.js", false);
    assert_eq!(chain, vec!["/t/myapp/src", "/t/myapp", "/t", "/"]);
    assert_eq!(find_project_root("/t/myapp/src/app.js", false, &vec![false, true, false, false]), "/t/myapp");
    assert_eq!(find_project_root("/t/myapp/src/app.js", false, &vec![false, true, true, true]), "/t/myapp");
    // nothing marked: the file's folder
    assert_eq!(find_project_root("/t/myapp/src/app.js", false, &vec![false; 4]), "/t/myapp/src");
}

#[test]
fn directories_search_from_themselves() {
    let chain = project_root_candidates("/t/myapp", true);
    assert_eq!(chain, vec!["/t/myapp", "/t", "/"]);
    assert_eq!(find_project_root("/t/myapp", true, &vec![true, false, false]), "/t/myapp");
    assert_eq!(find_project_root("/t/myapp", true, &vec![false, false, false]), "/t");
    assert_eq!(project_root_candidates("/", false), vec!["/"]);
    assert_eq!(find_project_root("/", false, &vec![false]), "/");
}

#[test]
fn equal_timestamps_keep_listing_order() {
    let entries = vec![
        ListingEntry { name: Some("a_20200101000000".to_string()), path: "/x/1".to_string(), size: Some(1) },
        ListingEntry { name: Some("a_20210101000000".to_string()), path: "/x/2".to_string(), size: Some(2) },
        ListingEntry { name: Some("a_20200101000000".to_string()), path: "/x/3".to_string(), size: Some(3) },
    ];
    let vs = collect_versions("a", "", &entries);
    let paths: Vec<&str> = vs.iter().map(|v| v.path.as_str()).collect();
    assert_eq!(paths, vec!["/x/2", "/x/1", "/x/3"]);
}
