use api_client::config::AppConfig;
use api_client::dispatch::Request;
use api_client::gitstatus::{
    build_changes, entry_changes, map_status, repository_status, FileStatus, RepoSnapshot,
    StatusBits,
};
use api_client::method::HttpMethod;
use api_client::query::KeyValuePair;
use api_client::record::{parse_method_from_file, saved_request_from_text, saved_request_to_text};
use api_client::workspace::{DirEntryData, Workspace};

fn row(key: &str, value: &str, enabled: bool) -> KeyValuePair {
    KeyValuePair {
        key: key.to_string(),
        value: value.to_string(),
        enabled,
    }
}

fn file(name: &str, content: Option<&str>) -> DirEntryData {
    DirEntryData {
        file_name: name.to_string(),
        path: format!("/ws/{}", name),
        is_file: true,
        content: content.map(|c| c.to_string()),
    }
}

fn sample_request(name: &str) -> Request {
    Request {
        name: name.to_string(),
        method: HttpMethod::Patch,
        url: "http://x/y".to_string(),
        params: Vec::new(),
        headers: vec![
            row("Content-Type", "application/json", true),
            row("X-Probe", "1", false),
            row("", "dropped", true),
            row("Content-Type", "text/plain", true),
        ],
        body: "{\"k\": [1, 2]}".to_string(),
    }
}

fn open_ws(listing: &Vec<DirEntryData>) -> Workspace {
    let mut ws = Workspace::new();
    ws.open_folder("/ws".to_string(), listing);
    ws
}

fn header_map(rows: &[(String, String)]) -> std::collections::BTreeMap<String, String> {
    rows.iter().cloned().collect()
}

#[test]
fn saving_then_loading_preserves_the_request() {
    let ws = open_ws(&Vec::new());
    let req = sample_request("round trip");
    let plan = ws.plan_save(&req, None).expect("a folder is open");

    let rec = saved_request_from_text(&plan.content).expect("the written text decodes");
    assert_eq!(rec, plan.record);
    assert_eq!(rec.method, "PATCH");
    assert_eq!(rec.url, "http://x/y");
    assert_eq!(rec.body, "{\"k\": [1, 2]}");

    let listing = vec![DirEntryData {
        file_name: "round-trip.json".to_string(),
        path: plan.path.clone(),
        is_file: true,
        content: Some(plan.content.clone()),
    }];
    let mut ws = open_ws(&listing);
    let loaded = ws
        .load_request(0, &Some(plan.content.clone()))
        .expect("the file loads");
    assert_eq!(loaded.method, HttpMethod::Patch);
    assert_eq!(loaded.url, req.url);
    assert_eq!(loaded.body, req.body);
    // the header rows, collapsed as save collapses them, carry the same
    // mapping: empty keys dropped, the later duplicate key winning
    let saved_map = header_map(&plan.record.headers);
    let loaded_pairs: Vec<(String, String)> = loaded
        .headers
        .iter()
        .filter(|r| !r.key.is_empty())
        .map(|r| (r.key.clone(), r.value.clone()))
        .collect();
    assert_eq!(header_map(&loaded_pairs), saved_map);
    assert_eq!(
        saved_map.get("Content-Type").map(String::as_str),
        Some("text/plain")
    );
    // the trailing empty row gives the editor room for one more header
    assert_eq!(loaded.headers.last().map(|r| r.key.as_str()), Some(""));
    assert_eq!(ws.selected, Some(0));
}

#[test]
fn rescanning_twice_changes_nothing() {
    let listing = vec![
        file("b.json", Some("{\"name\":\"b\",\"method\":\"POST\",\"url\":\"u\"}")),
        file("a.json", Some("not json at all")),
        DirEntryData {
            file_name: "sub.json".to_string(),
            path: "/ws/sub.json".to_string(),
            is_file: false,
            content: None,
        },
        file("notes.txt", None),
    ];
    let mut ws = open_ws(&listing);
    ws.select(1);
    let mut again = Workspace {
        current_folder: ws.current_folder.clone(),
        entries: ws.entries.clone(),
        selected: ws.selected,
    };
    again.rescan(&listing);
    assert_eq!(again.entries, ws.entries);
    assert_eq!(again.selected, ws.selected);
    again.rescan(&listing);
    assert_eq!(again.entries, ws.entries);
    assert_eq!(again.selected, ws.selected);
}

#[test]
fn scan_filters_and_sorts_the_folder() {
    let listing = vec![
        file("zeta.yml", None),
        file("beta.json", Some("{\"name\":\"b\",\"method\":\"delete\",\"url\":\"u\"}")),
        file("alpha.yaml", Some("broken")),
        file("notes.txt", Some("ignored")),
        file(".json", None),
        DirEntryData {
            file_name: "dir.json".to_string(),
            path: "/ws/dir.json".to_string(),
            is_file: false,
            content: None,
        },
    ];
    let ws = open_ws(&listing);
    let names: Vec<&str> = ws.entries.iter().map(|e| e.name.as_str()).collect();
    assert_eq!(names, vec!["alpha", "beta", "zeta"]);
    assert_eq!(ws.entries[0].method, None);
    assert_eq!(ws.entries[1].method, Some(HttpMethod::Delete));
    assert_eq!(ws.entries[1].path, "/ws/beta.json");
    assert_eq!(ws.entries[2].method, None);
}

#[test]
fn deleting_shifts_the_selection_down() {
    let listing = vec![file("a.json", None), file("b.json", None), file("c.json", None)];

    // selected == deleted: the selection is cleared
    let mut ws = open_ws(&listing);
    ws.select(1);
    ws.apply_delete(1);
    assert_eq!(ws.selected, None);
    assert_eq!(ws.entries.len(), 2);

    // selected > deleted: it moves down one
    let mut ws = open_ws(&listing);
    ws.select(2);
    ws.apply_delete(0);
    assert_eq!(ws.selected, Some(1));
    assert_eq!(ws.entries[1].name, "c");

    // selected < deleted: it stands
    let mut ws = open_ws(&listing);
    ws.select(0);
    ws.apply_delete(2);
    assert_eq!(ws.selected, Some(0));

    // no selection: still none
    let mut ws = open_ws(&listing);
    ws.apply_delete(1);
    assert_eq!(ws.selected, None);
}

#[test]
fn first_unnamed_save_writes_new_request_one() {
    let ws = open_ws(&Vec::new());
    let mut req = sample_request("");
    req.headers = Vec::new();
    let plan = ws.plan_save(&req, None).expect("a folder is open");
    assert_eq!(plan.path, "/ws/New Request 1.json");
    assert_eq!(plan.record.name, "New Request 1");

    let listing = vec![DirEntryData {
        file_name: "New Request 1.json".to_string(),
        path: plan.path.clone(),
        is_file: true,
        content: Some(plan.content.clone()),
    }];
    let mut ws = open_ws(&Vec::new());
    ws.finish_save(&listing, &plan.path);
    assert_eq!(ws.selected, Some(0));
    assert_eq!(ws.entries[0].name, "New Request 1");
}

#[test]
fn named_saves_sanitize_the_file_name() {
    let ws = open_ws(&Vec::new());
    let req = sample_request("my request!");
    let plan = ws.plan_save(&req, None).expect("a folder is open");
    assert_eq!(plan.path, "/ws/my-request-.json");
    assert_eq!(plan.record.name, "my request!");
}

#[test]
fn saving_over_an_entry_reuses_its_path() {
    let listing = vec![file("kept.yaml", None)];
    let ws = open_ws(&listing);
    let plan = ws.plan_save(&sample_request("renamed"), Some(0)).expect("a folder is open");
    assert_eq!(plan.path, "/ws/kept.yaml");
}

#[test]
fn save_needs_an_open_folder() {
    let ws = Workspace::new();
    assert!(ws.plan_save(&sample_request("x"), None).is_none());
}

#[test]
fn lowercase_method_names_load_as_their_verbs() {
    let text = "{\"name\":\"n\",\"method\":\"patch\",\"url\":\"u\"}";
    let rec = saved_request_from_text(text).expect("the file decodes");
    assert_eq!(rec.method, "patch");
    assert_eq!(parse_method_from_file(&Some(text.to_string())), Some(HttpMethod::Patch));
    let listing = vec![file("n.json", Some(text))];
    let mut ws = open_ws(&listing);
    let loaded = ws.load_request(0, &Some(text.to_string())).expect("the file loads");
    assert_eq!(loaded.method, HttpMethod::Patch);
}

#[test]
fn unknown_method_names_fall_back_to_get() {
    let text = "{\"name\":\"n\",\"method\":\"BREW\",\"url\":\"u\"}";
    assert_eq!(parse_method_from_file(&Some(text.to_string())), None);
    let listing = vec![file("n.json", Some(text))];
    let mut ws = open_ws(&listing);
    assert_eq!(ws.entries[0].method, None);
    let loaded = ws.load_request(0, &Some(text.to_string())).expect("the file loads");
    assert_eq!(loaded.method, HttpMethod::Get);
}

#[test]
fn loading_failures_change_nothing() {
    let listing = vec![file("n.json", Some("{broken"))];
    let mut ws = open_ws(&listing);
    assert!(ws.load_request(0, &Some("{broken".to_string())).is_none());
    assert_eq!(ws.selected, None);
    assert!(ws.load_request(0, &None).is_none());
    assert!(ws.load_request(7, &Some("{}".to_string())).is_none());
}

#[test]
fn record_files_tolerate_unknown_fields_and_defaults() {
    let text = "{\"method\":\"GET\",\"url\":\"u\",\"name\":\"n\",\"extra\":[{\"deep\":null}]}";
    let rec = saved_request_from_text(text).expect("unknown fields are ignored");
    assert_eq!(rec.headers, Vec::new());
    assert_eq!(rec.body, "");
    assert!(saved_request_from_text("{\"method\":\"GET\",\"url\":\"u\"}").is_none());
    assert!(saved_request_from_text("[1]").is_none());
    assert!(saved_request_from_text("{\"name\":1,\"method\":\"GET\",\"url\":\"u\"}").is_none());
}

#[test]
fn record_texts_print_their_five_fields_in_order() {
    let rec = api_client::record::SavedRequest {
        name: "n".to_string(),
        method: "GET".to_string(),
        url: "u".to_string(),
        headers: vec![("k".to_string(), "v".to_string())],
        body: "".to_string(),
    };
    let text = saved_request_to_text(&rec);
    assert_eq!(
        text,
        "{\n  \"name\": \"n\",\n  \"method\": \"GET\",\n  \"url\": \"u\",\n  \"headers\": {\n    \"k\": \"v\"\n  },\n  \"body\": \"\"\n}"
    );
    assert_eq!(saved_request_from_text(&text).as_ref(), Some(&rec));
}

#[test]
fn rename_plans_strip_escapes_and_separators() {
    let listing = vec![file("old.json", None)];
    let ws = open_ws(&listing);
    let plan = ws.plan_rename(0, "a/b c").expect("the name survives");
    assert_eq!(plan.old_path, "/ws/old.json");
    assert_eq!(plan.new_path, "/ws/a2Fb+c.json");
    assert!(ws.plan_rename(0, "").is_none());
    // percent signs are escape artifacts: they vanish, their digits stay
    let plan = ws.plan_rename(0, "%").expect("the digits survive");
    assert_eq!(plan.new_path, "/ws/25.json");
    assert!(ws.plan_rename(3, "fine").is_none());
    assert!(Workspace::new().plan_rename(0, "fine").is_none());
}

#[test]
fn delete_plans_point_at_the_entry_file() {
    let listing = vec![file("gone.json", None), file("kept.yaml", None)];
    let ws = open_ws(&listing);
    assert_eq!(ws.plan_delete(0).as_deref(), Some("/ws/gone.json"));
    // the entry's own file is removed, whatever its extension
    assert_eq!(ws.plan_delete(1).as_deref(), Some("/ws/kept.yaml"));
    assert!(ws.plan_delete(2).is_none());
    assert!(Workspace::new().plan_delete(0).is_none());
}

#[test]
fn config_round_trips_and_absorbs_failures() {
    let cfg = AppConfig {
        last_opened_folder: Some("/home/u/requests".to_string()),
    };
    let text = cfg.to_text();
    assert_eq!(
        text,
        "{\n  \"last_opened_folder\": \"/home/u/requests\"\n}"
    );
    assert_eq!(AppConfig::from_text(&text), cfg);

    let none = AppConfig {
        last_opened_folder: None,
    };
    assert_eq!(AppConfig::from_text(&none.to_text()), none);
    assert_eq!(AppConfig::from_text("not json"), none);
    assert_eq!(AppConfig::from_text("{\"last_opened_folder\": 3}"), none);
    assert_eq!(AppConfig::from_text("{}"), none);
}

fn bits() -> StatusBits {
    StatusBits {
        index_new: false,
        index_modified: false,
        index_deleted: false,
        index_renamed: false,
        index_typechange: false,
        wt_new: false,
        wt_modified: false,
        wt_deleted: false,
        wt_renamed: false,
        wt_typechange: false,
    }
}

#[test]
fn status_kinds_follow_their_precedence() {
    let mut b = bits();
    b.wt_typechange = true;
    assert_eq!(map_status(&b), FileStatus::Typechange);
    b.index_renamed = true;
    assert_eq!(map_status(&b), FileStatus::Renamed);
    b.wt_deleted = true;
    assert_eq!(map_status(&b), FileStatus::Deleted);
    b.index_modified = true;
    assert_eq!(map_status(&b), FileStatus::Modified);
    b.wt_new = true;
    assert_eq!(map_status(&b), FileStatus::New);
    assert_eq!(map_status(&bits()), FileStatus::Unknown);
}

#[test]
fn a_file_changed_in_both_places_appears_twice() {
    let mut b = bits();
    b.index_modified = true;
    b.wt_modified = true;
    let rows = entry_changes("src/a.rs", &b);
    assert_eq!(rows.len(), 2);
    assert!(rows[0].is_staged);
    assert!(!rows[1].is_staged);
    assert_eq!(rows[0].status, FileStatus::Modified);
    assert_eq!(rows[0].path, "src/a.rs");

    let mut staged_only = bits();
    staged_only.index_new = true;
    let rows = entry_changes("b.rs", &staged_only);
    assert_eq!(rows.len(), 1);
    assert!(rows[0].is_staged);
    assert_eq!(rows[0].status, FileStatus::New);
}

#[test]
fn an_unreadable_head_reports_the_head_token() {
    let snapshot = RepoSnapshot {
        branch_name: None,
        entries: Vec::new(),
    };
    let status = repository_status(&Some(snapshot)).expect("a repository was found");
    assert_eq!(status.branch_name.as_deref(), Some("HEAD"));
    assert_eq!(
        api_client::gitstatus::branch_name_of_head(&Some("main".to_string())),
        "main"
    );
    assert_eq!(api_client::gitstatus::branch_name_of_head(&None), "HEAD");
}

#[test]
fn repository_status_of_no_repository_is_none() {
    assert!(repository_status(&None).is_none());
    let mut b = bits();
    b.wt_new = true;
    let snapshot = RepoSnapshot {
        branch_name: Some("main".to_string()),
        entries: vec![("a".to_string(), b), ("b".to_string(), bits())],
    };
    let status = repository_status(&Some(snapshot)).expect("a repository was found");
    assert_eq!(status.branch_name.as_deref(), Some("main"));
    let rows = build_changes(&vec![("a".to_string(), b)]);
    assert_eq!(status.changes, rows);
    assert_eq!(rows.len(), 1);
}
