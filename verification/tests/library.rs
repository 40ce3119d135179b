use gdrive_viewer::drive::{DriveFile, DriveFileRaw, DriveOwner, DRIVE_FOLDER_MIME, GOOGLE_DOC_MIME};
use gdrive_viewer::folders::collect_matching_folder_ids;
use gdrive_viewer::google::{
    after_failed_response, document_url, format_google_error, google_error_message, is_success_status, list_url,
    percent_encode, ListPager, RetryStep,
};
use gdrive_viewer::json::{document_contains_images, json_member, object_map_contains_image, JsonValue};
use gdrive_viewer::order::sort_matches;
use gdrive_viewer::scan::{initial_progress, resolve_scan_root, FolderWalk, ScanSession};
use gdrive_viewer::state::{resolve_parent_id, AppState, AuthState};
use gdrive_viewer::text::{is_blank, trim};

fn s(x: &str) -> String {
    x.to_string()
}

fn file(id: &str, name: &str, mime: &str, parents: &[&str], modified: Option<&str>) -> DriveFile {
    DriveFile {
        id: s(id),
        name: s(name),
        mime_type: s(mime),
        modified_time: modified.map(s),
        size: None,
        web_view_link: None,
        icon_link: None,
        owner_names: Vec::new(),
        parent_ids: parents.iter().map(|p| s(p)).collect(),
        is_folder: mime == DRIVE_FOLDER_MIME,
        is_google_doc: mime == GOOGLE_DOC_MIME,
        has_images: None,
    }
}

fn folder(id: &str, parents: &[&str]) -> DriveFile {
    file(id, id, DRIVE_FOLDER_MIME, parents, None)
}

fn doc(id: &str, name: &str, parents: &[&str], modified: Option<&str>) -> DriveFile {
    file(id, name, GOOGLE_DOC_MIME, parents, modified)
}

fn sorted(mut v: Vec<String>) -> Vec<String> {
    v.sort();
    v
}

fn obj(members: Vec<(&str, JsonValue)>) -> JsonValue {
    JsonValue::Object(members.into_iter().map(|(k, v)| (s(k), v)).collect())
}

fn image_object(properties: &str) -> JsonValue {
    obj(vec![(properties, obj(vec![("embeddedObject", obj(vec![("imageProperties", obj(vec![]))]))]))])
}

#[test]
fn trim_removes_unicode_white_space_at_both_ends() {
    assert_eq!(trim("  ya29.token \t\n"), "ya29.token");
    assert_eq!(trim("\u{3000}a b\u{00A0}"), "a b");
    assert_eq!(trim(""), "");
    assert!(is_blank(" \t\r\n"));
    assert!(!is_blank(" x "));
}

#[test]
fn drive_file_from_raw_sets_flags_and_owner_names() {
    let raw = DriveFileRaw {
        id: s("f1"),
        name: s("Doc"),
        mime_type: s(GOOGLE_DOC_MIME),
        modified_time: Some(s("2024-01-01T00:00:00Z")),
        size: None,
        web_view_link: Some(s("https://docs.google.com/x")),
        icon_link: None,
        owners: Some(vec![
            DriveOwner { display_name: Some(s("Ann")), email_address: Some(s("ann@example.com")) },
            DriveOwner { display_name: None, email_address: Some(s("bob@example.com")) },
            DriveOwner { display_name: None, email_address: None },
        ]),
        parents: None,
    };
    let f = DriveFile::from(raw);
    assert_eq!(f.owner_names, vec![s("Ann"), s("bob@example.com")]);
    assert!(f.parent_ids.is_empty());
    assert!(f.is_google_doc);
    assert!(!f.is_folder);
    assert_eq!(f.has_images, None);
    assert_eq!(f.modified_time.as_deref(), Some("2024-01-01T00:00:00Z"));
    let raw_folder = DriveFileRaw {
        id: s("d"),
        name: s("Dir"),
        mime_type: s(DRIVE_FOLDER_MIME),
        modified_time: None,
        size: None,
        web_view_link: None,
        icon_link: None,
        owners: None,
        parents: Some(vec![s("root")]),
    };
    let d = DriveFile::from(raw_folder);
    assert!(d.is_folder && !d.is_google_doc);
    assert_eq!(d.parent_ids, vec![s("root")]);
    assert!(d.owner_names.is_empty());
}

#[test]
fn matching_folders_follow_parent_links_to_the_top() {
    let all = vec![
        folder("a", &["root"]),
        folder("b", &["a"]),
        folder("c", &["b"]),
        folder("other", &["root"]),
        doc("d1", "Doc", &["c"], None),
        doc("d2", "Doc2", &["other"], None),
    ];
    let matches = vec![doc("d1", "Doc", &["c"], None)];
    let ids = collect_matching_folder_ids(&all, &matches);
    assert_eq!(sorted(ids), vec![s("a"), s("b"), s("c"), s("root")]);
}

#[test]
fn matching_folders_survive_cycles_and_shared_parents() {
    let all = vec![folder("x", &["y"]), folder("y", &["x"]), folder("z", &["x"])];
    let matches = vec![doc("m1", "A", &["z"], None), doc("m2", "B", &["x", "z"], None)];
    let ids = collect_matching_folder_ids(&all, &matches);
    assert_eq!(ids.len(), 3);
    assert_eq!(sorted(ids), vec![s("x"), s("y"), s("z")]);
    assert!(collect_matching_folder_ids(&all, &[]).is_empty());
}

#[test]
fn matching_folders_use_the_last_listing_of_an_id() {
    let all = vec![folder("a", &["p1"]), folder("a", &["p2"])];
    let matches = vec![doc("m", "M", &["a"], None)];
    assert_eq!(sorted(collect_matching_folder_ids(&all, &matches)), vec![s("a"), s("p2")]);
}

#[test]
fn percent_encoding_escapes_all_but_letters_and_digits() {
    assert_eq!(percent_encode("foo bar?"), "foo%20bar%3F");
    assert_eq!(percent_encode("é-1"), "%C3%A9%2D1");
    assert_eq!(percent_encode("AZaz09"), "AZaz09");
}

#[test]
fn list_url_encodes_query_fields_and_token() {
    let expected = "https://www.googleapis.com/drive/v3/files?q=%27root%27%20in%20parents%20and%20trashed%20%3D%20false&pageSize=100&fields=nextPageToken%2Cfiles%28id%2Cname%2CmimeType%2CmodifiedTime%2Csize%2CwebViewLink%2CiconLink%2Cowners%28displayName%2CemailAddress%29%2Cparents%29&orderBy=folder,name_natural";
    assert_eq!(list_url("root", None), expected);
    assert_eq!(list_url("root", Some("a/b")), format!("{expected}&pageToken=a%2Fb"));
}

#[test]
fn document_url_asks_for_object_fields() {
    assert_eq!(
        document_url("abc123"),
        "https://docs.googleapis.com/v1/documents/abc123?fields=inlineObjects%2CpositionedObjects"
    );
}

#[test]
fn google_error_mentions_status_and_body() {
    assert_eq!(format_google_error("Drive request", 404, "  \n"), "Drive request failed with status 404 Not Found.");
    assert_eq!(
        format_google_error("Docs request", 429, "{\"error\":1}"),
        "Docs request failed with status 429 Too Many Requests: {\"error\":1}"
    );
    assert_eq!(google_error_message("X", "599 <unknown status code>", ""), "X failed with status 599 <unknown status code>.");
    assert!(is_success_status(204));
    assert!(!is_success_status(301));
}

#[test]
fn retries_only_retryable_statuses_with_doubling_delay() {
    assert!(matches!(after_failed_response(429, 0), RetryStep::RetryAfter(350)));
    assert!(matches!(after_failed_response(503, 1), RetryStep::RetryAfter(700)));
    assert!(matches!(after_failed_response(503, 2), RetryStep::GiveUp));
    assert!(matches!(after_failed_response(404, 0), RetryStep::GiveUp));
    assert!(matches!(after_failed_response(600, 0), RetryStep::GiveUp));
}

#[test]
fn list_pager_reads_pages_until_no_token() {
    let mut pager = ListPager::new("root");
    assert_eq!(pager.next_url(), Some(list_url("root", None)));
    let raw = |id: &str| DriveFileRaw {
        id: s(id),
        name: s(id),
        mime_type: s("text/plain"),
        modified_time: None,
        size: None,
        web_view_link: None,
        icon_link: None,
        owners: None,
        parents: Some(vec![s("root")]),
    };
    pager.absorb_page(vec![raw("1"), raw("2")], Some(s("tok")));
    assert_eq!(pager.next_url(), Some(list_url("root", Some("tok"))));
    pager.absorb_page(vec![raw("3")], None);
    assert_eq!(pager.next_url(), None);
    let ids: Vec<String> = pager.into_files().into_iter().map(|f| f.id).collect();
    assert_eq!(ids, vec![s("1"), s("2"), s("3")]);
}

#[test]
fn documents_with_inline_or_positioned_images_are_found() {
    let inline = obj(vec![("inlineObjects", obj(vec![("kix.1", image_object("inlineObjectProperties"))]))]);
    assert!(document_contains_images(&inline));
    let positioned = obj(vec![("positionedObjects", obj(vec![("p.1", image_object("positionedObjectProperties"))]))]);
    assert!(document_contains_images(&positioned));
    let drawing = obj(vec![(
        "inlineObjects",
        obj(vec![("kix.2", obj(vec![("inlineObjectProperties", obj(vec![("embeddedObject", obj(vec![]))]))]))]),
    )]);
    assert!(!document_contains_images(&drawing));
    assert!(!document_contains_images(&obj(vec![])));
    assert!(!document_contains_images(&JsonValue::Null));
    assert!(!object_map_contains_image(None));
    assert!(!object_map_contains_image(Some(&JsonValue::Array(vec![image_object("inlineObjectProperties")]))));
    assert!(json_member(&inline, "positionedObjects").is_none());
}

#[test]
fn access_token_is_trimmed_and_blank_refused() {
    let mut st = AppState::new();
    assert_eq!(st.get_auth_state(), AuthState { connected: false });
    assert_eq!(st.read_token(), Err(s("Google access token is not configured.")));
    assert_eq!(st.set_access_token("   "), Err(s("Access token cannot be empty.")));
    assert_eq!(st.set_access_token("  tok  "), Ok(AuthState { connected: true }));
    assert_eq!(st.read_token(), Ok(s("tok")));
    assert!(st.get_auth_state().connected);
    assert_eq!(st.clear_access_token(), AuthState { connected: false });
    assert!(!st.get_auth_state().connected);
}

#[test]
fn listing_cache_reads_back_and_clears() {
    let mut st = AppState::new();
    assert!(st.cached_listing("root").is_none());
    st.store_listing("root", vec![folder("a", &["root"])]);
    st.store_listing("a", vec![doc("d", "D", &["a"], None)]);
    st.store_listing("root", vec![folder("b", &["root"])]);
    let root: Vec<String> = st.cached_listing("root").unwrap().into_iter().map(|f| f.id).collect();
    assert_eq!(root, vec![s("b")]);
    assert_eq!(st.cached_listing("a").unwrap()[0].id, "d");
    let resp = st.record_listing(s("c"), vec![]);
    assert_eq!(resp.parent_id, "c");
    assert!(st.cached_listing("c").unwrap().is_empty());
    st.store_scan("d", Some(s("t1")), true);
    assert!(st.cached_scan("d").unwrap().has_images);
    st.clear_access_token();
    assert!(st.cached_listing("root").is_none());
    assert!(st.cached_scan("d").is_none());
}

#[test]
fn cancelling_or_starting_makes_running_scans_stale() {
    let mut st = AppState::new();
    let g1 = st.begin_scan();
    assert_eq!(g1, 1);
    assert!(!st.scan_cancelled(g1));
    st.cancel_scan();
    assert!(st.scan_cancelled(g1));
    let g2 = st.begin_scan();
    assert_eq!(g2, 3);
    assert!(!st.scan_cancelled(g2));
    let g3 = st.begin_scan();
    assert!(st.scan_cancelled(g2) && !st.scan_cancelled(g3));
}

#[test]
fn defaults_for_missing_folder_ids() {
    assert_eq!(resolve_scan_root(s("  ")), "root");
    assert_eq!(resolve_scan_root(s("abc")), "abc");
    assert_eq!(resolve_parent_id(None), "root");
    assert_eq!(resolve_parent_id(Some(s("x"))), "x");
    let p = initial_progress("root");
    assert_eq!(p.message, "正在读取目录...");
    assert_eq!(p.folder_id, "root");
}

#[test]
fn folder_walk_reads_subfolders_only_when_recursive() {
    let mut walk = FolderWalk::new("root", true);
    assert_eq!(walk.next_folder(), Some(s("root")));
    let p = walk.absorb_children(vec![folder("a", &["root"]), doc("d1", "D1", &["root"], None)]);
    assert_eq!(p.total_files, 2);
    assert_eq!(p.total_docs, 1);
    assert_eq!(p.scanned_folders, 1);
    assert_eq!(p.message, "正在读取目录，已读取 1 个文件夹");
    assert_eq!(walk.next_folder(), Some(s("a")));
    let p = walk.absorb_children(vec![doc("d2", "D2", &["a"], None)]);
    assert_eq!((p.total_files, p.total_docs, p.scanned_folders), (3, 2, 2));
    assert_eq!(walk.next_folder(), None);
    assert_eq!(walk.into_files().len(), 3);

    let mut flat = FolderWalk::new("root", false);
    assert_eq!(flat.next_folder(), Some(s("root")));
    flat.absorb_children(vec![folder("a", &["root"])]);
    assert_eq!(flat.next_folder(), None);
}

#[test]
fn matches_sort_by_lowercase_name_then_id() {
    let v = vec![doc("2", "beta", &[], None), doc("3", "Alpha", &[], None), doc("1", "alpha", &[], None)];
    let ids: Vec<String> = sort_matches(&v).into_iter().map(|f| f.id).collect();
    assert_eq!(ids, vec![s("1"), s("3"), s("2")]);
}

#[test]
fn scan_session_uses_cache_records_results_and_reports() {
    let mut st = AppState::new();
    st.store_scan("cached-img", Some(s("t1")), true);
    st.store_scan("cached-plain", Some(s("t1")), false);
    st.store_scan("stale", Some(s("old")), true);
    let all = vec![
        folder("f", &["root"]),
        doc("cached-img", "Zed", &["f"], Some("t1")),
        doc("cached-plain", "Plain", &["root"], Some("t1")),
        doc("stale", "Stale", &["root"], Some("new")),
        doc("fresh", "apple", &["root"], None),
        file("txt", "notes", "text/plain", &["root"], None),
    ];
    let (mut session, progress) = ScanSession::begin(s("root"), true, all, &st, false);
    assert_eq!(progress.len(), 2);
    assert_eq!(progress[0].message, "使用缓存结果");
    assert_eq!((progress[0].checked_docs, progress[0].docs_with_images), (1, 1));
    assert_eq!((progress[1].cache_hits, progress[1].docs_with_images), (2, 1));
    assert_eq!(session.total_docs(), 4);
    assert_eq!(session.checked_docs(), 2);
    let to_scan: Vec<String> = session.docs_to_scan().into_iter().map(|f| f.id).collect();
    assert_eq!(to_scan, vec![s("stale"), s("fresh")]);

    assert!(session.is_open_slot(1));
    assert!(!session.is_open_slot(2));
    let p = session.record_result(&mut st, 1, Ok(true));
    assert!(!session.is_open_slot(1));
    assert_eq!(p.current_file_name.as_deref(), Some("apple"));
    assert_eq!((p.checked_docs, p.scanned_docs, p.docs_with_images), (3, 1, 2));
    assert_eq!(p.message, "正在检查文档");
    assert!(st.cached_scan("fresh").unwrap().has_images);
    let p = session.record_result(&mut st, 0, Err(s("boom")));
    assert_eq!((p.checked_docs, p.failed_docs), (4, 1));
    assert_eq!(p.current_file_name.as_deref(), Some("Stale"));
    let c = session.cancelled_progress();
    assert!(c.cancelled);
    assert_eq!(c.message, "扫描已取消");

    let result = session.finish();
    assert_eq!((result.total_files, result.total_docs, result.scanned_docs), (6, 4, 1));
    assert_eq!((result.cache_hits, result.failed_docs, result.docs_with_images), (2, 1, 2));
    let names: Vec<String> = result.matches.iter().map(|f| f.name.clone()).collect();
    assert_eq!(names, vec![s("apple"), s("Zed")]);
    assert!(result.matches.iter().all(|f| f.has_images == Some(true)));
    assert_eq!(sorted(result.matching_folder_ids), vec![s("f"), s("root")]);
    assert_eq!(result.failures.len(), 1);
    assert_eq!(result.failures[0].reason, "boom");
}

#[test]
fn forced_scan_ignores_the_cache() {
    let mut st = AppState::new();
    st.store_scan("d", Some(s("t")), true);
    let (session, progress) = ScanSession::begin(s("root"), false, vec![doc("d", "D", &["root"], Some("t"))], &st, true);
    assert!(progress.is_empty());
    assert_eq!(session.checked_docs(), 0);
    assert_eq!(session.docs_to_scan().len(), 1);
    st.cancel_scan();
}

#[test]
fn equal_sort_keys_keep_their_order() {
    let v = vec![doc("1", "Report", &[], None), doc("0", "zzz", &[], None), doc("1", "report", &[], None)];
    let names: Vec<String> = sort_matches(&v).into_iter().map(|f| f.name).collect();
    assert_eq!(names, vec![s("Report"), s("report"), s("zzz")]);
    let w = vec![doc("1", "report", &[], None), doc("1", "Report", &[], None)];
    let names: Vec<String> = sort_matches(&w).into_iter().map(|f| f.name).collect();
    assert_eq!(names, vec![s("report"), s("Report")]);
}

#[test]
fn cancelled_scan_stops_taking_results() {
    let mut st = AppState::new();
    let g = st.begin_scan();
    let all = vec![doc("a", "A", &["root"], None), doc("b", "B", &["root"], None)];
    let (mut session, _) = ScanSession::begin(s("root"), false, all, &st, false);
    assert!(session.check_cancelled(&st, g).is_none());
    session.record_result(&mut st, 0, Ok(false));
    st.cancel_scan();
    let p = session.check_cancelled(&st, g).expect("stale scan");
    assert!(p.cancelled);
    assert_eq!(p.message, "扫描已取消");
    assert_eq!(p.checked_docs, 1);
    assert!(!session.is_open_slot(1));
    let r = session.finish();
    assert_eq!((r.total_docs, r.scanned_docs, r.failed_docs, r.cache_hits), (2, 1, 0, 0));
    assert!(r.matches.is_empty());
}

#[test]
fn folder_walk_stops_when_scan_is_cancelled() {
    let mut st = AppState::new();
    let g = st.begin_scan();
    let mut walk = FolderWalk::new("root", true);
    assert_eq!(walk.next_folder_unless_cancelled(&st, g), Some(s("root")));
    walk.absorb_children(vec![folder("a", &["root"])]);
    st.cancel_scan();
    assert_eq!(walk.next_folder_unless_cancelled(&st, g), None);
    assert_eq!(walk.next_folder(), Some(s("a")));
}
