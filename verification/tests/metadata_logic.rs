use haptic_sync::metadata::{
    build_search_query, cleanup_suggestions, ensure_video_status, merge_tags, remap_decision,
    sort_file_nodes, untracked_files, FileNode, GetOrCreateResult, OrphanVideoInfo, RemapAction,
    SearchFilters, SearchParam, VideoMetadata,
};

fn orphan(id: i64, path: &str, size: i64) -> OrphanVideoInfo {
    OrphanVideoInfo {
        id,
        path: String::from(path),
        file_size: size,
    }
}

fn meta(id: i64) -> VideoMetadata {
    VideoMetadata {
        id,
        filename: String::from("a.mp4"),
        path: String::from("a.mp4"),
        file_size: 10,
        avg_intensity: None,
        max_intensity: None,
        duration: None,
        rating: None,
        has_funscript: false,
        tags: Vec::new(),
    }
}

#[test]
fn cleanup_suggests_unique_size_matches() {
    let videos = vec![
        orphan(1, "gone.mp4", 100),
        orphan(2, "still-there.mp4", 200),
        orphan(3, "ambiguous.mp4", 300),
        orphan(4, "unmatched.mp4", 400),
    ];
    // Record 2's file still exists; the others are missing on disk.
    let exists = vec![false, true, false, false];
    let disk = vec![
        (String::from("moved/gone.mp4"), 100i64),
        (String::from("x.mp4"), 300i64),
        (String::from("y.mp4"), 300i64),
    ];
    let r = cleanup_suggestions(&videos, &exists, &disk);
    // Only record 1 has exactly one size match; 3 is ambiguous, 4 has
    // none, and 2 is not an orphan.
    assert_eq!(r.len(), 1);
    assert_eq!(r[0].orphan_id, 1);
    assert_eq!(r[0].orphan_path, "gone.mp4");
    assert_eq!(r[0].potential_match_path, "moved/gone.mp4");
}

#[test]
fn cleanup_with_no_orphans_is_empty() {
    let videos = vec![orphan(1, "a.mp4", 100)];
    let exists = vec![true];
    let disk = vec![(String::from("a.mp4"), 100i64)];
    assert!(cleanup_suggestions(&videos, &exists, &disk).is_empty());
}

#[test]
fn untracked_files_are_sorted_set_difference() {
    let disk = vec![
        String::from("c/video.mp4"),
        String::from("a/video.mp4"),
        String::from("b/video.mp4"),
    ];
    let db = vec![String::from("b/video.mp4")];
    let r = untracked_files(&disk, &db);
    assert_eq!(
        r,
        vec![String::from("a/video.mp4"), String::from("c/video.mp4")]
    );
}

#[test]
fn untracked_files_empty_cases() {
    let disk = vec![String::from("a")];
    let db = vec![String::from("a")];
    assert!(untracked_files(&disk, &db).is_empty());
    assert!(untracked_files(&Vec::new(), &db).is_empty());
}

#[test]
fn merged_tags_are_deduplicated_and_case_insensitively_sorted() {
    let predefined = vec![String::from("B"), String::from("rock")];
    let db = vec![String::from("a"), String::from("rock")];
    let r = merge_tags(&predefined, &db);
    // "rock" appears once; "B" sorts after "a" because comparison is by
    // lowercase form, not by code point.
    assert_eq!(
        r,
        vec![String::from("a"), String::from("B"), String::from("rock")]
    );
}

#[test]
fn remap_decision_matches_existing_record() {
    assert_eq!(remap_decision(Some(7)), RemapAction::DeleteThenRemap(7));
    assert_eq!(remap_decision(None), RemapAction::RemapOnly);
}

#[test]
fn ensure_video_statuses() {
    assert_eq!(ensure_video_status(&GetOrCreateResult::Created(meta(1))), 201);
    assert_eq!(
        ensure_video_status(&GetOrCreateResult::FoundByPath(meta(2))),
        200
    );
    assert_eq!(
        ensure_video_status(&GetOrCreateResult::FoundByContent(meta(3))),
        409
    );
}

#[test]
fn search_query_without_filters() {
    let filters = SearchFilters {
        min_duration: None,
        max_duration: None,
        min_avg_intensity: None,
        max_avg_intensity: None,
    };
    let (sql, params) = build_search_query("beach", &filters);
    assert!(sql.starts_with("SELECT"));
    assert!(sql.ends_with(" GROUP BY v.id"));
    assert!(!sql.contains("v.duration >= ?"));
    assert!(!sql.contains("v.duration <= ?"));
    assert!(!sql.contains("v.avg_intensity >= ?"));
    assert!(!sql.contains("v.avg_intensity <= ?"));
    assert_eq!(params.len(), 1);
    match &params[0] {
        SearchParam::Text(t) => assert_eq!(t, "%beach%"),
        SearchParam::Number(_) => panic!("first parameter must be the pattern"),
    }
}

#[test]
fn search_query_with_all_filters() {
    let filters = SearchFilters {
        min_duration: Some(60),
        max_duration: Some(600),
        min_avg_intensity: Some(10),
        max_avg_intensity: Some(90),
    };
    let (sql, params) = build_search_query("x", &filters);
    assert!(sql.contains(" AND v.duration >= ?"));
    assert!(sql.contains(" AND v.duration <= ?"));
    assert!(sql.contains(" AND v.avg_intensity >= ?"));
    assert!(sql.contains(" AND v.avg_intensity <= ?"));
    assert!(sql.ends_with(" GROUP BY v.id"));
    assert_eq!(params.len(), 5);
    let nums: Vec<i64> = params
        .iter()
        .skip(1)
        .map(|p| match p {
            SearchParam::Number(n) => *n,
            SearchParam::Text(_) => panic!("numeric parameters expected after the pattern"),
        })
        .collect();
    assert_eq!(nums, vec![60, 600, 10, 90]);
}

fn node(name: &str, is_dir: bool) -> FileNode {
    FileNode {
        name: String::from(name),
        path: String::from(name),
        is_dir,
        children: if is_dir { Some(Vec::new()) } else { None },
    }
}

#[test]
fn directory_entries_sort_dirs_first_then_case_insensitive() {
    let nodes = vec![
        node("zeta.mp4", false),
        node("Alpha", true),
        node("beta.mp4", false),
        node("gamma", true),
        node("Beta.mp4", false),
    ];
    let sorted = sort_file_nodes(nodes);
    let names: Vec<&str> = sorted.iter().map(|n| n.name.as_str()).collect();
    // Directories first (case-insensitive), then files; "beta.mp4" keeps
    // its place before "Beta.mp4" because the sort is stable.
    assert_eq!(
        names,
        vec!["Alpha", "gamma", "beta.mp4", "Beta.mp4", "zeta.mp4"]
    );
}
