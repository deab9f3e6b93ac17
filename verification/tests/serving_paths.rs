use haptic_sync::serving::{
    funscript_response_status, get_funscript_path_for_video, normalize_path, validate_save_path,
};

#[test]
fn normalize_strips_one_leading_separator() {
    assert_eq!(normalize_path(String::from("/a/b.mp4")), "a/b.mp4");
    assert_eq!(normalize_path(String::from("\\a\\b.mp4")), "a\\b.mp4");
    assert_eq!(normalize_path(String::from("a/b.mp4")), "a/b.mp4");
    assert_eq!(normalize_path(String::from("")), "");
    assert_eq!(normalize_path(String::from("//x")), "/x");
}

#[test]
fn funscript_path_replaces_the_extension() {
    let r = get_funscript_path_for_video("clips/video.mp4", "/srv/media").unwrap();
    assert_eq!(r, "/srv/media/clips/video.funscript");
}

#[test]
fn funscript_path_appends_when_there_is_no_extension() {
    let r = get_funscript_path_for_video("clips/video", "/srv/media").unwrap();
    assert_eq!(r, "/srv/media/clips/video.funscript");
}

#[test]
fn funscript_path_ignores_dots_in_directories() {
    let r = get_funscript_path_for_video("v1.2/video", "/srv/media").unwrap();
    assert_eq!(r, "/srv/media/v1.2/video.funscript");
}

#[test]
fn funscript_path_with_absolute_request_replaces_the_base() {
    let r = get_funscript_path_for_video("/elsewhere/video.mp4", "/srv/media").unwrap();
    assert_eq!(r, "/elsewhere/video.funscript");
}

#[test]
fn funscript_path_with_trailing_separator_on_the_base() {
    let r = get_funscript_path_for_video("clips/video.mp4", "/srv/media/").unwrap();
    assert_eq!(r, "/srv/media/clips/video.funscript");
}

#[test]
fn funscript_path_with_empty_base() {
    let r = get_funscript_path_for_video("video.mp4", "").unwrap();
    assert_eq!(r, "video.funscript");
}

#[test]
fn save_path_validation() {
    assert!(validate_save_path("a/b.mp4"));
    assert!(validate_save_path("video.mp4"));
    assert!(validate_save_path(""));
    assert!(validate_save_path("a..b/c"));
    assert!(validate_save_path("a/.hidden"));
    assert!(!validate_save_path("/absolute/path.mp4"));
    assert!(!validate_save_path(".."));
    assert!(!validate_save_path("a/../b"));
    assert!(!validate_save_path("../escape.mp4"));
    assert!(!validate_save_path("a/b/.."));
}

#[test]
fn funscript_response_status_follows_the_original_file() {
    assert_eq!(funscript_response_status(true), 200);
    assert_eq!(funscript_response_status(false), 404);
}
