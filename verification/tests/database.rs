use wynn_browser::database;

fn s(t: &str) -> Option<String> {
    Some(t.to_string())
}

#[test]
fn data_lies_under_the_data_home() {
    assert_eq!(database::data_dir(s("/data"), s("/home/u")), "/data/wynn-browser");
    assert_eq!(database::data_dir(s("/data/"), None), "/data/wynn-browser");
    assert_eq!(database::data_dir(s(""), None), "/tmp/.local/share/wynn-browser");
    assert_eq!(database::data_dir(s(""), s("/h")), "/h/.local/share/wynn-browser");
}

#[test]
fn data_lies_under_home_by_default() {
    assert_eq!(database::data_dir(None, s("/home/u")), "/home/u/.local/share/wynn-browser");
    assert_eq!(database::data_dir(None, None), "/tmp/.local/share/wynn-browser");
    assert_eq!(database::dirs_fallback(s("/root")), "/root");
    assert_eq!(database::dirs_fallback(None), "/tmp");
}

#[test]
fn paths_join_like_paths() {
    for (base, rel) in [("/a", "b"), ("/a/", "b"), ("", "b"), ("/a", "/b"), ("/a", ""), ("a", "b/c")] {
        let expected = std::path::PathBuf::from(base).join(rel);
        assert_eq!(database::join_path(base, rel), expected.to_str().unwrap());
    }
}

#[test]
fn the_database_is_a_file_in_the_data_directory() {
    assert_eq!(database::database_path("/d/wynn-browser"), "/d/wynn-browser/wynn.db");
}
