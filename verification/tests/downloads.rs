use wynn_browser::downloads;
use wynn_browser::downloads::DownloadStatus;

fn s(t: &str) -> Option<String> {
    Some(t.to_string())
}

#[test]
fn downloads_go_to_the_download_directory() {
    assert_eq!(downloads::download_directory(s("/dl"), s("/home/u")), "/dl");
    assert_eq!(downloads::download_directory(None, s("/home/u")), "/home/u/Downloads");
    assert_eq!(downloads::download_directory(None, None), "/tmp/Downloads");
}

#[test]
fn a_download_runs_its_course() {
    let mut list = downloads::new_download_list();
    let a = list.start("/dl", "a.zip");
    let b = list.start("/dl/", "b.zip");
    assert_eq!(a, "file:///dl/a.zip");
    assert_eq!(b, "file:///dl/b.zip");
    assert_eq!(f64::from_bits(list.entries()[0].progress), 0.0);
    list.set_progress(&a, 0.25f64.to_bits());
    assert_eq!(f64::from_bits(list.entries()[0].progress), 0.25);
    assert_eq!(f64::from_bits(list.entries()[1].progress), 0.0);
    list.finish(&a);
    assert_eq!(f64::from_bits(list.entries()[0].progress), 1.0);
    assert!(list.entries()[0].finished);
    assert!(!list.entries()[1].finished);
    list.fail(&b, "no space");
    assert!(list.entries()[1].failed);
    assert_eq!(list.entries()[1].error_msg, "no space");
    assert!(!list.entries()[0].failed);
    list.finish("file:///elsewhere");
    assert!(!list.entries()[1].finished);
}

#[test]
fn only_the_first_of_equal_destinations_is_touched() {
    let mut list = downloads::new_download_list();
    let a = list.start("/dl", "a");
    list.start("/dl", "a");
    list.finish(&a);
    assert!(list.entries()[0].finished);
    assert!(!list.entries()[1].finished);
}

#[test]
fn rows_show_the_status() {
    let mut list = downloads::new_download_list();
    let a = list.start("/dl", "a");
    let row = downloads::show_download(&list.entries()[0]);
    assert!(matches!(row.status, DownloadStatus::Percentage));
    assert_eq!(row.icon, "content-loading-symbolic");
    list.finish(&a);
    let row = downloads::show_download(&list.entries()[0]);
    assert!(matches!(row.status, DownloadStatus::Text(t) if t == "Completed"));
    assert_eq!(row.icon, "emblem-ok-symbolic");
    list.fail(&a, "gone");
    let row = downloads::show_download(&list.entries()[0]);
    assert!(matches!(row.status, DownloadStatus::Text(t) if t == "Failed: gone"));
    assert_eq!(row.icon, "dialog-error-symbolic");
}

#[test]
fn the_dialog_lists_the_latest_first() {
    let mut list = downloads::new_download_list();
    assert!(downloads::list_for_dialog(&list).is_empty());
    list.start("/dl", "a");
    list.start("/dl", "b");
    let names: Vec<String> =
        downloads::list_for_dialog(&list).into_iter().map(|d| d.filename).collect();
    assert_eq!(names, vec!["b", "a"]);
}
