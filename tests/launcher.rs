use polylauncher::config::{resolve_version, LATEST_VERSION, MAX_DOWNLOAD_RETRIES, RETRY_DELAY_SECS};
use polylauncher::downloader::{create_download_tasks, retry_step, DownloadStats, RetryStep};

#[test]
fn latest_resolves_to_newest_version() {
    assert_eq!(resolve_version("latest"), LATEST_VERSION);
    assert_eq!(resolve_version("latest"), "0.5.2");
    assert_eq!(resolve_version("0.4.0"), "0.4.0");
    assert_eq!(resolve_version(""), "");
}

#[test]
fn stats_start_empty_and_tally() {
    let s = DownloadStats::new(4);
    assert_eq!((s.total, s.completed, s.failed), (4, 0, 0));
    let t = DownloadStats::tally(&vec![true, false, true, true]);
    assert_eq!((t.total, t.completed, t.failed), (4, 3, 1));
    assert!(!t.all_succeeded());
    assert!(DownloadStats::tally(&vec![]).all_succeeded());
}

#[test]
fn retries_until_the_last_attempt() {
    assert_eq!(retry_step(1, true), RetryStep::Done);
    assert_eq!(retry_step(1, false), RetryStep::RetryAfter(RETRY_DELAY_SECS));
    assert_eq!(retry_step(MAX_DOWNLOAD_RETRIES, false), RetryStep::GiveUp);
}

#[test]
fn tasks_strip_prefix_and_default_to_index() {
    let urls = vec![
        "https://h/0.5.2/".to_string(),
        "https://h/0.5.2/js/app.js".to_string(),
    ];
    let tasks = create_download_tasks(&urls, "https://h/0.5.2/", "/home/u/v").unwrap();
    assert_eq!(tasks.len(), 2);
    assert_eq!(tasks[0].display_name, "index.html");
    assert_eq!(tasks[0].dest_path, "/home/u/v/index.html");
    assert_eq!(tasks[1].url, "https://h/0.5.2/js/app.js");
    assert_eq!(tasks[1].display_name, "js/app.js");
    assert_eq!(tasks[1].dest_path, "/home/u/v/js/app.js");
}

#[test]
fn task_with_foreign_url_is_refused() {
    let urls = vec!["https://h/0.5.2/a".to_string(), "https://other/b".to_string()];
    assert_eq!(
        create_download_tasks(&urls, "https://h/0.5.2/", "/v").unwrap_err(),
        "https://other/b"
    );
}
