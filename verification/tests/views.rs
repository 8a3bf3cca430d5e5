use ophelia::icon::IconName;
use ophelia::links::{download_file_name, link_from_clipboard, looks_like_link};
use ophelia::transfers::{
    destination_rule_for_transfer, dotted_lowercase, matching_rule_index, download_row_state, transfer_row_controls, DestinationRule, TransferAvailableActions, normalized_filename_extension, normalized_rule_extension, row_toggle, DownloadState, RowToggle,
    resolve_selected_transfer_id, TransferFilter,
};
use ophelia::types::{DownloadId, DownloadStatus};

#[test]
fn selection_defaults_to_first_visible_row() {
    let rows = vec![DownloadId(3), DownloadId(7)];
    assert_eq!(resolve_selected_transfer_id(&rows, None), Some(DownloadId(3)));
}

#[test]
fn selection_preserves_current_row_when_still_visible() {
    let rows = vec![DownloadId(3), DownloadId(7)];
    assert_eq!(resolve_selected_transfer_id(&rows, Some(DownloadId(7))), Some(DownloadId(7)));
}

#[test]
fn selection_falls_back_when_row_is_removed_or_filtered_out() {
    let rows = vec![DownloadId(11), DownloadId(14)];
    assert_eq!(resolve_selected_transfer_id(&rows, Some(DownloadId(99))), Some(DownloadId(11)));
}

#[test]
fn selection_clears_when_no_rows_are_visible() {
    assert_eq!(resolve_selected_transfer_id(&[], Some(DownloadId(5))), None);
}

#[test]
fn filters_match_statuses() {
    assert!(TransferFilter::All.matches(DownloadStatus::Error));
    assert!(TransferFilter::Active.matches(DownloadStatus::Downloading));
    assert!(TransferFilter::Active.matches(DownloadStatus::Pending));
    assert!(!TransferFilter::Active.matches(DownloadStatus::Paused));
    assert!(TransferFilter::Finished.matches(DownloadStatus::Finished));
    assert!(TransferFilter::Paused.matches(DownloadStatus::Paused));
    assert!(TransferFilter::Failed.matches(DownloadStatus::Error));
    assert!(!TransferFilter::Failed.matches(DownloadStatus::Finished));
}

#[test]
fn rule_extensions_are_normalised() {
    assert_eq!(normalized_rule_extension(" MKV "), Some(".mkv".to_string()));
    assert_eq!(normalized_rule_extension(".Pdf"), Some(".pdf".to_string()));
    assert_eq!(normalized_rule_extension("\t\n"), None);
    assert_eq!(normalized_rule_extension(""), None);
    assert_eq!(normalized_rule_extension("\u{3000}TaR.GZ"), Some(".tar.gz".to_string()));
}

#[test]
fn filename_extensions_are_normalised() {
    assert_eq!(normalized_filename_extension("movie.MKV"), Some(".mkv".to_string()));
    assert_eq!(normalized_filename_extension("archive.tar.gz"), Some(".gz".to_string()));
    assert_eq!(normalized_filename_extension("README"), None);
    assert_eq!(normalized_filename_extension(".bashrc"), None);
    assert_eq!(dotted_lowercase("ÄbC"), ".Äbc");
}

#[test]
fn links_from_clipboard() {
    assert!(looks_like_link("http://a"));
    assert!(looks_like_link("https://a"));
    assert!(!looks_like_link("ftp://a"));
    assert!(!looks_like_link("http:/"));
    assert_eq!(link_from_clipboard(Some("https://x/y".to_string())), Some("https://x/y".to_string()));
    assert_eq!(link_from_clipboard(Some("hello".to_string())), None);
    assert_eq!(link_from_clipboard(None), None);
}

#[test]
fn download_names_come_from_the_last_segment() {
    assert_eq!(download_file_name("https://example.com/files/a.zip?token=1"), "a.zip");
    assert_eq!(download_file_name("https://example.com/files/"), "download");
    assert_eq!(download_file_name("https://example.com/?x"), "download");
    assert_eq!(download_file_name("file"), "file");
}

#[test]
fn icon_paths() {
    assert_eq!(IconName::Inbox.path(), "icons/inbox.svg");
    assert_eq!(IconName::ArrowDownToLine.path(), "icons/arrow-down-to-line.svg");
    assert_eq!(IconName::Plus.path(), "icons/plus.svg");
}

#[test]
fn download_rows_map_status_and_toggle() {
    use_row_states();
}

fn use_row_states() {
    use_state(DownloadStatus::Downloading, DownloadState::Active, Some(RowToggle::Pause));
    use_state(DownloadStatus::Pending, DownloadState::Queued, Some(RowToggle::Pause));
    use_state(DownloadStatus::Paused, DownloadState::Paused, Some(RowToggle::Resume));
    use_state(DownloadStatus::Finished, DownloadState::Finished, None);
    use_state(DownloadStatus::Error, DownloadState::Error, None);
}

fn use_state(status: DownloadStatus, state: DownloadState, toggle: Option<RowToggle>) {
    assert_eq!(download_row_state(status), state);
    assert_eq!(row_toggle(state), toggle);
}

fn rule(id: &str, dir: &str, extensions: &[&str], icon: Option<&str>) -> DestinationRule {
    DestinationRule {
        id: id.to_string(),
        label: id.to_string(),
        enabled: true,
        target_dir: dir.to_string(),
        extensions: extensions.iter().map(|e| e.to_string()).collect(),
        icon_name: icon.map(|i| i.to_string()),
    }
}

#[test]
fn matched_destination_rule_is_found() {
    let rules = vec![rule("movies", "/tmp/Movies", &[".mkv"], Some("video"))];
    assert_eq!(destination_rule_for_transfer(true, &rules, "/tmp/Movies/movie.mkv", "movie.mkv"), Some(0));
    assert_eq!(destination_rule_for_transfer(false, &rules, "/tmp/Movies/movie.mkv", "movie.mkv"), None);
}

#[test]
fn no_destination_rule_when_directory_or_extension_differs() {
    let rules = vec![rule("docs", "/tmp/Documents", &[".pdf"], Some("document"))];
    assert_eq!(destination_rule_for_transfer(true, &rules, "/tmp/Videos/movie.mkv", "movie.mkv"), None);
    assert_eq!(destination_rule_for_transfer(true, &rules, "/tmp/Documents/a.txt", "a.txt"), None);
}

#[test]
fn first_enabled_rule_with_normalised_extension_wins() {
    let mut off = rule("off", "/tmp/Media/", &["MKV"], None);
    off.enabled = false;
    let rules = vec![
        off,
        rule("blank", "/tmp/Media", &["  "], None),
        rule("media", "/tmp/Media/", &[" MKV "], None),
        rule("later", "/tmp/Media", &[".mkv"], None),
    ];
    assert_eq!(destination_rule_for_transfer(true, &rules, "/tmp/Media/Film.MKV", "Film.MKV"), Some(2));
    assert_eq!(destination_rule_for_transfer(true, &rules, "film.mkv", "film.mkv"), None);
}

#[test]
fn transfer_row_controls_follow_available_actions() {
    let a = TransferAvailableActions { pause: true, resume: true, cancel: true, delete_artifact: true };
    assert_eq!(transfer_row_controls(a), (Some(RowToggle::Pause), true));
    let b = TransferAvailableActions { pause: false, resume: true, cancel: false, delete_artifact: false };
    assert_eq!(transfer_row_controls(b), (Some(RowToggle::Resume), false));
    let c = TransferAvailableActions { pause: false, resume: false, cancel: false, delete_artifact: true };
    assert_eq!(transfer_row_controls(c), (None, true));
}

#[test]
fn rule_matching_on_given_directory_answers() {
    let rules = vec![
        rule("movies", "/tmp/Movies", &[".mkv"], Some("video")),
        rule("docs", "/tmp/Documents", &[".pdf"], Some("document")),
    ];
    assert_eq!(matching_rule_index(&rules, &[true, false], ".mkv"), Some(0));
    assert_eq!(matching_rule_index(&rules, &[false, true], ".mkv"), None);
    assert_eq!(matching_rule_index(&rules, &[false, true], ".pdf"), Some(1));
    assert_eq!(matching_rule_index(&rules, &[true, true], ".txt"), None);
}
