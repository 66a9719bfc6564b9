//! The browser pane, the search tab and the queue pane.

use myrient_dl::block::DirEntry;
use myrient_dl::browser::{
    add_label, count_lines, filter_label, folder_path, line_in, on_row, selectable_urls,
    selected_files, size_key, size_text, summary, unqueued_count, visible, Browser, RowAction,
    RowInput, Scroll,
};
use myrient_dl::generated_dirs::{persist_folder, LocalIndex};
use myrient_dl::listing::ListEntry;
use myrient_dl::queue::{JobStatus, QueueJob};
use myrient_dl::queue_pane::{
    footer, progress_text, queue_totals, slots_text, sum_sizes, window_title, QueuePane,
};
use myrient_dl::search::{build_search, SearchData};
use myrient_dl::search_tab::{
    crumbs_to, menu_folders, on_result, result_to_queue, tab_label, ResultAction, SearchTab, Shown,
};
use myrient_dl::strmap::{StrMap, StrSet};

fn file(name: &str) -> ListEntry {
    ListEntry {
        name: name.to_string(),
        href: name.to_string(),
        size: "1.0 KiB".to_string(),
        date: String::new(),
        is_folder: false,
        url: Some(format!("https://h/{}", name)),
    }
}

fn folder(name: &str) -> ListEntry {
    ListEntry {
        name: name.to_string(),
        href: format!("{}/", name),
        size: String::new(),
        date: String::new(),
        is_folder: true,
        url: None,
    }
}

fn lines() -> Vec<ListEntry> {
    vec![folder("Alpha"), file("beta.zip"), file("Gamma.zip"), file("delta.7z")]
}

fn set(list: &[&str]) -> StrSet {
    StrSet::of(&list.iter().map(|s| s.to_string()).collect())
}

fn opened() -> Browser {
    let mut b = Browser::new();
    b.navigate("D/".to_string());
    b.take_lines("D/", lines(), 2048);
    b
}

#[test]
fn navigation_resets_the_pane() {
    let mut b = Browser::new();
    assert_eq!(b.status_msg, "Ready");
    b.selected.insert("x".to_string());
    b.filter_query = "y".to_string();
    let fetch = b.navigate("No-Intro/".to_string());
    assert_eq!(fetch.url, "https://myrient.erista.me/files/No-Intro/");
    assert_eq!(fetch.path, "No-Intro/");
    assert!(!fetch.force);
    assert!(b.loading && b.status_active);
    assert!(b.selected.is_empty());
    assert_eq!(b.filter_query, "");
    assert_eq!(b.status_msg, "Fetching directory…");
}

#[test]
fn crumbs_lead_back() {
    let mut b = Browser::new();
    b.open_folder("No-Intro", "No-Intro/");
    let fetch = b.open_folder("Game Boy", "Game%20Boy/");
    assert_eq!(fetch.path, "No-Intro/Game%20Boy/");
    assert_eq!(b.crumbs.len(), 2);
    assert_eq!(b.crumbs[1].label, "Game Boy");
    let fetch = b.go_to_crumb(0);
    assert_eq!(fetch.path, "No-Intro/");
    assert_eq!(b.crumbs.len(), 1);
    let fetch = b.go_to_root();
    assert_eq!(fetch.url, "https://myrient.erista.me/files/");
    assert!(b.crumbs.is_empty());
}

#[test]
fn refreshing_asks_the_server() {
    let mut b = opened();
    let fetch = b.refresh();
    assert!(fetch.force);
    assert_eq!(fetch.path, "D/");
    assert!(!b.force_refresh);
    assert!(!b.navigate("E/".to_string()).force);
}

#[test]
fn folders_are_summed_up() {
    let b = opened();
    assert_eq!(b.status_msg, "1 folder  ·  3 files  ·  2.0 KB");
    assert!(!b.loading && !b.status_active && b.restore_scroll);
    assert_eq!(summary(0, 0, 0), "Empty");
    assert_eq!(summary(2, 0, 0), "2 folders");
    assert_eq!(summary(0, 1, 10), "1 file  ·  10 B");
    assert_eq!(count_lines(&lines(), true), 1);
    assert_eq!(count_lines(&lines(), false), 3);
}

#[test]
fn late_folders_are_dropped() {
    let mut b = opened();
    b.navigate("E/".to_string());
    b.take_lines("D/", lines(), 0);
    assert!(b.loading);
    assert!(b.entries.is_empty());
    b.take_error("D/", "late".to_string());
    assert!(b.load_error.is_none());
    b.take_error("E/", "gone".to_string());
    assert_eq!(b.load_error.as_deref(), Some("gone"));
    assert_eq!(b.status_msg, "Error: gone");
}

#[test]
fn sizes_are_remembered_below_the_root() {
    assert_eq!(size_key("No-Intro/", 5), Some("No-Intro".to_string()));
    assert_eq!(size_key("", 5), None);
    assert_eq!(size_key("No-Intro/", 0), None);
}

#[test]
fn filters_ignore_case() {
    let list = lines();
    assert_eq!(visible(&list, ""), vec![0, 1, 2, 3]);
    assert_eq!(visible(&list, "ZIP"), vec![1, 2]);
    assert_eq!(visible(&list, "nowhere").len(), 0);
    assert_eq!(filter_label(&list, "zip"), "2 files");
    assert_eq!(filter_label(&list, "alp"), "1 folder");
    assert_eq!(filter_label(&list, "a"), "3f 1d");
    assert_eq!(filter_label(&list, "nowhere"), "0 files");
}

#[test]
fn select_all_obeys_the_filter() {
    let mut b = opened();
    b.filter_query = "zip".to_string();
    b.select_all(&set(&["https://h/beta.zip"]));
    assert_eq!(b.selected.len(), 1);
    assert!(b.selected.contains("https://h/Gamma.zip"));
    assert!(b.any_selected());
    b.select_all(&StrSet::new());
    assert!(!b.any_selected());
    assert_eq!(
        selectable_urls(&lines(), "", &StrSet::new()),
        vec!["https://h/beta.zip", "https://h/Gamma.zip", "https://h/delta.7z"]
    );
}

#[test]
fn folders_are_checked_and_unchecked() {
    let mut b = opened();
    b.toggle_folder_selected("D/Alpha/".to_string());
    assert!(b.any_selected());
    b.toggle_folder_selected("D/Alpha/".to_string());
    assert!(!b.any_selected());
    assert_eq!(folder_path("D/", "Alpha/"), "D/Alpha/");
}

#[test]
fn clicks_select_files() {
    let mut b = opened();
    let shown = vec![0, 1, 2, 3];
    b.click_file(&shown, 1, "https://h/beta.zip", false, false, false);
    assert_eq!(b.selected.len(), 1);
    b.click_file(&shown, 2, "https://h/Gamma.zip", false, false, false);
    assert_eq!(b.selected.len(), 1);
    assert!(b.selected.contains("https://h/Gamma.zip"));
    b.click_file(&shown, 3, "https://h/delta.7z", false, true, false);
    assert_eq!(b.selected.len(), 2);
    b.click_file(&shown, 1, "https://h/beta.zip", false, false, true);
    assert_eq!(b.selected.len(), 2);
    b.click_file(&shown, 3, "https://h/delta.7z", false, false, false);
    assert_eq!(b.selected.len(), 1);
    assert!(b.last_clicked.is_none());
}

#[test]
fn shift_selects_a_range() {
    let mut b = opened();
    let shown = vec![0, 1, 2, 3];
    b.click_file(&shown, 1, "https://h/beta.zip", false, false, false);
    b.click_file(&shown, 3, "https://h/delta.7z", true, false, false);
    assert_eq!(b.selected.len(), 3);
    assert_eq!(b.last_clicked, Some(1));
}

#[test]
fn rows_take_clicks() {
    let input = |clicked, double_clicked, on_box, open_button| RowInput {
        clicked,
        double_clicked,
        on_box,
        open_button,
    };
    assert!(on_row(true, false, input(true, false, true, false)) == RowAction::ToggleFolder);
    assert!(on_row(true, false, input(true, false, false, false)) == RowAction::Open);
    assert!(on_row(true, false, input(false, false, false, true)) == RowAction::Open);
    assert!(on_row(false, false, input(true, true, false, false)) == RowAction::Queue);
    assert!(on_row(false, true, input(true, true, false, false)) == RowAction::Nothing);
    assert!(on_row(false, true, input(true, false, false, false)) == RowAction::Select);
    assert!(on_row(false, false, input(true, false, true, false)) == RowAction::Select);
    assert!(on_row(false, false, input(false, false, false, false)) == RowAction::Nothing);
}

#[test]
fn queueing_is_announced() {
    let mut b = opened();
    b.selected.insert("https://h/beta.zip".to_string());
    b.note_queued("https://h/beta.zip", "beta.zip");
    assert!(!b.any_selected());
    assert_eq!(b.status_msg, "Queued: beta.zip");
    assert!(b.status_active);
    b.selected.insert("https://h/beta.zip".to_string());
    b.note_queueing(1, 2);
    assert_eq!(b.status_msg, "Queuing 1 file + 2 folders…");
    assert!(!b.any_selected());
    assert_eq!(add_label(1, 0), "+ Add 1 file to queue");
    assert_eq!(add_label(0, 2), "+ Add 2 folders to queue");
    assert_eq!(add_label(3, 1), "+ Add 3 files + 1 folder");
    assert_eq!(add_label(0, 0), "+ Add 0 files to queue");
}

#[test]
fn selected_files_are_queued_in_order() {
    let selected = set(&["https://h/delta.7z", "https://h/beta.zip", "https://h/gone"]);
    let queued = set(&["https://h/beta.zip"]);
    let files = selected_files(&lines(), &selected, &queued);
    assert_eq!(files.len(), 1);
    assert_eq!(files[0].url, "https://h/delta.7z");
    assert_eq!(files[0].size, "1.0 KiB");
    assert_eq!(unqueued_count(&selected, &queued), 2);
    assert!(line_in(&queued, &file("beta.zip")));
    assert!(!line_in(&queued, &folder("beta.zip")));
}

fn indexed() -> LocalIndex {
    let entries = vec![DirEntry {
        name: String::new(),
        href: "Tetris%20DX.zip".to_string(),
        size: String::new(),
        size_bytes: 1000,
        date: String::new(),
        is_folder: false,
    }];
    let one = persist_folder(&LocalIndex::load(vec![]), "No-Intro/Game%20Boy", &entries, 7).unwrap();
    let two = persist_folder(&LocalIndex::load(one), "No-Intro", &vec![], 5_000_000).unwrap();
    LocalIndex::load(two)
}

#[test]
fn folder_sizes_come_from_visits_first() {
    let index = indexed();
    let mut remembered: StrMap<u64> = StrMap::new();
    assert_eq!(size_text(&folder("No-Intro"), "", &remembered, &index), "5.0 MB");
    assert_eq!(size_text(&folder("Game%20Boy"), "No-Intro/", &remembered, &index), "7 B");
    remembered.insert("No-Intro".to_string(), 2_000);
    assert_eq!(size_text(&folder("No-Intro"), "", &remembered, &index), "2.0 KB");
    assert_eq!(size_text(&folder("Redump"), "", &remembered, &index), "—");
    assert_eq!(size_text(&file("a"), "", &remembered, &index), "1.0 KiB");
    let mut bare = file("a");
    bare.size = String::new();
    assert_eq!(size_text(&bare, "", &remembered, &index), "—");
}

fn searching(query: &str) -> SearchTab {
    let mut tab = SearchTab::new();
    tab.query = query.to_string();
    tab
}

#[test]
fn results_wait_for_the_index() {
    let slot: Option<SearchData> = None;
    assert!(searching("").update(&slot) == Shown::Hint);
    assert!(searching("x").update(&slot) == Shown::Building);
    let ready = Some(build_search(&indexed()));
    let mut tab = searching("TETRIS");
    assert!(tab.update(&ready) == Shown::Results);
    assert_eq!(tab.results.len(), 1);
    assert_eq!(tab.last_query, "tetris");
}

#[test]
fn results_are_kept_until_the_query_changes() {
    let ready = Some(build_search(&indexed()));
    let empty = Some(build_search(&LocalIndex::load(vec![])));
    let mut tab = searching("tetris");
    tab.update(&ready);
    tab.update(&empty);
    assert_eq!(tab.results.len(), 1);
    tab.exclude = "no-intro".to_string();
    tab.update(&ready);
    assert_eq!(tab.results.len(), 0);
    tab.exclude = String::new();
    tab.update(&ready);
    tab.toggle("p");
    assert_eq!(tab.selected.len(), 1);
    tab.toggle("p");
    assert!(tab.selected.is_empty());
    tab.clear();
    assert!(tab.results.is_empty());
    assert_eq!(tab.query, "");
}

#[test]
fn results_are_queued_with_their_own_case() {
    let index = indexed();
    let ready = Some(build_search(&index));
    let mut tab = searching("tetris");
    tab.update(&ready);
    let job = result_to_queue(&index, &tab.results[0]);
    assert_eq!(job.url, "https://myrient.erista.me/files/No-Intro/Game%20Boy/Tetris%20DX.zip");
    assert_eq!(job.name, "tetris dx.zip");
    assert_eq!(job.size_bytes, 1000);
    assert_eq!(job.folder, "No-Intro/Game Boy");
    assert_eq!(tab.queue_selected(&index).len(), 0);
    let path = tab.results[0].full_path.clone();
    tab.toggle(&path);
    let list = tab.queue_selected(&index);
    assert_eq!(list.len(), 1);
    assert_eq!(list[0].url, job.url);
    assert!(tab.selected.is_empty());
}

#[test]
fn clicked_results() {
    assert!(on_result(true, false, false, false) == ResultAction::Open);
    assert!(on_result(false, true, false, false) == ResultAction::Open);
    assert!(on_result(false, false, true, false) == ResultAction::Queue);
    assert!(on_result(true, false, false, true) == ResultAction::Select);
    assert!(on_result(false, false, false, true) == ResultAction::Nothing);
}

#[test]
fn crumbs_of_a_result() {
    let (crumbs, path) = crumbs_to("No-Intro/Game%20Boy", "No-Intro/Game Boy");
    assert_eq!(path, "No-Intro/Game%20Boy/");
    assert_eq!(crumbs.len(), 2);
    assert_eq!(crumbs[1].label, "Game Boy");
    assert_eq!(crumbs[1].path, "No-Intro/Game%20Boy/");
    let (crumbs, path) = crumbs_to("", "");
    assert!(crumbs.is_empty());
    assert_eq!(path, "");
}

#[test]
fn opened_result_is_selected_and_scrolled_to() {
    let mut b = Browser::new();
    let fetch = b.open_result("No-Intro/Game%20Boy", "No-Intro/Game Boy", "DELTA.7z");
    assert_eq!(fetch.path, "No-Intro/Game%20Boy/");
    b.take_lines("No-Intro/Game%20Boy/", lines(), 0);
    assert!(b.selected.contains("https://h/delta.7z"));
    assert_eq!(b.selected.len(), 1);
    let shown = visible(&b.entries, "");
    assert_eq!(b.scroll(&shown), Scroll::Row(3));
    let filtered = visible(&b.entries, "7z");
    assert_eq!(b.scroll(&filtered), Scroll::Row(0));
    assert_eq!(b.scroll(&shown), Scroll::Stay);
    assert!(b.highlight_url.is_none());
}

#[test]
fn left_position_is_restored_once() {
    let mut b = opened();
    let shown = visible(&b.entries, "");
    assert_eq!(b.scroll(&shown), Scroll::Saved);
    assert_eq!(b.scroll(&shown), Scroll::Stay);
}

#[test]
fn menus_hold_decoded_names() {
    let one = persist_folder(&LocalIndex::load(vec![]), "B%20C", &vec![], 0).unwrap();
    let two = persist_folder(&LocalIndex::load(one), "A", &vec![], 0).unwrap();
    assert_eq!(menu_folders(&LocalIndex::load(two)), vec!["A", "B C"]);
}

#[test]
fn tab_filters_by_decoded_names() {
    let zip = DirEntry {
        name: String::new(),
        href: "x.zip".to_string(),
        size: String::new(),
        size_bytes: 1,
        date: String::new(),
        is_folder: false,
    };
    let one = persist_folder(&LocalIndex::load(vec![]), "a%20b", &vec![zip], 0).unwrap();
    let slot = Some(build_search(&LocalIndex::load(one)));
    let mut tab = searching("x");
    tab.only = "A b".to_string();
    tab.update(&slot);
    assert_eq!(tab.results.len(), 1);
    tab.exclude = "a B".to_string();
    tab.update(&slot);
    assert_eq!(tab.results.len(), 0);
}

#[test]
fn tab_shows_the_query() {
    assert_eq!(tab_label(""), "SEARCH");
    assert_eq!(tab_label("tetris"), "SEARCH  ·  tetris");
    assert_eq!(tab_label("abcdefghijklmnopqrstuvwxyz"), "SEARCH  ·  abcdefghijklmnopqrst");
    assert_eq!(tab_label("ééééééééééé"), "SEARCH  ·  éééééééééé");
    assert_eq!(tab_label("xéééééééééééé"), "SEARCH  ·  xééééééééé");
}

fn job(id: &str, status: JobStatus, file_size: u64) -> QueueJob {
    QueueJob {
        id: id.to_string(),
        url: String::new(),
        name: String::new(),
        path: String::new(),
        status,
        resume: false,
        retry_count: 0,
        verified: None,
        file_size,
    }
}

fn three() -> Vec<QueueJob> {
    vec![
        job("a", JobStatus::Waiting, 1_000),
        job("b", JobStatus::Paused, 500),
        job("c", JobStatus::Error("x".to_string()), 0),
    ]
}

#[test]
fn queue_rows_are_selected() {
    let queue = three();
    let mut pane = QueuePane::new();
    pane.click(&queue, 0, false);
    assert!(pane.selected.contains("a"));
    pane.click(&queue, 2, true);
    assert_eq!(pane.selected.len(), 3);
    assert_eq!(pane.last_click, Some(2));
    pane.click(&queue, 1, false);
    assert_eq!(pane.selected.len(), 2);
    assert!(pane.last_click.is_none());
    pane.click(&queue, 1, true);
    assert_eq!(pane.selected.len(), 3);
}

#[test]
fn a_second_click_undoes_the_first() {
    let queue = three();
    let mut pane = QueuePane::new();
    pane.click(&queue, 1, false);
    pane.click(&queue, 1, false);
    assert!(pane.selected.is_empty());
}

#[test]
fn queue_is_summed_up() {
    assert_eq!(sum_sizes(&three()), 1_500);
    assert_eq!(queue_totals(&three()), "3 items  ·  1.5 KB");
    assert_eq!(queue_totals(&vec![job("a", JobStatus::Waiting, 0)]), "1 item");
    assert_eq!(footer(&vec![], 0), "No items queued");
    assert_eq!(footer(&three(), 0), "1 waiting  ·  1 paused  ·  1 failed");
    assert_eq!(footer(&three(), 2), "2 active  ·  1 waiting  ·  1 failed");
    assert_eq!(slots_text(2, 4), "2/4 slots");
}

#[test]
fn window_titles() {
    assert_eq!(window_title(&vec![], 0, None), "myrient-dl");
    assert_eq!(window_title(&three(), 0, None), "myrient-dl  —  1 queued");
    assert_eq!(window_title(&three(), 2, None), "myrient-dl  —  2 active  ·  1 queued");
    let waiting: Vec<QueueJob> =
        (0..331).map(|i| job(&format!("{}", i), JobStatus::Waiting, 0)).collect();
    assert_eq!(
        window_title(&waiting, 6, Some("87.3 MB/s")),
        "myrient-dl  —  ↓ 87.3 MB/s  ·  6 active  ·  331 queued"
    );
}

#[test]
fn progress_lines() {
    assert_eq!(progress_text(42, Some("1.0 MB/s"), Some(61)), "42%  1.0 MB/s  ETA 1m1s");
    assert_eq!(progress_text(0, None, None), "0%  …  ETA …");
}

#[test]
fn the_end_of_all_downloads_is_announced() {
    let mut b = opened();
    b.look_at_downloads(&three(), 1);
    assert!(b.status_active);
    b.look_at_downloads(&three(), 0);
    assert!(!b.status_active);
    assert_eq!(b.status_msg, "Finished — 0 done, 1 failed");
    b.note_queued("https://h/x", "x");
    b.look_at_downloads(&vec![job("a", JobStatus::Spooling, 0)], 0);
    assert!(b.status_active);
    b.look_at_downloads(&vec![], 0);
    assert!(!b.status_active);
    assert_eq!(b.status_msg, "Queued: x");
}
