//! The terminal program.

use myrient_dl::block::DirEntry;
use myrient_dl::browser::Crumb;
use myrient_dl::generated_dirs::{folder_count, persist_folder, LocalIndex};
use myrient_dl::listing::ListEntry;
use myrient_dl::queue::{JobStatus, QueueJob};
use myrient_dl::search::{build_search, SearchData};
use myrient_dl::strmap::StrSet;
use myrient_dl::text::{clip, pad};
use myrient_dl::tui::{move_down, move_up, Found, Key, Pane, Tui, TuiAction};
use myrient_dl::tui_text::{
    crumb_line, filter_bar, found_name, found_parent, gauge_label, header, idle_line, job_box,
    job_name, job_size, job_status, line_mark, line_name, line_size, pane_title, parent_column,
    search_bar, shows_filter, status_bar, Mark,
};

fn file(name: &str) -> ListEntry {
    ListEntry {
        name: name.to_string(),
        href: name.to_string(),
        size: "1.0 KiB".to_string(),
        date: String::new(),
        is_folder: false,
        url: Some(format!("https://h/{}", name)),
    }
}

fn folder(name: &str) -> ListEntry {
    ListEntry {
        name: name.to_string(),
        href: format!("{}/", name),
        size: "-".to_string(),
        date: String::new(),
        is_folder: true,
        url: None,
    }
}

fn set(list: &[&str]) -> StrSet {
    StrSet::of(&list.iter().map(|s| s.to_string()).collect())
}

fn opened() -> Tui {
    let mut t = Tui::new(set(&["https://h/old.zip"]), set(&["https://h/queued.zip"]), true);
    t.navigate(String::new());
    t.take_lines("", vec![folder("Dir"), file("a.zip"), file("old.zip"), file("queued.zip"), file("B.zip")]);
    t
}

fn press(t: &mut Tui, key: Key) -> TuiAction {
    let mut queue = vec![];
    t.on_key(key, false, &mut queue, 0, &None)
}

fn type_text(t: &mut Tui, text: &str, folders: usize, slot: &Option<SearchData>) {
    for c in text.chars() {
        let mut queue = vec![];
        t.on_key(Key::Char(c), false, &mut queue, folders, slot);
    }
}

fn job(id: &str) -> QueueJob {
    QueueJob {
        id: id.to_string(),
        url: format!("https://h/{}", id),
        name: "name".to_string(),
        path: String::new(),
        status: JobStatus::Verifying,
        resume: false,
        retry_count: 0,
        verified: None,
        file_size: 1_500,
    }
}

#[test]
fn cursors_go_round() {
    assert_eq!(move_down(None, 3), Some(0));
    assert_eq!(move_down(Some(2), 3), Some(0));
    assert_eq!(move_up(Some(0), 3), Some(2));
    assert_eq!(move_up(Some(2), 3), Some(1));
    assert_eq!(move_up(None, 3), Some(0));
    assert_eq!(move_up(Some(5), 0), Some(5));
    assert_eq!(move_down(None, 0), None);
}

#[test]
fn folders_are_counted_on_arrival() {
    let mut t = opened();
    assert_eq!(t.status_msg, "1 folders  4  files");
    assert!(!t.loading);
    t.navigate("X/".to_string());
    t.take_lines("", vec![]);
    assert!(t.loading);
    t.take_error("X/", "gone".to_string());
    assert_eq!(t.status_msg, "Error: gone");
    assert_eq!(t.load_error.as_deref(), Some("gone"));
}

#[test]
fn enter_opens_and_back_returns() {
    let mut t = opened();
    press(&mut t, Key::Down);
    match press(&mut t, Key::Enter) {
        TuiAction::Fetch(fetch) => assert_eq!(fetch.url, "https://myrient.erista.me/files/Dir/"),
        _ => panic!("not opened"),
    }
    assert_eq!(t.crumbs.len(), 1);
    match press(&mut t, Key::Backspace) {
        TuiAction::Fetch(fetch) => assert_eq!(fetch.path, ""),
        _ => panic!("not left"),
    }
    assert!(t.crumbs.is_empty());
    assert!(matches!(press(&mut t, Key::Left), TuiAction::Nothing));
}

#[test]
fn enter_queues_a_file_once() {
    let mut t = opened();
    t.cursor = Some(1);
    match press(&mut t, Key::Enter) {
        TuiAction::Queue(files) => {
            assert_eq!(files.len(), 1);
            assert_eq!(files[0].url, "https://h/a.zip");
        }
        _ => panic!("not queued"),
    }
    assert_eq!(t.status_msg, "Queued: a.zip");
    t.cursor = Some(3);
    assert!(matches!(press(&mut t, Key::Char('l')), TuiAction::Nothing));
}

#[test]
fn space_selects_and_deselects() {
    let mut t = opened();
    t.cursor = Some(1);
    press(&mut t, Key::Char(' '));
    assert!(t.selected.contains("https://h/a.zip"));
    press(&mut t, Key::Char(' '));
    assert!(t.selected.is_empty());
    t.cursor = Some(2);
    press(&mut t, Key::Char(' '));
    t.cursor = Some(3);
    press(&mut t, Key::Char(' '));
    assert!(t.selected.is_empty());
}

#[test]
fn all_visible_files_are_selected() {
    let mut t = opened();
    press(&mut t, Key::Char('a'));
    assert_eq!(t.selected.len(), 2);
    press(&mut t, Key::Char('A'));
    assert!(t.selected.is_empty());
    t.filter_query = "B".to_string();
    press(&mut t, Key::Char('a'));
    assert_eq!(t.selected.len(), 1);
    assert!(t.selected.contains("https://h/B.zip"));
}

#[test]
fn selection_is_queued() {
    let mut t = opened();
    press(&mut t, Key::Char('a'));
    match press(&mut t, Key::Char('q')) {
        TuiAction::Queue(files) => assert_eq!(files.len(), 2),
        _ => panic!("not queued"),
    }
    assert_eq!(t.status_msg, "Queued 2 files");
    assert!(t.selected.is_empty());
}

#[test]
fn quitting() {
    let mut t = opened();
    let mut queue = vec![];
    assert!(matches!(t.on_key(Key::Char('Q'), true, &mut queue, 0, &None), TuiAction::Quit));
    assert!(matches!(t.on_key(Key::Char('Q'), false, &mut queue, 0, &None), TuiAction::Quit));
    assert!(matches!(t.on_key(Key::Char('q'), true, &mut queue, 0, &None), TuiAction::Quit));
}

#[test]
fn filter_mode_takes_every_letter() {
    let mut t = opened();
    press(&mut t, Key::Char('f'));
    assert!(t.filtering);
    type_text(&mut t, "Qx", 0, &None);
    assert_eq!(t.filter_query, "Qx");
    press(&mut t, Key::Backspace);
    assert_eq!(t.filter_query, "Q");
    press(&mut t, Key::Enter);
    assert!(!t.filtering);
    assert_eq!(t.filter_query, "Q");
    press(&mut t, Key::Esc);
    assert_eq!(t.filter_query, "");
}

#[test]
fn queue_pane_keys() {
    let mut t = opened();
    let mut queue = vec![job("1"), job("2")];
    t.queued = set(&["https://h/1", "https://h/2"]);
    t.on_key(Key::Tab, false, &mut queue, 0, &None);
    assert!(t.pane == Pane::Queue);
    t.on_key(Key::Char('j'), false, &mut queue, 0, &None);
    t.on_key(Key::Char(' '), false, &mut queue, 0, &None);
    assert!(t.queue_sel.contains("1"));
    assert!(matches!(
        t.on_key(Key::Char('x'), false, &mut queue, 0, &None),
        TuiAction::SaveQueue
    ));
    assert_eq!(queue.len(), 1);
    assert_eq!(queue[0].id, "2");
    assert!(t.queue_sel.is_empty());
    assert_eq!(t.queued.len(), 1);
    assert!(matches!(t.on_key(Key::Char('x'), false, &mut queue, 0, &None), TuiAction::Nothing));
}

#[test]
fn queue_is_started_and_paused() {
    let mut t = opened();
    assert!(matches!(press(&mut t, Key::Char('s')), TuiAction::SaveSettings));
    assert!(!t.paused);
    assert_eq!(t.status_msg, "Queue started");
    press(&mut t, Key::Char('s'));
    assert!(t.paused);
    assert_eq!(t.status_msg, "Queue paused");
}

fn indexed() -> LocalIndex {
    let entries = vec![DirEntry {
        name: String::new(),
        href: "Tetris%20DX.zip".to_string(),
        size: String::new(),
        size_bytes: 1000,
        date: String::new(),
        is_folder: false,
    }];
    let data = persist_folder(&LocalIndex::load(vec![]), "No-Intro/Game%20Boy", &entries, 7);
    LocalIndex::load(data.unwrap())
}

#[test]
fn the_whole_tree_is_searched() {
    let index = indexed();
    let slot = Some(build_search(&index));
    let folders = folder_count(&index);
    let mut t = opened();
    press(&mut t, Key::Char('/'));
    assert!(t.searching);
    type_text(&mut t, "TETR", folders, &slot);
    assert_eq!(t.results.len(), 1);
    assert_eq!(t.results[0].name, "tetris dx.zip");
    assert_eq!(t.results[0].path, "No-Intro/Game%20Boy/tetris dx.zip");
    assert_eq!(t.search_cursor, Some(0));
    match press(&mut t, Key::Enter) {
        TuiAction::Fetch(fetch) => assert_eq!(fetch.path, "No-Intro/Game%20Boy/"),
        _ => panic!("not opened"),
    }
    assert!(!t.searching);
    assert_eq!(t.crumbs.len(), 2);
    assert_eq!(t.crumbs[1].label, "Game Boy");
}

#[test]
fn without_an_index_the_open_folder_is_searched() {
    let mut t = opened();
    press(&mut t, Key::Char('/'));
    type_text(&mut t, "b.", 0, &None);
    assert_eq!(t.results.len(), 1);
    assert_eq!(t.results[0].path, "B.zip");
    press(&mut t, Key::Esc);
    assert!(!t.searching);
    assert!(t.results.is_empty());
}

#[test]
fn clipping_and_padding() {
    assert_eq!(clip("hello", 3), "hel");
    assert_eq!(clip("hello", 9), "hello");
    assert_eq!(clip("é!", 2), "é");
    assert_eq!(clip("é!", 1), "");
    assert_eq!(clip("aé!", 2), "a");
    assert_eq!(clip("aé!", 3), "aé");
    assert_eq!(clip("日本語", 8), "日本");
    assert_eq!(clip("", 0), "");
    assert_eq!(pad("é", 3), "é  ");
    assert_eq!(pad("abcd", 3), "abcd");
}

#[test]
fn bars() {
    assert_eq!(header(0, 5, "", "~/d"), " myrient-dl-cli  │  5 queued  │  dest: ~/d");
    assert_eq!(
        header(2, 5, "1.0MB/s", "~/d"),
        " myrient-dl-cli  │  ↓ 1.0MB/s  │  2 active  │  5 queued  │  dest: ~/d"
    );
    assert_eq!(search_bar("zelda"), "/ zelda_");
    assert!(shows_filter(true, "") && shows_filter(false, "x") && !shows_filter(false, ""));
    assert_eq!(filter_bar("x", true), "filter: x_");
    assert_eq!(filter_bar("x", false), "filter: x");
    assert_eq!(idle_line(true), " ⏸ paused  (s to start)");
    assert_eq!(idle_line(false), " ▶ running");
    assert_eq!(gauge_label("1B/s", "…", 2), " ↓ 1B/s  ETA …  (2 active)");
    assert_eq!(
        status_bar("Ready", true, false),
        " Ready  │   Type to filter  Esc clear  ↑↓ navigate"
    );
    assert_eq!(
        status_bar("Ready", false, true),
        " Ready  │   Type to search  Esc clear  ↑↓ navigate  Enter go to folder"
    );
    assert!(status_bar("Ready", false, false).ends_with("x remove  Q quit"));
    assert_eq!(pane_title(Pane::Browser, Pane::Browser), " [ BROWSER ] ");
    assert_eq!(pane_title(Pane::Browser, Pane::Queue), " BROWSER ");
    assert_eq!(pane_title(Pane::Queue, Pane::Queue), " [ QUEUE ] ");
    assert_eq!(pane_title(Pane::Queue, Pane::Browser), " QUEUE ");
}

#[test]
fn crumb_lines() {
    assert_eq!(crumb_line(&vec![]), "/files/");
    let crumbs = vec![
        Crumb { label: "No-Intro".to_string(), path: String::new() },
        Crumb { label: "Game Boy".to_string(), path: String::new() },
    ];
    assert_eq!(crumb_line(&crumbs), "/files/ › No-Intro › Game Boy");
}

#[test]
fn rows() {
    let found = Found { name: "n".repeat(60), path: "p/q/n".to_string() };
    assert_eq!(found_name(&found), format!(" {}", "n".repeat(50)));
    assert_eq!(found_parent(&found), "p/q");
    assert_eq!(parent_column(&"x".repeat(40)), format!("  {}", "x".repeat(30)));
    let bare = Found { name: "n".to_string(), path: "n".to_string() };
    assert_eq!(found_name(&bare), format!(" {:<50}", "n"));
    assert_eq!(found_parent(&bare), "");
    let downloaded = set(&["https://h/a"]);
    assert!(line_mark(&folder("d"), &downloaded) == Mark::Folder);
    assert!(line_mark(&file("a"), &downloaded) == Mark::Downloaded);
    assert!(line_mark(&file("b"), &downloaded) == Mark::File);
    assert_eq!(Mark::Folder.icon(), " ▶ ");
    assert_eq!(Mark::Downloaded.icon(), " ✓ ");
    assert_eq!(Mark::File.icon(), " · ");
    assert_eq!(line_name("ab", true), format!("[✓] {:<55}", "ab"));
    assert_eq!(line_name("ab", false), format!("    {:<55}", "ab"));
    assert_eq!(line_size("-"), "");
    assert_eq!(line_size(""), "");
    assert_eq!(line_size("1 B"), " 1 B");
    assert_eq!(job_box(true), " [✓] ");
    assert_eq!(job_box(false), "     ");
    assert_eq!(job_name(&"z".repeat(30)), "z".repeat(28));
    assert_eq!(job_status(&job("1")), "verify  ");
    assert_eq!(job_size(&job("1")), " 1.5KB");
}

#[test]
fn long_names_of_any_characters_are_shown() {
    let name = format!("{}é-rest", "x".repeat(54));
    assert_eq!(line_name(&name, false), format!("    {} ", "x".repeat(54)));
    let found = Found { name: "é".repeat(30), path: String::new() };
    assert_eq!(found_name(&found), format!(" {}{}", "é".repeat(25), " ".repeat(25)));
    assert_eq!(parent_column(&format!("x{}", "é".repeat(20))), format!("  x{}", "é".repeat(14)));
    assert_eq!(job_name(&"語".repeat(10)), format!("{}{}", "語".repeat(9), " ".repeat(19)));
}

#[test]
fn keys_act_on_the_filtered_list() {
    let mut t = opened();
    t.filter_query = "zip".to_string();
    t.cursor = Some(0);
    match press(&mut t, Key::Enter) {
        TuiAction::Queue(files) => assert_eq!(files[0].url, "https://h/a.zip"),
        _ => panic!("not queued"),
    }
    press(&mut t, Key::Up);
    assert_eq!(t.cursor, Some(3));
    press(&mut t, Key::Char(' '));
    assert!(t.selected.contains("https://h/B.zip"));
    assert_eq!(t.selected.len(), 1);
    press(&mut t, Key::Down);
    assert_eq!(t.cursor, Some(0));
    t.filter_query = "DIR".to_string();
    match press(&mut t, Key::Enter) {
        TuiAction::Fetch(fetch) => assert_eq!(fetch.path, "Dir/"),
        _ => panic!("not opened"),
    }
    let mut t = opened();
    t.filter_query = "nowhere".to_string();
    t.cursor = Some(0);
    assert!(matches!(press(&mut t, Key::Enter), TuiAction::Nothing));
    press(&mut t, Key::Char(' '));
    assert!(t.selected.is_empty());
}
