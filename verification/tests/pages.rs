//! Folder pages, scans of folders, and the crawl.

use myrient_dl::collect::{folder_rel_path, sub_folder_url, Scan};
use myrient_dl::crawl::{
    below_totals, cached_total, drop_folder, entries_to_cached, fetch_failure, fetch_wait, is_checkpoint,
    dir_total, refresh, sorted_paths, store_crawled, store_dir, store_listing, store_root, sub_rel,
    sum_bytes, top_rel, top_url, CachedDir,
};
use myrient_dl::block::DirEntry;
use myrient_dl::generated_dirs::{persist_folder, LocalIndex};
use myrient_dl::listing::{
    entries_to_keep, fetch_directory, fetch_directory_http, is_folder_link, live_listing,
    path_to_dir_key, read_page, sort_listing, ListEntry, RawEntry,
};
use myrient_dl::sort::{comes_before, sort_by_key, sort_texts, SortKey};
use myrient_dl::strmap::StrMap;

const PAGE: &str = "<html><body><table>\
    <tr><th>File Name</th><th>Size</th><th>Date</th></tr>\
    <tr><td><a href=\"../\">Parent directory/</a></td><td>-</td><td>-</td></tr>\
    <tr><td><a href=\"./\">./</a></td><td>-</td><td>-</td></tr>\
    <tr><td><a href=\"b%20file.zip\"> b file.zip </a></td><td> 1.5 KiB </td><td>2024-05-06 07:08</td></tr>\
    <tr><td><a href=\"Zoo/\">Zoo/</a></td><td>-</td><td>2023-01-02 03:04</td></tr>\
    <tr><td>no link</td><td>-</td><td>-</td></tr>\
    <tr><td><a href=\"\">empty</a></td><td>-</td><td>-</td></tr>\
    <tr><td><a>bare</a></td><td>-</td><td>-</td></tr>\
    <tr><td><a href=\"x\">short</a></td><td>-</td></tr>\
    <tr><td><a href=\"A.zip\">A.zip</a></td><td>345 B</td><td>2024-01-01 00:00</td></tr>\
    <tr><td><a href=\"apple/\">apple/</a></td><td>-</td><td></td></tr>\
    </table></body></html>";

const URL: &str = "https://myrient.erista.me/files/No-Intro/";

#[test]
fn pages_are_read() {
    let rows = read_page(PAGE);
    let hrefs: Vec<&str> = rows.iter().map(|e| e.href.as_str()).collect();
    assert_eq!(hrefs, vec!["b%20file.zip", "Zoo/", "A.zip", "apple/"]);
    assert_eq!(rows[0].name, "b file.zip");
    assert_eq!(rows[0].size, "1.5 KiB");
    assert_eq!(rows[0].date, "2024-05-06 07:08");
    assert!(!rows[0].is_folder);
    assert_eq!(rows[1].name, "Zoo");
    assert_eq!(rows[1].size, "-");
    assert!(rows[1].is_folder);
    assert_eq!(read_page("").len(), 0);
    assert_eq!(read_page("<p>gone</p>").len(), 0);
}

#[test]
fn folders_come_first_then_names() {
    let list = fetch_directory_http(URL, PAGE);
    let names: Vec<&str> = list.iter().map(|e| e.name.as_str()).collect();
    assert_eq!(names, vec!["apple", "Zoo", "A.zip", "b file.zip"]);
    assert_eq!(list[0].size, "");
    assert!(list[0].url.is_none());
    assert_eq!(list[3].size, "1.5 KiB");
    assert_eq!(
        list[3].url.as_deref(),
        Some("https://myrient.erista.me/files/No-Intro/b%20file.zip")
    );
}

#[test]
fn links_of_folders_end_in_a_slash() {
    assert!(is_folder_link("a/"));
    assert!(!is_folder_link("a"));
    assert!(!is_folder_link(""));
}

fn line(name: &str, is_folder: bool) -> ListEntry {
    ListEntry {
        name: name.to_string(),
        href: format!("{}{}", name, if is_folder { "/" } else { "" }),
        size: String::new(),
        date: String::new(),
        is_folder,
        url: if is_folder { None } else { Some(format!("https://h/{}", name)) },
    }
}

#[test]
fn equal_names_keep_their_order() {
    let mut a = line("same", false);
    a.date = "first".to_string();
    let mut b = line("SAME", false);
    b.date = "second".to_string();
    let sorted = sort_listing(&vec![a, b, line("dir", true)]);
    assert_eq!(sorted[0].name, "dir");
    assert_eq!(sorted[1].date, "first");
    assert_eq!(sorted[2].date, "second");
}

#[test]
fn addresses_that_do_not_parse_give_none() {
    let raw = vec![RawEntry {
        name: "a".to_string(),
        href: "a".to_string(),
        size: "-".to_string(),
        date: String::new(),
        is_folder: false,
    }];
    let list = live_listing("not an address", raw);
    assert!(list[0].url.is_none());
    assert_eq!(list[0].size, "");
}

#[test]
fn keys_have_no_outer_slashes() {
    assert_eq!(path_to_dir_key("/No-Intro/Nintendo/"), "No-Intro/Nintendo");
    assert_eq!(path_to_dir_key(""), "");
}

fn indexed() -> LocalIndex {
    let entries = vec![
        DirEntry {
            name: String::new(),
            href: "Sub/".to_string(),
            size: String::new(),
            size_bytes: 0,
            date: "2024-01-02".to_string(),
            is_folder: true,
        },
        DirEntry {
            name: String::new(),
            href: "x%20y.zip".to_string(),
            size: String::new(),
            size_bytes: 2048,
            date: String::new(),
            is_folder: false,
        },
    ];
    let one = persist_folder(&LocalIndex::load(vec![]), "No-Intro", &entries, 0).unwrap();
    let two = persist_folder(&LocalIndex::load(one), "Empty", &vec![], 0).unwrap();
    LocalIndex::load(two)
}

#[test]
fn indexed_folders_need_no_server() {
    let index = indexed();
    let list = fetch_directory(&index, URL, "No-Intro/", false).unwrap();
    assert_eq!(list.len(), 2);
    assert_eq!(list[0].name, "Sub");
    assert_eq!(list[1].name, "x y.zip");
    assert_eq!(list[1].size, "2.0 KiB");
    assert_eq!(
        list[1].url.as_deref(),
        Some("https://myrient.erista.me/files/No-Intro/x%20y.zip")
    );
    assert!(fetch_directory(&index, URL, "No-Intro/", true).is_none());
    assert!(fetch_directory(&index, URL, "Elsewhere/", false).is_none());
    assert!(fetch_directory(&index, URL, "Empty", false).is_none());
}

#[test]
fn fetched_lines_are_kept() {
    let list = fetch_directory_http(URL, PAGE);
    let sizes: Vec<u64> = vec![0, 0, 345, 1536];
    let kept = entries_to_keep(&list, &sizes);
    assert_eq!(kept.len(), 4);
    assert_eq!(kept[3].href, "b%20file.zip");
    assert_eq!(kept[3].size_bytes, 1536);
    assert_eq!(kept[0].size_bytes, 0);
    assert!(kept[0].is_folder);
}

#[test]
fn sub_folders() {
    assert_eq!(sub_folder_url("https://h/a//", "b/"), "https://h/a/b/");
    assert_eq!(
        folder_rel_path("https://myrient.erista.me/files/No-Intro/GB/"),
        "No-Intro/GB"
    );
    assert_eq!(folder_rel_path("https://myrient.erista.me/files/"), "");
}

/// A scan goes into each folder where it stands, so files come in the order of the pages.
#[test]
fn scans_go_depth_first() {
    let root = "https://h/r/";
    let mut scan = Scan::new(root);
    let mut asked = vec![];
    while let Some(url) = scan.next() {
        let page = match url.as_str() {
            "https://h/r/" => vec![line("one", true), line("b", false), line("two", true), line("c", false)],
            "https://h/r/one/" => vec![line("a", false)],
            "https://h/r/two/" => vec![],
            _ => panic!("unknown folder"),
        };
        scan.supply(&url, &page);
        asked.push(url);
    }
    assert_eq!(asked, vec!["https://h/r/", "https://h/r/one/", "https://h/r/two/"]);
    let names: Vec<String> = scan.finish().into_iter().map(|f| f.name).collect();
    assert_eq!(names, vec!["a", "b", "c"]);
}

#[test]
fn files_without_address_are_left_out() {
    let mut scan = Scan::new("https://h/r/");
    let url = scan.next().unwrap();
    let mut lost = line("lost", false);
    lost.url = None;
    scan.supply(&url, &vec![lost, line("kept", false)]);
    assert!(scan.next().is_none());
    let files = scan.finish();
    assert_eq!(files.len(), 1);
    assert_eq!(files[0].url, "https://h/kept");
}

fn entry(href: &str, date: &str) -> RawEntry {
    RawEntry {
        name: href.trim_end_matches('/').to_string(),
        href: href.to_string(),
        size: "-".to_string(),
        date: date.to_string(),
        is_folder: href.ends_with('/'),
    }
}

fn cache() -> StrMap<CachedDir> {
    let mut c = StrMap::new();
    store_dir(&mut c, "A", vec![entry("x", "d1")], 10);
    store_dir(&mut c, "A/B", vec![], 4);
    store_dir(&mut c, "AB", vec![entry("y", "d2")], 3);
    c
}

#[test]
fn crawled_addresses() {
    assert_eq!(top_rel("No-Intro/"), "No-Intro");
    assert_eq!(top_url("No-Intro/"), "https://myrient.erista.me/files/No-Intro/");
    assert_eq!(sub_rel("A", "B/"), "A/B");
}

#[test]
fn crawl_waits_between_attempts() {
    assert_eq!(fetch_wait(0), Some(0));
    assert_eq!(fetch_wait(1), Some(2));
    assert_eq!(fetch_wait(2), Some(4));
    assert_eq!(fetch_wait(3), None);
    assert_eq!(fetch_failure("timed out"), "failed after 3 retries: timed out");
}

#[test]
fn every_five_hundredth_folder_is_a_checkpoint() {
    assert!(is_checkpoint(500));
    assert!(is_checkpoint(1000));
    assert!(!is_checkpoint(501));
}

#[test]
fn bytes_are_summed() {
    assert_eq!(sum_bytes(&vec![]), 0);
    assert_eq!(sum_bytes(&vec![1, 2, 3]), 6);
}

#[test]
fn crawled_folders_are_remembered() {
    let mut c = cache();
    assert_eq!(cached_total(&c, "A"), Some(10));
    assert_eq!(cached_total(&c, "C"), None);
    store_listing(&mut c, "A", vec![]);
    assert_eq!(cached_total(&c, "A"), Some(10));
    assert_eq!(c.get("A").unwrap().entries.len(), 0);
    store_listing(&mut c, "N", vec![entry("z", "")]);
    assert_eq!(cached_total(&c, "N"), Some(0));
    store_root(&mut c, vec![entry("A/", "")]);
    store_root(&mut c, vec![]);
    assert_eq!(c.get("").unwrap().entries.len(), 1);
    assert_eq!(sorted_paths(&c), vec!["", "A", "A/B", "AB", "N"]);
}

#[test]
fn copies_are_exact() {
    let copy = entries_to_cached(&vec![entry("a/", "d")]);
    assert_eq!(copy[0].name, "a");
    assert_eq!(copy[0].href, "a/");
    assert_eq!(copy[0].date, "d");
    assert!(copy[0].is_folder);
}

#[test]
fn dropping_a_folder_drops_what_is_below() {
    let (c, n) = drop_folder(cache(), "A");
    assert_eq!(n, 2);
    assert_eq!(sorted_paths(&c), vec!["AB"]);
    let (c, n) = drop_folder(cache(), "Z");
    assert_eq!((c.len(), n), (3, 0));
}

#[test]
fn refresh_drops_folders_with_another_date() {
    let known = || {
        let mut c = cache();
        store_root(&mut c, vec![entry("A/", "r1"), entry("AB/", "r2"), entry("AB", "file")]);
        c
    };
    let (c, n) = refresh(known(), vec![entry("A/", "r1"), entry("AB/", "r2")]);
    assert_eq!((c.len(), n), (4, 0));
    let (c, n) = refresh(known(), vec![entry("A/", "new"), entry("AB/", "r2"), entry("C/", "d")]);
    assert_eq!(n, 2);
    assert_eq!(sorted_paths(&c), vec!["", "AB"]);
    assert_eq!(c.get("").unwrap().entries[0].date, "new");
    let (c, n) = refresh(known(), vec![entry("AB", "new")]);
    assert_eq!((c.len(), n), (4, 0));
}

#[test]
fn folders_of_unknown_date_are_fetched_again() {
    let (c, n) = refresh(cache(), vec![entry("A/", "d1"), entry("C/", "d")]);
    assert_eq!(n, 2);
    assert_eq!(sorted_paths(&c), vec!["", "AB"]);
    let again = vec![entry("A/", "d1"), entry("C/", "d")];
    let (c, n) = refresh(c, again);
    assert_eq!((c.len(), n), (2, 0));
}

#[test]
fn a_folder_holds_its_files_and_what_is_below() {
    let lines = vec![entry("S/", ""), entry("a", ""), entry("T/", ""), entry("b", "")];
    assert_eq!(dir_total(&lines, &vec![7, 10, 7, 20], &vec![100, 200]), 330);
    assert_eq!(dir_total(&vec![], &vec![], &vec![]), 0);
}

#[test]
fn crawled_once_is_crawled() {
    let mut c = cache();
    assert_eq!(store_crawled(&mut c, "N", None, &vec![]), 0);
    assert_eq!(cached_total(&c, "N"), None);
    assert_eq!(c.len(), 3);
    assert_eq!(store_crawled(&mut c, "N/S", Some(vec![entry("b", "")]), &vec![5]), 5);
    let lines = vec![entry("S/", ""), entry("a", "d"), entry("Gone/", "")];
    assert_eq!(below_totals(&c, "N", &lines), vec![5, 0]);
    assert_eq!(store_crawled(&mut c, "N", Some(lines), &vec![9, 10, 9]), 15);
    assert_eq!(cached_total(&c, "N"), Some(15));
    assert_eq!(c.get("N").unwrap().entries[1].date, "d");
    assert_eq!(cached_total(&c, "A"), Some(10));
}

#[test]
fn totals_are_those_of_the_tree() {
    let mut c: StrMap<CachedDir> = StrMap::new();
    store_crawled(&mut c, "T/U/V", Some(vec![entry("x", ""), entry("y", "")]), &vec![1, 2]);
    store_crawled(&mut c, "T/U", Some(vec![entry("V/", ""), entry("z", "")]), &vec![0, 4]);
    store_crawled(&mut c, "T/W", Some(vec![entry("w", "")]), &vec![8]);
    let top = vec![entry("U/", ""), entry("W/", ""), entry("t", "")];
    assert_eq!(store_crawled(&mut c, "T", Some(top), &vec![0, 0, 16]), 31);
    assert_eq!(cached_total(&c, "T/U"), Some(7));
}

#[test]
fn the_first_link_of_a_cell_counts() {
    let page = "<table><tr><th>h</th></tr><tr><td><a href=\"one\">1</a><a href=\"two\">2</a></td>\
        <td>-</td><td>d</td></tr><tr><td><a>x</a><a href=\"y\">y</a></td><td></td><td></td></tr></table>";
    let rows = read_page(page);
    assert_eq!(rows.len(), 1);
    assert_eq!((rows[0].href.as_str(), rows[0].name.as_str()), ("one", "1"));
}

#[test]
fn texts_are_sorted_by_bytes() {
    let list = vec!["b".to_string(), "a".to_string(), "".to_string(), "Z".to_string(), "ab".to_string()];
    assert_eq!(sort_texts(list), vec!["", "Z", "a", "ab", "b"]);
    assert!(comes_before("a", "b"));
    assert!(!comes_before("b", "a"));
}

#[test]
fn sorting_is_stable() {
    let key = |rank: u8, text: &str| SortKey { rank, text: text.to_string() };
    let order = sort_by_key(&vec![key(1, "x"), key(0, "x"), key(1, "a"), key(1, "x"), key(0, "x")]);
    assert_eq!(order, vec![1, 4, 2, 0, 3]);
}
