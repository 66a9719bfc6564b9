//! Folder blocks, the index file, and the search over it.

use myrient_dl::block::{
    encode_block, parse_block, parse_date_compact, parse_digits, read_str, write_str_field,
    DirEntry,
};
use myrient_dl::crawl::CachedDir;
use myrient_dl::dirs_file::{
    block_len, compress_block, encode_cached, entry_count, packed_block, parse_existing_index,
    plan_blocks, reuse_block, tells_progress, with_blocks,
};
use myrient_dl::generated_dirs::{
    folder_count, folder_size, init, lookup, must_seed, persist_folder, top_level_folders,
    LocalIndex,
};
use myrient_dl::index::{assemble_dirs, block_of, parse_index, try_parse_index, FolderBlock};
use myrient_dl::le::{push_le, read_le};
use myrient_dl::listing::RawEntry;
use myrient_dl::search::{
    build_search, decode_path, match_line, result_url, search, search_ready, search_results,
    warm_search_index,
};
use myrient_dl::strmap::{StrMap, StrSet};

fn file(href: &str, size_bytes: u64, date: &str) -> DirEntry {
    DirEntry {
        name: "ignored".to_string(),
        href: href.to_string(),
        size: "ignored".to_string(),
        size_bytes,
        date: date.to_string(),
        is_folder: false,
    }
}

fn folder(href: &str, date: &str) -> DirEntry {
    DirEntry {
        name: "ignored".to_string(),
        href: href.to_string(),
        size: "ignored".to_string(),
        size_bytes: 99,
        date: date.to_string(),
        is_folder: true,
    }
}

fn tetris() -> Vec<DirEntry> {
    vec![
        folder("Hacks/", "2023-10-05 14:23"),
        file("Tetris%20%28World%29.zip", 1536, "2024-01-15"),
        file("ZELDA.zip", 0x12_3456_789A, "2024-12-01"),
    ]
}

fn empty_index() -> LocalIndex {
    LocalIndex::load(vec![])
}

fn with_folder(index: &LocalIndex, path: &str, entries: &Vec<DirEntry>, total: u64) -> LocalIndex {
    LocalIndex::load(persist_folder(index, path, entries, total).unwrap())
}

#[test]
fn integers_are_little_endian() {
    let mut out = vec![7u8];
    push_le(&mut out, 0x0102_0304, 4);
    push_le(&mut out, 0xABCD, 2);
    assert_eq!(out, vec![7, 4, 3, 2, 1, 0xCD, 0xAB]);
    assert_eq!(read_le(&out, 1, 4), 0x0102_0304);
    assert_eq!(read_le(&out, 5, 2), 0xABCD);
    push_le(&mut out, u64::MAX - 1, 8);
    assert_eq!(read_le(&out, 7, 8), u64::MAX - 1);
}

#[test]
fn digits_are_read_where_they_are() {
    assert_eq!(parse_digits(b"2023-10-05", 0, 4), 2023);
    assert_eq!(parse_digits(b"2023-10-05", 8, 2), 5);
    assert_eq!(parse_digits(b"2x2", 0, 3), 22);
    assert_eq!(parse_digits(b"12", 1, 4), 2);
    assert_eq!(parse_digits(b"", 5, 2), 0);
}

#[test]
fn dates_are_packed() {
    assert_eq!(parse_date_compact("2023-10-15 14:23"), (23, 10, 15));
    assert_eq!(parse_date_compact("1999-01-02"), (0, 1, 2));
    assert_eq!(parse_date_compact("9999-99-99"), (255, 12, 31));
    assert_eq!(parse_date_compact(""), (0, 0, 0));
}

#[test]
fn short_texts_have_a_length_byte() {
    let mut buf = vec![];
    write_str_field(&mut buf, "ab");
    assert_eq!(buf, vec![2, b'a', b'b']);
    let mut pos = 0;
    assert_eq!(read_str(&buf, &mut pos), Some("ab".to_string()));
    assert_eq!(pos, 3);
    assert_eq!(read_str(&buf, &mut pos), None);
    let mut cut = 0;
    assert_eq!(read_str(&[5, b'a'], &mut cut), None);
    let mut bad = 0;
    assert_eq!(read_str(&[1, 0xFF], &mut bad), None);
    assert_eq!(bad, 1);
    let mut past = 7;
    assert_eq!(read_str(&[1, b'a'], &mut past), None);
    assert_eq!(past, 7);
    let long = "x".repeat(300);
    let mut buf = vec![];
    write_str_field(&mut buf, &long);
    assert_eq!(buf.len(), 256);
    assert_eq!(buf[0], 255);
}

#[test]
fn block_layout() {
    let raw = encode_block(&vec![folder("D/", "2023-10-05"), file("f", 0x1_0000_0002, "2024-01-15")]);
    assert_eq!(
        raw,
        vec![2, 0, 1, 2, b'D', b'/', 23, 0xA5, 0, 1, b'f', 1, 2, 0, 0, 0, 24, 0x1F]
    );
}

#[test]
fn blocks_come_back() {
    let back = parse_block(&encode_block(&tetris())).unwrap();
    assert_eq!(back.len(), 3);
    assert_eq!(back[0].name, "Hacks");
    assert_eq!(back[0].href, "Hacks/");
    assert_eq!(back[0].size, "");
    assert_eq!(back[0].size_bytes, 0);
    assert_eq!(back[0].date, "2023-10-05");
    assert!(back[0].is_folder);
    assert_eq!(back[1].name, "Tetris (World).zip");
    assert_eq!(back[1].size, "1.5 KiB");
    assert_eq!(back[1].size_bytes, 1536);
    assert_eq!(back[1].date, "2024-01-15");
    assert!(!back[1].is_folder);
    assert_eq!(back[2].size_bytes, 0x12_3456_789A);
    assert_eq!(back[2].date, "2024-12-01");
}

#[test]
fn late_days_are_kept() {
    let raw = encode_block(&vec![
        file("a", 1, "2023-10-31"),
        file("b", 1, "2023-10-16"),
        file("c", 1, "2023-10-20"),
        folder("d/", "2023-12-17"),
    ]);
    let back = parse_block(&raw).unwrap();
    assert_eq!(back[0].date, "2023-10-31");
    assert_eq!(back[1].date, "2023-10-16");
    assert_eq!(back[2].date, "2023-10-20");
    assert_eq!(back[3].date, "2023-12-17");
    assert!(!back[0].is_folder && back[3].is_folder);
}

#[test]
fn the_flag_byte_holds_the_high_bit_of_the_day() {
    assert_eq!(encode_block(&vec![folder("D/", "2023-10-20")]), vec![1, 0, 3, 2, b'D', b'/', 23, 0xA4]);
    assert_eq!(encode_block(&vec![folder("D/", "2023-10-04")]), vec![1, 0, 1, 2, b'D', b'/', 23, 0xA4]);
}

#[test]
fn bytes_after_a_block_change_nothing() {
    let raw = encode_block(&tetris());
    let mut longer = raw.clone();
    longer.extend_from_slice(&[1, 2, 3]);
    let a = parse_block(&raw).unwrap();
    let b = parse_block(&longer).unwrap();
    assert_eq!(a.len(), b.len());
    assert!(a.iter().zip(&b).all(|(x, y)| x.href == y.href && x.date == y.date));
}

#[test]
fn size_has_forty_bits() {
    let raw = encode_block(&vec![file("a", 0xFF_0000_0000_0001, "")]);
    let back = parse_block(&raw).unwrap();
    assert_eq!(back[0].size_bytes, 1);
    assert_eq!(back[0].date, "");
}

#[test]
fn damaged_blocks() {
    assert_eq!(parse_block(&[]).unwrap().len(), 0);
    assert_eq!(parse_block(&[9]).unwrap().len(), 0);
    assert_eq!(parse_block(&[2, 0, 1, 1, b'a', 23, 0x11]).unwrap().len(), 1);
    assert!(parse_block(&[1, 0, 1, 5, b'a']).is_none());
    assert!(parse_block(&[1, 0, 1, 1, 0xFF]).is_none());
    assert_eq!(parse_block(&[1, 0, 0, 1, b'a', 0, 0]).unwrap().len(), 0);
    let undated = parse_block(&[1, 0, 1, 1, b'a']).unwrap();
    assert_eq!(undated[0].date, "");
}

#[test]
fn index_comes_back() {
    let list = vec![
        FolderBlock { path: "A".to_string(), block: vec![1, 2, 3], total: 7 },
        FolderBlock { path: "A/B".to_string(), block: vec![], total: u64::MAX },
        FolderBlock { path: "".to_string(), block: vec![9], total: 0 },
    ];
    let data = assemble_dirs(&list);
    let map = parse_index(&data).unwrap();
    assert_eq!(map.len(), 3);
    for f in &list {
        let r = *map.get(&f.path).unwrap();
        assert_eq!(r.total, f.total);
        assert_eq!(block_of(&data, r).unwrap(), f.block.as_slice());
    }
    assert!(map.get("C").is_none());
    assert_eq!(&data[0..4], &[3, 0, 0, 0]);
}

#[test]
fn damaged_indexes() {
    assert!(parse_index(&[]).is_none());
    assert!(parse_index(&[1, 0, 0]).is_none());
    assert_eq!(parse_index(&[5, 0, 0, 0]).unwrap().len(), 0);
    let mut bad = vec![1, 0, 0, 0, 1, 0, 0xFF];
    bad.extend_from_slice(&[0; 16]);
    assert!(parse_index(&bad).is_none());
}

#[test]
fn short_records_are_read_with_their_own_stride() {
    let mut data = vec![1u8, 0, 0, 0, 1, 0, b'A'];
    data.extend_from_slice(&15u32.to_le_bytes());
    data.extend_from_slice(&2u32.to_le_bytes());
    data.extend_from_slice(&[0xAA, 0xBB]);
    let map = try_parse_index(&data, 1, 8).unwrap();
    let r = *map.get("A").unwrap();
    assert_eq!((r.offset, r.clen), (15, 2));
    assert_eq!(block_of(&data, r).unwrap(), &[0xAA, 0xBB]);
    assert_eq!(try_parse_index(&data, 1, 16).unwrap().len(), 0);
    assert_eq!(try_parse_index(&vec![1, 0], 1, 16).unwrap().len(), 0);
}

#[test]
fn blocks_outside_the_file_are_not_there() {
    let list = vec![FolderBlock { path: "A".to_string(), block: vec![1, 2, 3], total: 7 }];
    let mut data = assemble_dirs(&list);
    data.pop();
    let r = *parse_index(&data).unwrap().get("A").unwrap();
    assert!(block_of(&data, r).is_none());
    let index = LocalIndex::load(data);
    assert!(lookup(&index, "A").is_none());
    assert_eq!(folder_size(&index, "A"), Some(7));
}

#[test]
fn first_run_is_seeded() {
    assert!(must_seed(None, 100));
    assert!(must_seed(Some(1), 100));
    assert!(must_seed(Some(0), 2));
    assert!(!must_seed(Some(2), 100));
    assert!(!must_seed(None, 1));
}

#[test]
fn local_file_wins_over_the_embedded_one() {
    let a = with_folder(&empty_index(), "A", &tetris(), 1);
    let b = with_folder(&empty_index(), "B", &tetris(), 2);
    let local = init(Some(a.bytes().clone()), b.bytes());
    assert!(lookup(&local, "A").is_some());
    assert!(lookup(&local, "B").is_none());
    let fallen = init(None, b.bytes());
    assert!(lookup(&fallen, "B").is_some());
    assert_eq!(folder_count(&fallen), 1);
}

#[test]
fn visited_folder_is_there_next_time() {
    let index = with_folder(&empty_index(), "/No-Intro/", &tetris(), 42);
    let listing = lookup(&index, "No-Intro").unwrap();
    assert_eq!(listing.len(), 3);
    assert_eq!(listing[1].name, "Tetris (World).zip");
    assert_eq!(lookup(&index, "//No-Intro").unwrap().len(), 3);
    assert!(lookup(&index, "Redump").is_none());
    assert_eq!(folder_size(&index, "No-Intro/"), Some(42));
    assert_eq!(folder_size(&index, "Redump"), None);
}

#[test]
fn persisting_keeps_other_folders() {
    let one = with_folder(&empty_index(), "A", &tetris(), 0);
    let two = with_folder(&one, "B/C", &vec![file("x", 5, "")], 5);
    let again = with_folder(&two, "A", &vec![file("y", 6, "")], 6);
    assert_eq!(folder_count(&again), 2);
    assert_eq!(lookup(&again, "B/C").unwrap()[0].href, "x");
    assert_eq!(lookup(&again, "A").unwrap()[0].href, "y");
    assert_eq!(folder_size(&two, "A"), None);
    assert_eq!(folder_size(&again, "A"), Some(6));
}

#[test]
fn top_level_folders_are_sorted() {
    let a = with_folder(&empty_index(), "b", &vec![], 0);
    let b = with_folder(&a, "", &vec![], 0);
    let c = with_folder(&b, "a/b", &vec![], 0);
    let d = with_folder(&c, "Z", &vec![], 0);
    let e = with_folder(&d, "a", &vec![], 0);
    assert_eq!(top_level_folders(&e), vec!["Z", "a", "b"]);
    assert_eq!(folder_count(&e), 5);
    assert_eq!(folder_count(&empty_index()), 0);
}

#[test]
fn search_waits_for_its_index() {
    let index = with_folder(&empty_index(), "No-Intro/GB", &tetris(), 0);
    let mut slot = None;
    assert!(!search_ready(&slot));
    assert_eq!(search(&slot, "tetris").len(), 0);
    warm_search_index(&mut slot, &index);
    assert!(search_ready(&slot));
    let found = search(&slot, "TETRIS");
    assert_eq!(found.len(), 1);
    assert_eq!(found[0].href_lc, "tetris%20%28world%29.zip");
    assert_eq!(found[0].folder, "No-Intro/GB");
    assert_eq!(found[0].name, "tetris (world).zip");
    assert_eq!(found[0].size_bytes, 1536);
    warm_search_index(&mut slot, &empty_index());
    assert_eq!(search(&slot, "zip").len(), 2);
}

#[test]
fn search_finds_files_only() {
    let index = with_folder(&empty_index(), "A", &tetris(), 0);
    let slot = Some(build_search(&index));
    assert_eq!(search(&slot, "hacks").len(), 0);
    assert_eq!(search(&slot, "").len(), 2);
    assert_eq!(search(&slot, "nowhere").len(), 0);
}

#[test]
fn search_filters() {
    let a = with_folder(&empty_index(), "No-Intro/Game%20Boy", &tetris(), 0);
    let b = with_folder(&a, "BIOS", &tetris(), 0);
    let slot = Some(build_search(&b));
    assert_eq!(search_results(&slot, "zip", "", "").len(), 4);
    assert_eq!(search_results(&slot, "zip", "no-intro", "").len(), 2);
    assert_eq!(search_results(&slot, "zip", "", "bios").len(), 2);
    assert_eq!(search_results(&slot, "zip", "bios", "bios").len(), 0);
    assert_eq!(search_results(&slot, "zip", "game boy", "").len(), 2);
    assert_eq!(search_results(&slot, "zip", "", "game boy").len(), 2);
    assert_eq!(search_results(&slot, "zip", "game%20boy", "").len(), 0);
    let r = search_results(&slot, "tetris", "boy", "");
    assert_eq!(r.len(), 1);
    assert_eq!(r[0].name, "tetris (world).zip");
    assert_eq!(r[0].folder, "No-Intro/Game Boy");
    assert_eq!(r[0].raw_folder, "No-Intro/Game%20Boy");
    assert_eq!(r[0].full_path, "No-Intro/Game%20Boy/tetris%20%28world%29.zip");
    assert_eq!(
        result_url(&b, &r[0].raw_folder, &r[0].full_path),
        "https://myrient.erista.me/files/No-Intro/Game%20Boy/Tetris%20%28World%29.zip"
    );
    assert_eq!(
        result_url(&b, "Gone", "Gone/x.zip"),
        "https://myrient.erista.me/files/Gone/x.zip"
    );
}

#[test]
fn at_most_five_hundred_results() {
    let many: Vec<DirEntry> = (0..600).map(|i| file(&format!("f{}.zip", i), 1, "")).collect();
    let index = with_folder(&empty_index(), "A", &many, 0);
    let slot = Some(build_search(&index));
    let r = search_results(&slot, "f", "", "");
    assert_eq!(r.len(), 500);
    assert_eq!(r[0].name, "f0.zip");
    assert_eq!(r[499].name, "f499.zip");
    assert_eq!(match_line(500), "500+ matches (refine your search)");
    assert_eq!(match_line(1), "1 match");
    assert_eq!(match_line(0), "0 matches");
}

#[test]
fn paths_are_decoded_by_segment() {
    assert_eq!(decode_path("a%20b/c%2"), "a b/c%");
    assert_eq!(decode_path("a%/2520b"), "a%/2520b");
    assert_eq!(decode_path(""), "");
}

fn raw(href: &str, size: &str) -> RawEntry {
    RawEntry {
        name: href.to_string(),
        href: href.to_string(),
        size: size.to_string(),
        date: "2024-02-03 10:00".to_string(),
        is_folder: href.ends_with('/'),
    }
}

#[test]
fn existing_index_is_recognised() {
    let index = with_folder(&empty_index(), "A", &tetris(), 3);
    let map = parse_existing_index(index.bytes()).unwrap();
    assert_eq!(map.len(), 1);
    assert!(parse_existing_index(&vec![1, 0]).is_none());
    assert!(parse_existing_index(&vec![0, 0, 0, 0]).is_none());
    let block = compress_block(&encode_block(&tetris())).unwrap();
    let mut old = vec![1u8, 0, 0, 0, 1, 0, b'A'];
    old.extend_from_slice(&15u32.to_le_bytes());
    old.extend_from_slice(&(block.len() as u32).to_le_bytes());
    old.extend_from_slice(&block);
    let map = parse_existing_index(&old).unwrap();
    assert_eq!(map.get("A").unwrap().offset, 15);
}

#[test]
fn a_cut_index_yields_what_is_there() {
    let mut cut = vec![2u8, 0, 0, 0, 1, 0, b'a', 15, 0, 0, 0, 4, 0, 0, 0];
    cut.extend_from_slice(&[0x28, 0xB5, 0x2F, 0xFD]);
    let map = parse_existing_index(&cut).unwrap();
    assert_eq!(map.len(), 1);
    assert_eq!((map.get("a").unwrap().offset, map.get("a").unwrap().clen), (15, 4));
    let list: Vec<FolderBlock> = ["A", "B"]
        .iter()
        .map(|p| FolderBlock {
            path: p.to_string(),
            block: compress_block(&encode_block(&tetris())).unwrap(),
            total: 7,
        })
        .collect();
    let mut data = assemble_dirs(&list);
    data.pop();
    let map = parse_existing_index(&data).unwrap();
    assert_eq!(map.len(), 2);
    assert_eq!(block_of(&data, *map.get("A").unwrap()).unwrap(), list[0].block.as_slice());
    assert!(block_of(&data, *map.get("B").unwrap()).is_none());
}

#[test]
fn blocks_begin_with_the_magic_number() {
    for raw in [vec![], vec![0, 0], encode_block(&tetris())] {
        assert_eq!(compress_block(&raw).unwrap()[..4], [0x28, 0xB5, 0x2F, 0xFD]);
    }
}

#[test]
fn all_folders_of_an_existing_index_are_found() {
    let mut data = vec![2u8, 0, 0, 0];
    data.extend_from_slice(&[1, 0, b'a', 42, 0, 0, 0, 4, 0, 0, 0, 255, 255, 0, 0, 0, 0, 0, 0]);
    data.extend_from_slice(&[1, 0, b'b', 46, 0, 0, 0, 4, 0, 0, 0, 0, 0, 0, 0, 0, 0, 0, 0]);
    data.extend_from_slice(&[0x28, 0xB5, 0x2F, 0xFD, 0x28, 0xB5, 0x2F, 0xFD]);
    assert_eq!(data.len(), 50);
    let map = parse_existing_index(&data).unwrap();
    assert_eq!(map.len(), 2);
    let (a, b) = (*map.get("a").unwrap(), *map.get("b").unwrap());
    assert_eq!((a.offset, a.clen), (42, 4));
    assert_eq!((b.offset, b.clen), (46, 4));
    let list: Vec<FolderBlock> = ["A", "B/C", "D%20E"]
        .iter()
        .map(|p| FolderBlock {
            path: p.to_string(),
            block: compress_block(&encode_block(&tetris())).unwrap(),
            total: 65535,
        })
        .collect();
    assert_eq!(parse_existing_index(&assemble_dirs(&list)).unwrap().len(), 3);
}

#[test]
fn unchanged_blocks_are_reused() {
    let index = with_folder(&empty_index(), "A", &tetris(), 3);
    let map = parse_existing_index(index.bytes()).unwrap();
    let block = reuse_block(index.bytes(), &map, "A", 3).unwrap();
    assert_eq!(block_of(index.bytes(), *map.get("A").unwrap()).unwrap(), block.as_slice());
    assert!(reuse_block(index.bytes(), &map, "A", 4).is_none());
    assert!(reuse_block(index.bytes(), &map, "B", 3).is_none());
    assert_eq!(entry_count(&vec![3, 1, 9]), Some(259));
    assert_eq!(entry_count(&vec![3]), None);
}

#[test]
fn cached_folders_become_the_file() {
    let mut dirs: StrMap<CachedDir> = StrMap::new();
    dirs.insert(
        "A".to_string(),
        CachedDir { entries: vec![raw("x.zip", "1.5 KiB"), raw("S/", "-")], total_bytes: 1536 },
    );
    dirs.insert("A/S".to_string(), CachedDir { entries: vec![], total_bytes: 0 });
    let paths = vec!["A".to_string(), "A/S".to_string()];
    let sizes = vec![vec![1536, 0], vec![]];
    let none: StrMap<myrient_dl::index::IndexRecord> = StrMap::new();
    let plans = plan_blocks(&dirs, &paths, &sizes, &vec![], &none);
    assert_eq!(plans.len(), 2);
    assert!(plans[0].reused.is_none());
    assert_eq!(plans[0].raw, encode_cached(&dirs.get("A").unwrap().entries, &sizes[0]));
    assert_eq!(block_len(&dirs.get("A").unwrap().entries), 2);
    let packed: Vec<Vec<u8>> = plans.iter().map(|p| packed_block(p).unwrap()).collect();
    let data = assemble_dirs(&with_blocks(&plans, packed));
    let index = LocalIndex::load(data.clone());
    let listing = lookup(&index, "A").unwrap();
    assert_eq!(listing[0].size_bytes, 1536);
    assert_eq!(listing[0].date, "2024-02-03");
    assert!(listing[1].is_folder);
    assert_eq!(folder_size(&index, "A"), Some(1536));
    assert_eq!(lookup(&index, "A/S").unwrap().len(), 0);

    let known = try_parse_index(&data, 2, 16).unwrap();
    let second = plan_blocks(&dirs, &paths, &sizes, &data, &known);
    assert!(second.iter().all(|p| p.reused.is_some() && p.raw.is_empty()));
    assert_eq!(packed_block(&second[0]), second[0].reused);
    assert_eq!(packed_block(&second[1]), second[1].reused);
}

#[test]
fn progress_is_told_in_twentieths() {
    assert!(tells_progress(5, 100));
    assert!(!tells_progress(6, 100));
    assert!(tells_progress(1, 3));
    assert!(tells_progress(41, 41));
    assert!(!tells_progress(39, 41));
}

#[test]
fn maps_keep_the_order_of_first_insertion() {
    let mut map: StrMap<u64> = StrMap::new();
    map.insert("b".to_string(), 1);
    map.insert("a".to_string(), 2);
    map.insert("b".to_string(), 3);
    assert_eq!(map.len(), 2);
    assert_eq!(map.key_at(0), "b");
    assert_eq!(*map.value_at(0), 3);
    assert_eq!(map.get("a"), Some(&2));
    assert!(!map.contains_key("c"));
    assert_eq!(map.into_entries(), vec![("b".to_string(), 3), ("a".to_string(), 2)]);
}

#[test]
fn sets_hold_each_text_once() {
    let mut set = StrSet::of(&vec!["a".to_string(), "b".to_string(), "a".to_string()]);
    assert_eq!(set.len(), 2);
    assert!(!set.insert("b".to_string()));
    assert!(set.insert("c".to_string()));
    assert!(set.remove("a"));
    assert!(!set.remove("a"));
    assert!(!set.contains("a"));
    let copy = set.copy();
    set.keep_in(&StrSet::of(&vec!["c".to_string()]));
    assert_eq!(set.len(), 1);
    assert_eq!(set.at(0), "c");
    set.clear();
    assert!(set.is_empty());
    assert_eq!(copy.len(), 2);
}

#[test]
fn a_longer_query_finds_fewer() {
    let index = with_folder(&empty_index(), "A", &tetris(), 0);
    let slot = Some(build_search(&index));
    let names = |q: &str| search(&slot, q).iter().map(|h| h.href_lc.to_string()).collect::<Vec<String>>();
    assert_eq!(names("").len(), 2);
    let short = names("t");
    let long = names("tet");
    assert_eq!(long.len(), 1);
    assert!(long.iter().all(|n| short.contains(n)));
    assert_eq!(names("tetris"), names("TETRIS"));
    assert_eq!(names("nothing such").len(), 0);
}
