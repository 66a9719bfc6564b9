//! Names, sizes, durations and checksums as the user reads them.

use myrient_dl::checksum::{
    crc32, crc_matches, hex, md5_matches, md5_plan, md5_url, needs_sfv, sfv_expected, sfv_url,
    verify_file, Md5Plan,
};
use myrient_dl::format::{count_of, fmt_binary_size, fmt_eta, fmt_size, fmt_size_tight};
use myrient_dl::sizes::{size_parts, unit_bytes};
use myrient_dl::text::{join, split_char, split_last, split_segments, split_words, trim};
use myrient_dl::url_text::{url_decode, url_decode_loose, url_decode_name, BASE_URL};

#[test]
fn escapes_are_resolved() {
    assert_eq!(url_decode("Nintendo%20-%20Game%20Boy"), "Nintendo - Game Boy");
    assert_eq!(url_decode("a%2fb%2Fc"), "a/b/c");
    assert_eq!(url_decode(""), "");
    assert_eq!(url_decode("plain"), "plain");
}

#[test]
fn bytes_become_characters_one_by_one() {
    assert_eq!(url_decode("%C3%A9"), "\u{c3}\u{a9}");
    assert_eq!(url_decode("é"), "\u{c3}\u{a9}");
}

#[test]
fn broken_escapes_take_two_bytes_with_them() {
    assert_eq!(url_decode("100%"), "100%");
    assert_eq!(url_decode("%4"), "%");
    assert_eq!(url_decode("%zz1"), "%1");
    assert_eq!(url_decode("%4x1"), "%1");
    assert_eq!(url_decode("%+51"), "%1");
}

#[test]
fn folder_slash_is_hidden() {
    assert_eq!(url_decode_name("No-Intro/"), "No-Intro");
    assert_eq!(url_decode_name("No-Intro"), "No-Intro");
    assert_eq!(url_decode_name("a%2Fb//"), "a/b");
    assert_eq!(url_decode_name("/"), "");
    assert_eq!(url_decode_name("Tetris%20%28World%29.zip"), "Tetris (World).zip");
}

#[test]
fn loose_escapes_fill_up_with_zeros() {
    assert_eq!(url_decode_loose("a%20b"), "a b");
    assert_eq!(url_decode_loose("%4"), "@");
    assert_eq!(url_decode_loose("%"), "\0");
    assert_eq!(url_decode_loose("%+5"), "\u{5}");
    assert_eq!(url_decode_loose("%5+x"), "%x");
    assert_eq!(url_decode_loose("%zz1"), "%1");
}

#[test]
fn base_address() {
    assert_eq!(BASE_URL, "https://myrient.erista.me/files/");
}

#[test]
fn binary_sizes() {
    assert_eq!(fmt_binary_size(0), "0 B");
    assert_eq!(fmt_binary_size(1023), "1023 B");
    assert_eq!(fmt_binary_size(1024), "1.0 KiB");
    assert_eq!(fmt_binary_size(1536), "1.5 KiB");
    assert_eq!(fmt_binary_size(1_048_575), "1024.0 KiB");
    assert_eq!(fmt_binary_size(1_048_576), "1.0 MiB");
    assert_eq!(fmt_binary_size(520_827_699), "496.7 MiB");
    assert_eq!(fmt_binary_size(1_073_741_824), "1.0 GiB");
    assert_eq!(fmt_binary_size(1_099_511_627_776), "1.0 TiB");
    assert_eq!(fmt_binary_size(u64::MAX), "16777216.0 TiB");
}

#[test]
fn decimal_sizes() {
    assert_eq!(fmt_size(999), "999 B");
    assert_eq!(fmt_size(1_000), "1.0 KB");
    assert_eq!(fmt_size(1_500_000), "1.5 MB");
    assert_eq!(fmt_size(87_300_000_000), "87.3 GB");
    assert_eq!(fmt_size_tight(999), "999B");
    assert_eq!(fmt_size_tight(1_500_000), "1.5MB");
}

/// Sizes are those that dividing in binary64 and printing one digit gives.
#[test]
fn sizes_are_those_of_doubles() {
    let mut b: u64 = 1;
    while b < u64::MAX / 3 {
        for d in [0u64, 1, 49, 50, 51, 52, 249, 250, 251, 252] {
            let n = b + d;
            let x = n as f64;
            let decimal = if n >= 1_000_000_000 {
                format!("{:.1} GB", x / 1e9)
            } else if n >= 1_000_000 {
                format!("{:.1} MB", x / 1e6)
            } else if n >= 1_000 {
                format!("{:.1} KB", x / 1e3)
            } else {
                format!("{} B", n)
            };
            assert_eq!(fmt_size(n), decimal);
            let binary = if n >= 1_099_511_627_776 {
                format!("{:.1} TiB", x / 1_099_511_627_776.0)
            } else if n >= 1_073_741_824 {
                format!("{:.1} GiB", x / 1_073_741_824.0)
            } else if n >= 1_048_576 {
                format!("{:.1} MiB", x / 1_048_576.0)
            } else if n >= 1_024 {
                format!("{:.1} KiB", x / 1_024.0)
            } else {
                format!("{} B", n)
            };
            assert_eq!(fmt_binary_size(n), binary);
        }
        b = b * 3;
    }
    for n in 1_000u64..3_000 {
        assert_eq!(fmt_size(n), format!("{:.1} KB", n as f64 / 1e3));
        assert_eq!(fmt_size(n * 1_000), fmt_size(n).replace("KB", "MB"));
    }
}

#[test]
fn durations() {
    assert_eq!(fmt_eta(0), "0s");
    assert_eq!(fmt_eta(59), "59s");
    assert_eq!(fmt_eta(60), "1m0s");
    assert_eq!(fmt_eta(3_599), "59m59s");
    assert_eq!(fmt_eta(3_600), "1h0m");
    assert_eq!(fmt_eta(90_061), "25h1m");
}

#[test]
fn counts() {
    assert_eq!(count_of(0, "file", "s"), "0 files");
    assert_eq!(count_of(1, "file", "s"), "1 file");
    assert_eq!(count_of(2, "match", "es"), "2 matches");
}

#[test]
fn size_texts_are_taken_apart() {
    assert_eq!(size_parts("496.7 MiB"), Some(("496.7".to_string(), 1_048_576)));
    assert_eq!(size_parts(" 1.8 gib "), Some(("1.8".to_string(), 1_073_741_824)));
    assert_eq!(size_parts("345 B"), Some(("345".to_string(), 1)));
    assert_eq!(size_parts("12"), Some(("12".to_string(), 1)));
    assert_eq!(size_parts("-"), None);
    assert_eq!(size_parts("  "), None);
    assert_eq!(size_parts(""), None);
}

#[test]
fn units() {
    assert_eq!(unit_bytes("TIB"), 1_099_511_627_776);
    assert_eq!(unit_bytes("TB"), 1_099_511_627_776);
    assert_eq!(unit_bytes("GB"), 1_073_741_824);
    assert_eq!(unit_bytes("MIB"), 1_048_576);
    assert_eq!(unit_bytes("KB"), 1_024);
    assert_eq!(unit_bytes("PARSEC"), 1);
}

#[test]
fn crc_of_known_bytes() {
    assert_eq!(crc32(b""), 0);
    assert_eq!(crc32(b"123456789"), 0xCBF4_3926);
    assert_eq!(crc32(b"a"), 0xE8B7_BE43);
}

#[test]
fn hexadecimal() {
    assert_eq!(hex(&vec![0, 15, 16, 255]), "000f10ff");
    assert_eq!(hex(&vec![]), "");
}

#[test]
fn sidecar_addresses() {
    assert_eq!(md5_url("https://h/a.zip"), "https://h/a.zip.md5");
    assert_eq!(md5_url("https://h/a.zip//"), "https://h/a.zip.md5");
    assert_eq!(sfv_url("https://h/a.zip/"), "https://h/a.zip.sfv");
}

const MD5_OF_HELLO: &str = "5d41402abc4b2a76b9719d911017c592";

#[test]
fn md5_sidecars() {
    assert!(matches!(md5_plan("  \n"), Md5Plan::GiveUp));
    assert!(matches!(md5_plan("abc  file.zip"), Md5Plan::AskSfv));
    match md5_plan("5D41402ABC4B2A76B9719D911017C592  hello.zip") {
        Md5Plan::Compare(sum) => assert_eq!(sum, MD5_OF_HELLO),
        _ => panic!("the sum was not read"),
    }
}

#[test]
fn md5_is_computed() {
    assert!(md5_matches(b"hello", MD5_OF_HELLO));
    assert!(!md5_matches(b"hellp", MD5_OF_HELLO));
    assert!(md5_matches(b"", "d41d8cd98f00b204e9800998ecf8427e"));
}

#[test]
fn sfv_sidecars() {
    assert_eq!(
        sfv_expected("; comment\n\nonlyname\nfile name.zip CBF43926\nother 00000000\n"),
        Some("cbf43926".to_string())
    );
    assert_eq!(sfv_expected("; nothing here\r\n"), None);
    assert_eq!(sfv_expected(""), None);
    assert!(crc_matches(b"123456789", "cbf43926"));
    assert!(!crc_matches(b"123456789", "cbf43927"));
    assert!(crc_matches(b"", "00000000"));
}

#[test]
fn md5_comes_first() {
    let data = b"hello".to_vec();
    let sum = format!("{}  hello.zip", MD5_OF_HELLO);
    assert!(!needs_sfv(Some(sum.as_str())));
    assert!(needs_sfv(Some("short")));
    assert!(needs_sfv(None));
    assert!(!needs_sfv(Some("")));
    let wrong = Some("hello.zip 00000000");
    assert_eq!(verify_file(Some(sum.as_str()), wrong, Some(&data)), Some(true));
    let other = "00000000000000000000000000000000";
    assert_eq!(verify_file(Some(other), None, Some(&data)), Some(false));
}

#[test]
fn sfv_is_the_fallback() {
    let data = b"123456789".to_vec();
    assert_eq!(verify_file(None, Some("a CBF43926"), Some(&data)), Some(true));
    assert_eq!(verify_file(Some("short"), Some("a 00000001"), Some(&data)), Some(false));
    assert_eq!(verify_file(None, Some("; nothing"), Some(&data)), None);
    assert_eq!(verify_file(None, None, Some(&data)), None);
    assert_eq!(verify_file(Some(""), Some("a CBF43926"), Some(&data)), None);
    assert_eq!(verify_file(None, Some("a CBF43926"), None), None);
}

#[test]
fn spaces_are_those_of_unicode() {
    for n in 0u32..0x4000 {
        if let Some(c) = char::from_u32(n) {
            let text = format!("{}a{}b{}", c, c, c);
            assert_eq!(trim(&text), text.trim());
            let words: Vec<&str> = text.split_whitespace().collect();
            assert_eq!(split_words(&text), words);
        }
    }
}

#[test]
fn texts_are_split_and_joined() {
    assert_eq!(split_char("a//b", '/'), vec!["a", "", "b"]);
    assert_eq!(split_char("", '/'), vec![""]);
    assert_eq!(split_segments("/a//b/"), vec!["a", "b"]);
    assert_eq!(split_last("a/b/c", '/'), Some(("a/b".to_string(), "c".to_string())));
    assert_eq!(split_last("abc", '/'), None);
    assert_eq!(join(&vec!["a".to_string(), "b".to_string()], ", "), "a, b");
    assert_eq!(join(&vec![], ", "), "");
}

#[test]
fn crc32_is_linear() {
    let (a, b, c) = (b"alpha", b"bravo", b"charl");
    let x: Vec<u8> = (0..5).map(|i| a[i] ^ b[i] ^ c[i]).collect();
    assert_eq!(crc32(&x), crc32(a) ^ crc32(b) ^ crc32(c));
}

#[test]
fn one_changed_byte_shows() {
    for byte in 0..=255u8 {
        assert_eq!(crc32(&[1, byte, 3]) == crc32(&[1, 2, 3]), byte == 2);
    }
}
