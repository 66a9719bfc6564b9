//! Calls into the crates that compress, hash, read URLs and read HTML.

use crate::text::texts;
use vstd::prelude::*;
use vstd::utf8::encode_utf8;

verus! {

// ── Compression ──────────────────────────────────────────────────────────────
/// The bytes begin like a zstd frame.
pub open spec fn has_magic(block: Seq<u8>) -> bool {
    block.len() >= 4 && block[0] == 0x28 && block[1] == 0xB5 && block[2] == 0x2F && block[3] == 0xFD
}

/// What `zstd::decode_all` makes of the bytes: the decompressed bytes, or `None` where it fails.
pub uninterp spec fn zstd_decoded(bytes: Seq<u8>) -> Option<Seq<u8>>;

/// Decompresses: `zstd::decode_all`, whose error is dropped. The machine's memory is taken to
/// suffice, here as for every other value.
#[verifier::external_body]
pub(crate) fn zstd_decode(bytes: &[u8]) -> (raw: Option<Vec<u8>>)
    ensures
        match raw {
            Some(v) => zstd_decoded(bytes@) == Some(v@),
            None => zstd_decoded(bytes@) is None,
        },
{
    zstd::decode_all(bytes).ok()
}

/// Compresses: `zstd::encode_all`, whose error is dropped. It succeeds on every slice of bytes: at
/// these levels the compressor gives an error only where the machine's memory does not suffice,
/// which is left aside, as in `zstd_decode`. It writes one zstd frame, whose header begins with the
/// magic number and which `zstd::decode_all` reads back. Which bytes follow is left open: they are
/// the compressor's choice, and the level only trades their number for time.
#[verifier::external_body]
pub(crate) fn zstd_encode(raw: &[u8], level: i32) -> (packed: Option<Vec<u8>>)
    requires
        1 <= level <= 19,
    ensures
        packed is Some,
        packed matches Some(v) ==> zstd_decoded(v@) == Some(raw@),
        packed matches Some(v) ==> has_magic(v@),
{
    zstd::encode_all(raw, level).ok()
}

// ── Hashing ──────────────────────────────────────────────────────────────────
/// The digest that `md5::compute` gives.
pub uninterp spec fn md5_digest(data: Seq<u8>) -> Seq<u8>;

/// The sixteen bytes of the digest: `md5::compute`.
#[verifier::external_body]
pub(crate) fn md5_of(data: &[u8]) -> (digest: Vec<u8>)
    ensures
        digest@ == md5_digest(data@),
        digest@.len() == 16,
{
    md5::compute(data).0.to_vec()
}

// ── URLs ─────────────────────────────────────────────────────────────────────
/// What `Url::parse` on `base` and then `Url::join` with `link` give, as text; `None` where either
/// fails.
pub uninterp spec fn url_joined(base: Seq<char>, link: Seq<char>) -> Option<Seq<char>>;

/// Resolves a link against a URL: `Url::parse`, then `Url::join`.
#[verifier::external_body]
pub(crate) fn url_join(base: &str, link: &str) -> (url: Option<String>)
    ensures
        match url {
            Some(u) => url_joined(base@, link@) == Some(u@),
            None => url_joined(base@, link@) is None,
        },
{
    let url = reqwest::Url::parse(base).ok()?.join(link).ok()?;
    Some(url.to_string())
}

/// What `Url::path_segments` gives for the URL that `Url::parse` reads; `None` where either gives
/// nothing.
pub uninterp spec fn url_path_segments(url: Seq<char>) -> Option<Seq<Seq<char>>>;

/// The segments of a URL's path, percent-encoded as they stand: `Url::parse`, then
/// `Url::path_segments`. There is at least one, which may be empty.
#[verifier::external_body]
pub(crate) fn url_segments(url: &str) -> (segments: Option<Vec<String>>)
    ensures
        match segments {
            Some(v) => url_path_segments(url@) == Some(texts(v@)) && v@.len() >= 1,
            None => url_path_segments(url@) is None,
        },
{
    let parsed = reqwest::Url::parse(url).ok()?;
    Some(parsed.path_segments()?.map(|s| s.to_string()).collect())
}

// ── HTML ─────────────────────────────────────────────────────────────────────
/// A link: its target, where it has one, and its text.
pub struct HtmlLink {
    pub href: Option<String>,
    pub text: String,
}

/// A cell of a table row: its text and its links.
pub struct HtmlCell {
    pub text: String,
    pub links: Vec<HtmlLink>,
}

/// What a link holds.
#[verifier::ext_equal]
pub struct LinkView {
    pub href: Option<Seq<char>>,
    pub text: Seq<char>,
}

/// What a cell holds.
#[verifier::ext_equal]
pub struct CellView {
    pub text: Seq<char>,
    pub links: Seq<LinkView>,
}

impl View for HtmlLink {
    type V = LinkView;

    open spec fn view(&self) -> LinkView {
        LinkView {
            href: match self.href {
                Some(h) => Some(h@),
                None => None,
            },
            text: self.text@,
        }
    }
}

impl View for HtmlCell {
    type V = CellView;

    open spec fn view(&self) -> CellView {
        CellView { text: self.text@, links: self.links@.map_values(|l: HtmlLink| l@) }
    }
}

/// What the cells of rows hold.
pub open spec fn table_view(rows: Seq<Vec<HtmlCell>>) -> Seq<Seq<CellView>> {
    rows.map_values(|row: Vec<HtmlCell>| row@.map_values(|cell: HtmlCell| cell@))
}

/// How many bytes of a page are read at most. The parser's buffers hold less than two gigabytes,
/// and it writes up to three bytes where one stands in the page.
pub const MAX_PAGE: usize = 0x2000_0000;

/// The rows that `scraper` selects in the document, in the order in which it gives them: for each
/// element that `row` selects, the elements that `cell` selects in it, each with its text and with
/// the elements that `link` selects in it: the value of their attribute `target` and their text.
pub uninterp spec fn html_rows(
    body: Seq<char>,
    row: Seq<char>,
    cell: Seq<char>,
    link: Seq<char>,
    target: Seq<char>,
) -> Seq<Seq<CellView>>;

/// Reads table rows out of a document: `Html::parse_document`, `Selector::parse` and `select`. The
/// type selectors `td` and `a` and the descendant selector `table tr` parse.
#[verifier::external_body]
pub(crate) fn html_table(body: &str, row: &str, cell: &str, link: &str, target: &str) -> (rows:
    Option<Vec<Vec<HtmlCell>>>)
    requires
        encode_utf8(body@).len() <= MAX_PAGE,
        row@ == "table tr"@,
        cell@ == "td"@,
        link@ == "a"@,
    ensures
        rows is Some,
        rows matches Some(v) ==> html_rows(body@, row@, cell@, link@, target@) == table_view(v@),
{
    let row = scraper::Selector::parse(row).ok()?;
    let cell = scraper::Selector::parse(cell).ok()?;
    let link = scraper::Selector::parse(link).ok()?;
    let doc = scraper::Html::parse_document(body);
    let link_of = |a: scraper::ElementRef| HtmlLink {
        href: a.value().attr(target).map(|h| h.to_string()),
        text: a.text().collect(),
    };
    let cell_of = |c: scraper::ElementRef| HtmlCell {
        text: c.text().collect(),
        links: c.select(&link).map(link_of).collect(),
    };
    Some(doc.select(&row).map(|r| r.select(&cell).map(cell_of).collect()).collect())
}

} // verus!
