//! What the terminal program writes.

use crate::browser::{is_in, line_in, way, Crumb};
use crate::format::{decimal_size, fmt_size_tight};
use crate::listing::ListEntry;
use crate::queue::QueueJob;
use crate::strmap::StrSet;
use crate::text::{
    clip, clipped, concat, concat3, decimal, decimal_text, join, joined, pad, padded,
    same_text, split_last, texts,
};
use crate::tui::{parent_of, Found, Pane};
use vstd::prelude::*;
use vstd::utf8::encode_utf8;

verus! {

// ── Bars ─────────────────────────────────────────────────────────────────────
/// The line at the top. `speed` is the speed of all downloads.
pub fn header(active: usize, queued: usize, speed: &str, dest: &str) -> (text: String)
    ensures
        text@ == if active > 0 {
            " myrient-dl-cli  │  ↓ "@ + speed@ + "  │  "@ + decimal(active as nat)
                + " active  │  "@ + decimal(queued as nat) + " queued  │  dest: "@ + dest@
        } else {
            " myrient-dl-cli  │  "@ + decimal(queued as nat) + " queued  │  dest: "@ + dest@
        },
{
    let count = decimal_text(queued as u64);
    if active > 0 {
        let a = concat3(" myrient-dl-cli  │  ↓ ", speed, "  │  ");
        let b = concat3(a.as_str(), decimal_text(active as u64).as_str(), " active  │  ");
        let c = concat3(b.as_str(), count.as_str(), " queued  │  dest: ");
        concat(c.as_str(), dest)
    } else {
        let a = concat3(" myrient-dl-cli  │  ", count.as_str(), " queued  │  dest: ");
        concat(a.as_str(), dest)
    }
}

/// What the crumbs show.
pub open spec fn crumb_labels(crumbs: Seq<(Seq<char>, Seq<char>)>) -> Seq<Seq<char>> {
    crumbs.map_values(|c: (Seq<char>, Seq<char>)| c.0)
}

/// The way to the open folder.
pub fn crumb_line(crumbs: &Vec<Crumb>) -> (text: String)
    ensures
        text@ == if crumbs@.len() == 0 {
            "/files/"@
        } else {
            "/files/ › "@ + joined(crumb_labels(way(crumbs@)), " › "@)
        },
{
    if crumbs.len() == 0 {
        return "/files/".to_owned();
    }
    let mut labels: Vec<String> = Vec::new();
    let mut i: usize = 0;
    while i < crumbs.len()
        invariant
            i <= crumbs@.len(),
            labels@.len() == i,
            forall|k: int| 0 <= k < i ==> (#[trigger] labels@[k])@ == crumbs@[k].label@,
        decreases crumbs@.len() - i,
    {
        labels.push(crumbs[i].label.clone());
        i = i + 1;
    }
    assert(texts(labels@) =~= crumb_labels(way(crumbs@)));
    concat("/files/ › ", join(&labels, " › ").as_str())
}

/// The line of the search.
pub fn search_bar(query: &str) -> (text: String)
    ensures
        text@ == "/ "@ + query@ + "_"@,
{
    concat3("/ ", query, "_")
}

/// Whether the line of the filter is there.
pub fn shows_filter(filtering: bool, query: &str) -> (yes: bool)
    ensures
        yes == (filtering || query@.len() > 0),
{
    filtering || query.unicode_len() > 0
}

/// The line of the filter.
pub fn filter_bar(query: &str, filtering: bool) -> (text: String)
    ensures
        text@ == "filter: "@ + query@ + if filtering {
            "_"@
        } else {
            Seq::empty()
        },
{
    let head = concat("filter: ", query);
    if filtering {
        concat(head.as_str(), "_")
    } else {
        assert(head@ =~= head@ + Seq::<char>::empty());
        head
    }
}

/// What the keys do, by what is typed.
pub open spec fn key_help(filtering: bool, searching: bool) -> Seq<char> {
    if filtering {
        " Type to filter  Esc clear  ↑↓ navigate"@
    } else if searching {
        " Type to search  Esc clear  ↑↓ navigate  Enter go to folder"@
    } else {
        " ↑↓/jk nav  Enter open  Space sel  a all  q queue  f filter  / search  Tab switch  s start  x remove  Q quit"@
    }
}

/// The line at the bottom.
pub fn status_bar(message: &str, filtering: bool, searching: bool) -> (text: String)
    ensures
        text@ == " "@ + message@ + "  │  "@ + key_help(filtering, searching),
{
    let keys: &str = if filtering {
        " Type to filter  Esc clear  ↑↓ navigate"
    } else if searching {
        " Type to search  Esc clear  ↑↓ navigate  Enter go to folder"
    } else {
        " ↑↓/jk nav  Enter open  Space sel  a all  q queue  f filter  / search  Tab switch  s start  x remove  Q quit"
    };
    let head = concat3(" ", message, "  │  ");
    concat(head.as_str(), keys)
}

/// The line under the queue while nothing downloads.
pub fn idle_line(paused: bool) -> (text: &'static str)
    ensures
        text@ == if paused {
            " ⏸ paused  (s to start)"@
        } else {
            " ▶ running"@
        },
{
    if paused {
        " ⏸ paused  (s to start)"
    } else {
        " ▶ running"
    }
}

/// The line under the queue while files download.
pub fn gauge_label(speed: &str, eta: &str, active: usize) -> (text: String)
    ensures
        text@ == " ↓ "@ + speed@ + "  ETA "@ + eta@ + "  ("@ + decimal(active as nat)
            + " active)"@,
{
    let a = concat3(" ↓ ", speed, "  ETA ");
    let b = concat3(a.as_str(), eta, "  (");
    concat3(b.as_str(), decimal_text(active as u64).as_str(), " active)")
}

/// The title of a pane.
pub fn pane_title(pane: Pane, active: Pane) -> (text: &'static str)
    ensures
        text@ == match (pane, active) {
            (Pane::Browser, Pane::Browser) => " [ BROWSER ] "@,
            (Pane::Browser, Pane::Queue) => " BROWSER "@,
            (Pane::Queue, Pane::Queue) => " [ QUEUE ] "@,
            (Pane::Queue, Pane::Browser) => " QUEUE "@,
        },
{
    match (pane, active) {
        (Pane::Browser, Pane::Browser) => " [ BROWSER ] ",
        (Pane::Browser, Pane::Queue) => " BROWSER ",
        (Pane::Queue, Pane::Queue) => " [ QUEUE ] ",
        (Pane::Queue, Pane::Browser) => " QUEUE ",
    }
}

// ── Rows ─────────────────────────────────────────────────────────────────────
/// The name column of a result.
pub fn found_name(found: &Found) -> (text: String)
    ensures
        text@ == " "@ + padded(clipped(found@.0, 50), 50),
{
    concat(" ", pad(clip(found.name.as_str(), 50).as_str(), 50).as_str())
}

/// The folder of a result.
pub fn found_parent(found: &Found) -> (text: String)
    ensures
        text@ == parent_of(found@.1),
{
    match split_last(found.path.as_str(), '/') {
        Some((p, _)) => p,
        None => {
            let none = String::new();
            assert(none@ =~= Seq::<char>::empty());
            none
        },
    }
}

/// The folder column of a result.
pub fn parent_column(parent: &str) -> (text: String)
    ensures
        text@ == "  "@ + clipped(parent@, 30),
{
    concat("  ", clip(parent, 30).as_str())
}

/// How a line of the open folder is marked.
#[derive(Clone, Copy, PartialEq, Eq, Structural)]
pub enum Mark {
    Folder,
    Downloaded,
    File,
}

/// How a line of the open folder is marked.
pub fn line_mark(e: &ListEntry, downloaded: &StrSet) -> (mark: Mark)
    requires
        downloaded.wf(),
    ensures
        mark == if e.is_folder {
            Mark::Folder
        } else if is_in(downloaded@, e@.url) {
            Mark::Downloaded
        } else {
            Mark::File
        },
{
    if e.is_folder {
        Mark::Folder
    } else if line_in(downloaded, e) {
        Mark::Downloaded
    } else {
        Mark::File
    }
}

impl Mark {
    /// The sign before a line.
    pub fn icon(self) -> (text: &'static str)
        ensures
            text@ == match self {
                Mark::Folder => " ▶ "@,
                Mark::Downloaded => " ✓ "@,
                Mark::File => " · "@,
            },
    {
        match self {
            Mark::Folder => " ▶ ",
            Mark::Downloaded => " ✓ ",
            Mark::File => " · ",
        }
    }
}

/// The name column of a line.
pub fn line_name(name: &str, selected: bool) -> (text: String)
    ensures
        text@ == (if selected {
            "[✓] "@
        } else {
            "    "@
        }) + padded(clipped(name@, 55), 55),
{
    let prefix: &str = if selected {
        "[✓] "
    } else {
        "    "
    };
    concat(prefix, pad(clip(name, 55).as_str(), 55).as_str())
}

/// The size column of a line.
pub fn line_size(size: &str) -> (text: String)
    ensures
        text@ == if size@.len() == 0 || size@ == "-"@ {
            Seq::empty()
        } else {
            " "@ + size@
        },
{
    if size.unicode_len() == 0 || same_text(size, "-") {
        let none = String::new();
        assert(none@ =~= Seq::<char>::empty());
        none
    } else {
        concat(" ", size)
    }
}

/// The box before a job.
pub fn job_box(selected: bool) -> (text: &'static str)
    ensures
        text@ == if selected {
            " [✓] "@
        } else {
            "     "@
        },
{
    if selected {
        " [✓] "
    } else {
        "     "
    }
}

/// The name column of a job.
pub fn job_name(name: &str) -> (text: String)
    ensures
        text@ == padded(clipped(name@, 28), 28),
{
    pad(clip(name, 28).as_str(), 28)
}

/// The status column of a job.
pub fn job_status(job: &QueueJob) -> (text: String)
    ensures
        text@ == padded(job@.status.plain_text(), 8),
{
    pad(job.status.plain_label(), 8)
}

/// The size column of a job.
pub fn job_size(job: &QueueJob) -> (text: String)
    ensures
        text@ == if job.file_size > 0 {
            " "@ + decimal_size(job.file_size as nat, ""@)
        } else {
            Seq::empty()
        },
{
    if job.file_size > 0 {
        concat(" ", fmt_size_tight(job.file_size).as_str())
    } else {
        let none = String::new();
        assert(none@ =~= Seq::<char>::empty());
        none
    }
}

/// A text that fits its column is shown whole, and the column is filled.
pub proof fn law_short_names_whole(name: Seq<char>, n: nat)
    requires
        encode_utf8(name).len() <= n,
    ensures
        clipped(name, n) == name,
        padded(name, n).len() >= n,
        padded(name, n).take(name.len() as int) == name,
{
    assert(padded(name, n).take(name.len() as int) =~= name);
}

} // verus!
