//! Browsing, searching, queueing and fetching from a Myrient mirror: the part of the downloader
//! that decides, with its behaviour stated in contracts and proved.

pub mod block;
pub mod browser;
pub mod checksum;
pub mod collect;
pub mod crawl;
pub mod dest;
pub mod dirs_file;
pub mod format;
pub mod generated_dirs;
pub mod index;
pub mod le;
pub mod listing;
pub mod manager;
pub mod outside;
pub mod queue;
pub mod queue_pane;
pub mod search;
pub mod search_tab;
pub mod settings;
pub mod sizes;
pub mod sort;
pub mod strmap;
pub mod text;
pub mod transfer;
pub mod tui;
pub mod tui_text;
pub mod url_text;
