//! The queue, the download manager and single downloads.

use myrient_dl::dest::{estimated_size, guess_dest_path, low_space, names_of};
use myrient_dl::generated_dirs::{persist_folder, LocalIndex};
use myrient_dl::manager::{
    begin_download, begin_plain, close_job, end_plain, keep_running, note_check, note_downloaded,
    note_end, on_command, should_kick, start_job, still_in_hand, Command, Reaction,
};
use myrient_dl::queue::{
    active_ids, add_to_queue, count_jobs, find_job, job_path, keep_selected, next_id,
    pause_all_active, pause_job, pick_jobs, queue_ids, queue_scan, queue_urls, remove_from_queue,
    remove_jobs, remove_queue_sel, resume_job, save_queue, set_status, sync_with_queue, time_id,
    JobStatus, Kind, QueueJob, ScannedFile,
};
use myrient_dl::settings::{DlSettings, PlainSettings, Settings};
use myrient_dl::strmap::StrSet;
use myrient_dl::transfer::{
    backoff_secs, no_file_message, no_folder_message, no_path_message, note_retry, on_failure,
    on_response, on_stream_end, range_header, Action, Event, Step, Transfer,
};

fn job(id: &str, status: JobStatus) -> QueueJob {
    QueueJob {
        id: id.to_string(),
        url: format!("https://h/{}", id),
        name: format!("{}.zip", id),
        path: "/".to_string(),
        status,
        resume: false,
        retry_count: 0,
        verified: None,
        file_size: 100,
    }
}

fn failed() -> JobStatus {
    JobStatus::Error("no".to_string())
}

fn ids(queue: &Vec<QueueJob>) -> Vec<&str> {
    queue.iter().map(|j| j.id.as_str()).collect()
}

fn set(list: &[&str]) -> StrSet {
    StrSet::of(&list.iter().map(|s| s.to_string()).collect())
}

#[test]
fn labels() {
    let all = vec![
        (JobStatus::Waiting, "○ waiting", "waiting", false),
        (JobStatus::Spooling, "◌ spooling", "spooling", true),
        (JobStatus::Downloading, "⟳ active", "active", true),
        (JobStatus::Paused, "⏸ paused", "paused", false),
        (JobStatus::Verifying, "⧗ verifying", "verify", true),
        (JobStatus::Done, "✓ done", "done", false),
        (failed(), "✕ error", "error", false),
    ];
    for (status, label, plain, active) in all {
        assert_eq!(status.label(), label);
        assert_eq!(status.plain_label(), plain);
        assert_eq!(status.is_active(), active);
    }
    assert!(JobStatus::Waiting.is_waiting());
    assert!(JobStatus::Paused.is_paused());
    assert!(JobStatus::Done.is_done());
    assert!(failed().is_error());
    assert!(JobStatus::Spooling.is_spooling());
    assert!(!JobStatus::Downloading.is_spooling());
}

#[test]
fn saved_queue_holds_no_active_job() {
    let queue = vec![
        job("a", JobStatus::Downloading),
        job("b", JobStatus::Waiting),
        job("c", failed()),
    ];
    let saved = save_queue(&queue);
    assert!(saved[0].status.is_waiting() && saved[0].resume);
    assert!(saved[1].status.is_waiting() && !saved[1].resume);
    assert!(saved[2].status.is_error());
    assert_eq!(saved[0].url, "https://h/a");
    let again = save_queue(&saved);
    assert!(again[0].resume && again[0].status.is_waiting());
}

#[test]
fn jobs_are_found_by_id() {
    let queue = vec![job("a", JobStatus::Waiting), job("b", JobStatus::Waiting)];
    assert_eq!(find_job(&queue, "b"), Some(1));
    assert_eq!(find_job(&queue, "c"), None);
}

#[test]
fn pause_and_resume() {
    let mut queue = vec![job("a", JobStatus::Downloading), job("b", JobStatus::Downloading)];
    pause_job(&mut queue, "b");
    assert!(queue[1].status.is_paused() && queue[1].resume);
    assert!(queue[0].status.is_active() && !queue[0].resume);
    resume_job(&mut queue, "b");
    assert!(queue[1].status.is_waiting() && queue[1].resume);
    resume_job(&mut queue, "nobody");
    set_status(&mut queue, "a", failed());
    assert!(queue[0].status.is_error());
}

#[test]
fn all_active_jobs_are_paused() {
    let mut queue = vec![
        job("a", JobStatus::Downloading),
        job("b", JobStatus::Waiting),
        job("c", JobStatus::Verifying),
    ];
    assert_eq!(active_ids(&queue), vec!["a", "c"]);
    assert_eq!(pause_all_active(&mut queue), vec!["a", "c"]);
    assert!(queue[0].status.is_paused() && queue[2].status.is_paused());
    assert!(queue[1].status.is_waiting());
    assert_eq!(active_ids(&queue).len(), 0);
}

#[test]
fn jobs_are_counted_by_kind() {
    let queue = vec![
        job("a", JobStatus::Downloading),
        job("b", JobStatus::Spooling),
        job("c", JobStatus::Waiting),
        job("d", failed()),
        job("e", JobStatus::Done),
        job("f", JobStatus::Paused),
    ];
    assert_eq!(count_jobs(&queue, Kind::Active), 2);
    assert_eq!(count_jobs(&queue, Kind::Spooling), 1);
    assert_eq!(count_jobs(&queue, Kind::Waiting), 1);
    assert_eq!(count_jobs(&queue, Kind::Failed), 1);
    assert_eq!(count_jobs(&queue, Kind::Done), 1);
    assert_eq!(count_jobs(&queue, Kind::Paused), 1);
}

#[test]
fn identifiers() {
    assert_eq!(next_id(0), "00000000");
    assert_eq!(next_id(255), "000000ff");
    assert_eq!(next_id(0x1_0000_0000), "100000000");
    assert_eq!(time_id(0x18f, 16), "18f10");
    assert_ne!(next_id(1), next_id(2));
}

#[test]
fn a_file_is_queued_once() {
    let mut queue = vec![];
    let mut queued = StrSet::new();
    let mut add = |id: &str| {
        add_to_queue(
            &mut queue,
            &mut queued,
            id.to_string(),
            "https://h/x".to_string(),
            "x".to_string(),
            job_path(""),
            9,
        )
    };
    assert!(add("1"));
    assert!(!add("2"));
    assert_eq!(ids(&queue), vec!["1"]);
    assert_eq!(queue[0].path, "/");
    assert_eq!(queue[0].file_size, 9);
    assert!(queue[0].status.is_waiting() && !queue[0].resume);
    assert_eq!(queue[0].retry_count, 0);
    assert!(queue[0].verified.is_none());
    assert!(queued.contains("https://h/x"));
    assert_eq!(job_path("No-Intro/"), "No-Intro/");
}

fn scanned(name: &str) -> ScannedFile {
    ScannedFile { url: format!("https://h/{}", name), name: name.to_string(), file_size: 3 }
}

#[test]
fn scanned_files_are_queued() {
    let mut queue = vec![];
    let files = vec![scanned("a"), scanned("b"), scanned("c"), scanned("d")];
    let n = queue_scan(
        &mut queue,
        &files,
        &set(&["https://h/b"]),
        &set(&["https://h/c"]),
        "No-Intro/GB/",
        7,
    );
    assert_eq!(n, 2);
    assert_eq!(ids(&queue), vec!["00000007", "00000008"]);
    assert_eq!(queue[1].name, "d");
    assert_eq!(queue[0].path, "No-Intro/GB");
    assert_eq!(queue[0].file_size, 3);
}

#[test]
fn interrupted_jobs_start_first() {
    let mut late = job("late", JobStatus::Waiting);
    late.resume = true;
    let queue = vec![
        job("busy", JobStatus::Downloading),
        job("a", JobStatus::Waiting),
        job("p", JobStatus::Paused),
        job("b", JobStatus::Waiting),
        late,
    ];
    assert_eq!(ids(&pick_jobs(&queue, 3, false)), vec!["late", "a"]);
    assert_eq!(ids(&pick_jobs(&queue, 16, false)), vec!["late", "a", "b"]);
    assert_eq!(pick_jobs(&queue, 1, false).len(), 0);
    assert_eq!(pick_jobs(&queue, 0, false).len(), 0);
    assert_eq!(pick_jobs(&queue, 16, true).len(), 0);
}

#[test]
fn removed_jobs_can_be_queued_again() {
    let mut queue = vec![job("a", JobStatus::Waiting), job("b", JobStatus::Waiting)];
    let mut queued = queue_urls(&queue);
    remove_from_queue(&mut queue, &mut queued, "a");
    assert_eq!(ids(&queue), vec!["b"]);
    assert!(!queued.contains("https://h/a"));
    remove_from_queue(&mut queue, &mut queued, "nobody");
    assert_eq!(queue.len(), 1);
    remove_jobs(&mut queue, &mut queued, &vec!["b".to_string(), "c".to_string()]);
    assert!(queue.is_empty() && queued.is_empty());
}

#[test]
fn only_the_selection_is_kept() {
    let mut queue = vec![
        job("a", JobStatus::Waiting),
        job("b", JobStatus::Downloading),
        job("c", JobStatus::Waiting),
    ];
    let mut queued = queue_urls(&queue);
    let mut selected = set(&["c"]);
    let removed = keep_selected(&mut queue, &mut queued, &mut selected);
    assert_eq!(removed, vec!["a", "b"]);
    assert_eq!(ids(&queue), vec!["c"]);
    assert!(selected.is_empty());
    assert!(queued.contains("https://h/c") && queued.len() == 1);
}

#[test]
fn selected_jobs_are_removed() {
    let mut queue = vec![job("a", JobStatus::Waiting), job("b", JobStatus::Waiting)];
    let mut queued = queue_urls(&queue);
    queued.insert("https://h/elsewhere".to_string());
    let mut selected = set(&["a", "gone"]);
    remove_queue_sel(&mut queue, &mut queued, &mut selected);
    assert_eq!(ids(&queue), vec!["b"]);
    assert!(selected.is_empty());
    assert_eq!(queued.len(), 1);
}

#[test]
fn panes_follow_the_queue() {
    let queue = vec![job("a", JobStatus::Waiting)];
    let mut queued = set(&["https://h/a", "https://h/gone"]);
    let mut selected = set(&["a", "gone"]);
    sync_with_queue(&queue, &mut queued, &mut selected);
    assert_eq!((queued.len(), selected.len()), (1, 1));
    assert!(queue_ids(&queue).contains("a"));
}

#[test]
fn waits_double() {
    let secs: Vec<u64> = (0..9).map(backoff_secs).collect();
    assert_eq!(secs, vec![0, 2, 4, 8, 16, 32, 64, 64, 64]);
}

#[test]
fn retries_run_out() {
    assert!(matches!(on_failure(0, 3, "x".to_string()), Step::Retry(1)));
    assert!(matches!(on_failure(2, 3, "x".to_string()), Step::Retry(3)));
    match on_failure(3, 3, "x".to_string()) {
        Step::Finish(JobStatus::Error(m)) => assert_eq!(m, "x"),
        _ => panic!("one attempt too many"),
    }
    assert!(matches!(on_stream_end(0, 0, None), Step::Finish(JobStatus::Done)));
    assert!(matches!(on_stream_end(0, 1, Some("cut".to_string())), Step::Retry(1)));
}

#[test]
fn ranges_start_after_what_is_there() {
    assert_eq!(range_header(0), None);
    assert_eq!(range_header(1234), Some("bytes=1234-".to_string()));
}

#[test]
fn answers() {
    assert!(matches!(
        on_response(0, 3, 10, 416, "416 Range Not Satisfiable", None),
        Step::Finish(JobStatus::Done)
    ));
    assert!(matches!(
        on_response(0, 3, 10, 206, "206 Partial Content", Some(90)),
        Step::Stream { append: true, total: Some(100) }
    ));
    assert!(matches!(
        on_response(0, 3, 0, 206, "206 Partial Content", Some(90)),
        Step::Stream { append: false, total: Some(90) }
    ));
    assert!(matches!(
        on_response(0, 3, 10, 200, "200 OK", Some(100)),
        Step::Stream { append: false, total: Some(100) }
    ));
    assert!(matches!(
        on_response(0, 3, 10, 200, "200 OK", None),
        Step::Stream { append: false, total: None }
    ));
    assert!(matches!(
        on_response(0, 3, u64::MAX, 200, "200 OK", Some(100)),
        Step::Stream { append: false, total: Some(100) }
    ));
    assert!(matches!(on_response(0, 3, 0, 503, "503 Service Unavailable", None), Step::Retry(1)));
    match on_response(3, 3, 0, 404, "404 Not Found", None) {
        Step::Finish(JobStatus::Error(m)) => assert_eq!(m, "HTTP 404 Not Found"),
        _ => panic!("one attempt too many"),
    }
}

#[test]
fn messages() {
    assert_eq!(no_path_message("u"), "Cannot determine output path for u");
    assert_eq!(no_folder_message("denied"), "Cannot create directory: denied");
    assert_eq!(no_file_message("/p", "denied"), "Cannot open /p: denied");
}

#[test]
fn a_fresh_download() {
    let (mut t, first) = Transfer::start(false, 0, 3);
    assert!(matches!(first, Action::CheckCancel));
    assert!(matches!(t.step(Event::Done), Action::Place));
    assert!(matches!(t.step(Event::Done), Action::Ask(None)));
    let answer = Event::Answer { code: 200, reason: "200 OK".to_string(), length: Some(5) };
    assert!(matches!(t.step(answer), Action::Open { append: false }));
    assert!(matches!(t.step(Event::Done), Action::Take { existing: 0, total: Some(5) }));
    assert!(matches!(t.step(Event::Done), Action::Finish(JobStatus::Done)));
    assert!(matches!(t.step(Event::Done), Action::Nothing));
}

#[test]
fn an_interrupted_download_continues() {
    let (mut t, _) = Transfer::start(true, 0, 3);
    assert!(matches!(t.step(Event::Done), Action::Place));
    assert!(matches!(t.step(Event::Done), Action::Measure));
    match t.step(Event::Length(40)) {
        Action::Ask(Some(range)) => assert_eq!(range, "bytes=40-"),
        _ => panic!("not continued"),
    }
    let answer = Event::Answer { code: 206, reason: "206".to_string(), length: Some(60) };
    assert!(matches!(t.step(answer), Action::Open { append: true }));
    assert!(matches!(t.step(Event::Done), Action::Take { existing: 40, total: Some(100) }));
    match t.step(Event::BrokeOff("reset".to_string())) {
        Action::Sleep { attempt, secs } => assert_eq!((attempt, secs), (1, 2)),
        _ => panic!("no second attempt"),
    }
    assert!(matches!(t.step(Event::Done), Action::CheckCancel));
    assert!(matches!(t.step(Event::Cancelled), Action::Interrupt));
    assert!(matches!(t.step(Event::Done), Action::Nothing));
}

#[test]
fn a_download_that_cannot_be_placed_fails() {
    let (mut t, _) = Transfer::start(false, 0, 3);
    assert!(matches!(t.step(Event::Done), Action::Place));
    match t.step(Event::Refused(no_path_message("u"))) {
        Action::Finish(JobStatus::Error(m)) => assert_eq!(m, "Cannot determine output path for u"),
        _ => panic!("went on"),
    }
}

#[test]
fn all_attempts_are_made() {
    let (mut t, mut action) = Transfer::start(false, 0, 2);
    let mut asked = 0;
    loop {
        let event = match action {
            Action::Ask(_) => {
                asked += 1;
                Event::NoAnswer("down".to_string())
            }
            Action::Measure => Event::Length(0),
            Action::Finish(status) => {
                assert!(status.is_error());
                break;
            }
            _ => Event::Done,
        };
        action = t.step(event);
    }
    assert_eq!(asked, 3);
}

#[test]
fn retries_are_noted() {
    let mut queue = vec![job("a", JobStatus::Downloading)];
    note_retry(&mut queue, "a", 2);
    assert_eq!(queue[0].retry_count, 2);
    note_retry(&mut queue, "b", 3);
    assert_eq!(queue[0].retry_count, 2);
}

#[test]
fn commands() {
    assert!(matches!(on_command(Command::Shutdown, 4), Reaction::Stop));
    assert!(matches!(
        on_command(Command::SetConcurrent(9), 4),
        Reaction::Start { concurrent: 9, fresh: true }
    ));
    assert!(matches!(
        on_command(Command::Kick, 4),
        Reaction::Start { concurrent: 4, fresh: false }
    ));
    match on_command(Command::Cancel("a".to_string()), 4) {
        Reaction::Interrupt(id) => assert_eq!(id, "a"),
        _ => panic!("not interrupted"),
    }
}

#[test]
fn manager_is_woken_when_there_is_work() {
    let queue = vec![job("a", JobStatus::Waiting)];
    assert!(should_kick(&queue, false, 3, 4));
    assert!(!should_kick(&queue, true, 3, 4));
    assert!(!should_kick(&queue, false, 4, 4));
    assert!(!should_kick(&vec![job("a", JobStatus::Paused)], false, 0, 4));
}

#[test]
fn a_job_runs_through() {
    let mut queue = vec![job("a", JobStatus::Waiting), job("b", JobStatus::Waiting)];
    let mut running = StrSet::new();
    let mut active = 0;
    assert!(start_job(&mut queue, &mut running, &mut active, "a"));
    assert_eq!(active, 1);
    assert!(queue[0].status.is_spooling());
    assert!(!start_job(&mut queue, &mut running, &mut active, "a"));
    begin_download(&mut queue, "a");
    assert!(matches!(queue[0].status, JobStatus::Downloading));
    begin_download(&mut queue, "b");
    assert!(queue[1].status.is_waiting());
    assert!(still_in_hand(&queue, "a") && !still_in_hand(&queue, "b"));
    note_check(&mut queue, "a", Some(true));
    assert_eq!(queue[0].verified, Some(true));
    assert!(close_job(&mut queue, &mut active, "a"));
    assert_eq!(ids(&queue), vec!["b"]);
    assert_eq!(active, 0);
    keep_running(&mut running, &queue);
    assert!(running.is_empty());
}

#[test]
fn an_interruption_is_not_overwritten() {
    let mut queue = vec![job("a", JobStatus::Downloading), job("b", JobStatus::Downloading)];
    pause_job(&mut queue, "a");
    note_end(&mut queue, "a", failed());
    note_end(&mut queue, "b", failed());
    assert!(queue[0].status.is_paused());
    assert!(queue[1].status.is_error());
    let mut active = 2;
    assert!(!close_job(&mut queue, &mut active, "a"));
    assert_eq!(queue.len(), 2);
    assert_eq!(active, 1);
}

#[test]
fn the_terminal_runs_jobs() {
    let mut queue = vec![job("a", JobStatus::Waiting)];
    queue[0].resume = true;
    let mut active = 0;
    begin_plain(&mut queue, &mut active, "a");
    assert!(queue[0].status.is_spooling());
    assert_eq!(active, 1);
    end_plain(&mut queue, &mut active, "a", JobStatus::Done);
    assert!(queue[0].status.is_done() && !queue[0].resume);
    assert_eq!(active, 0);
    end_plain(&mut queue, &mut active, "a", failed());
    assert_eq!(active, 0);
}

#[test]
fn folder_structure_is_kept() {
    let url = "https://myrient.erista.me/files/No-Intro/Game%20Boy/Tetris%20%28World%29.zip";
    assert_eq!(
        guess_dest_path(url, false),
        Some(vec!["Game Boy".to_string(), "Tetris (World).zip".to_string()])
    );
    assert_eq!(guess_dest_path("https://myrient.erista.me/files/No-Intro/", false), None);
    assert_eq!(guess_dest_path("no address", false), None);
    assert_eq!(guess_dest_path("mailto:someone", false), None);
    let segs = vec!["files".to_string(), "T".to_string(), "".to_string(), "x%4".to_string()];
    assert_eq!(names_of(&segs, false), Some(vec!["x%".to_string()]));
    assert_eq!(names_of(&segs, true), Some(vec!["x@".to_string()]));
}

#[test]
fn no_address_leads_out_of_the_destination() {
    for name in ["%2Fetc%2Fx", "..%2F..%2Fx", "a%2F..%2Fb", "a%2F"] {
        let url = format!("https://myrient.erista.me/files/A/{}", name);
        assert_eq!(guess_dest_path(&url, false), None);
        assert_eq!(guess_dest_path(&url, true), None);
    }
    let segs = |name: &str| vec!["files".to_string(), "A".to_string(), name.to_string(), "x".to_string()];
    for name in [".", "..", "%2e%2e", "%2E"] {
        assert_eq!(names_of(&segs(name), false), None);
    }
    assert_eq!(names_of(&segs("..."), false), Some(vec!["...".to_string(), "x".to_string()]));
    assert_eq!(names_of(&segs(".x"), true), Some(vec![".x".to_string(), "x".to_string()]));
}

#[test]
fn an_escaped_slash_divides_names() {
    let url = "https://myrient.erista.me/files/A/AC%2FDC.zip";
    for loose in [false, true] {
        assert_eq!(guess_dest_path(url, loose), Some(vec!["AC".to_string(), "DC.zip".to_string()]));
    }
}

#[test]
fn only_complete_files_are_recorded() {
    let mut queue = vec![job("a", JobStatus::Downloading), job("b", JobStatus::Downloading)];
    note_end(&mut queue, "a", JobStatus::Done);
    note_end(&mut queue, "b", failed());
    let mut active = 2;
    let mut stored = StrSet::new();
    stored.insert("u".to_string());
    let complete = close_job(&mut queue, &mut active, "a");
    let stored = note_downloaded(Some(stored), "a", complete).unwrap();
    assert!(stored.contains("u") && stored.contains("a"));
    assert_eq!(stored.len(), 2);
    let complete = close_job(&mut queue, &mut active, "b");
    assert!(note_downloaded(Some(stored), "b", complete).is_none());
    assert!(note_downloaded(None, "a", true).is_none());
}

#[test]
fn estimated_sizes() {
    let data = persist_folder(&LocalIndex::load(vec![]), "No-Intro", &vec![], 500).unwrap();
    let index = LocalIndex::load(data);
    assert_eq!(estimated_size(&index, "https://myrient.erista.me/files/No-Intro/a.zip"), 500);
    assert_eq!(estimated_size(&index, "https://myrient.erista.me/files/Redump/a.zip"), 0);
    assert_eq!(estimated_size(&index, "no address"), 0);
}

#[test]
fn space_is_tight_below_ten_percent_more() {
    assert!(low_space(100, 109));
    assert!(!low_space(100, 110));
    assert!(!low_space(0, 0));
}

#[test]
fn default_settings() {
    let s = Settings::default();
    assert_eq!(s.dest_path, "~/Downloads/myrient");
    assert_eq!((s.concurrent, s.max_retries), (4, 3));
    assert!(s.verify_checksums && s.queue_paused && !s.light_mode && !s.auto_theme);
    let d = s.for_downloads("/home/x".to_string());
    assert_eq!(d.dest, "/home/x");
    assert_eq!((d.concurrent, d.max_retries), (4, 3));
    assert!(d.verify && d.paused);
    let i = DlSettings::initial("/d".to_string());
    assert_eq!(i.dest, "/d");
    assert_eq!(i.concurrent, 4);
    let p = PlainSettings::default();
    assert_eq!(p.dest_path, "~/Downloads/myrient");
    assert!(p.queue_paused && !p.retro_theme);
}

#[test]
fn theme_follows_the_system_when_asked() {
    let mut s = Settings::default();
    assert!(!s.is_light(true));
    s.light_mode = true;
    assert!(s.is_light(false));
    s.auto_theme = true;
    assert!(!s.is_light(false));
    assert!(s.is_light(true));
}
