//! Scanning a folder and all that lies under it for files.
//!
//! The scan alternates with fetching: it names the next folder whose listing it needs, and goes on
//! when it is handed that listing.

use crate::listing::{listed, ListEntry, ListRow};
use crate::text::{
    chars_of, concat3, law_trim_end, law_trim_start, string_of, trim_end_of, trim_end_slashes,
    trim_start_of,
};
use crate::url_text::BASE_URL;
use vstd::prelude::*;

verus! {

/// A file that the scan found: its URL, its name, and its size as it is shown.
pub struct FoundFile {
    pub url: String,
    pub name: String,
    pub size: String,
}

/// What the scan has still to do: to scan a folder, given by its URL, or to report a file.
pub enum Pending {
    Folder(String),
    File(FoundFile),
}

#[verifier::ext_equal]
pub struct FileRow {
    pub url: Seq<char>,
    pub name: Seq<char>,
    pub size: Seq<char>,
}

#[verifier::ext_equal]
pub enum Task {
    Folder(Seq<char>),
    File(FileRow),
}

impl View for FoundFile {
    type V = FileRow;

    open spec fn view(&self) -> FileRow {
        FileRow { url: self.url@, name: self.name@, size: self.size@ }
    }
}

impl View for Pending {
    type V = Task;

    open spec fn view(&self) -> Task {
        match self {
            Pending::Folder(url) => Task::Folder(url@),
            Pending::File(f) => Task::File(f@),
        }
    }
}

pub open spec fn found(list: Seq<FoundFile>) -> Seq<FileRow> {
    list.map_values(|f: FoundFile| f@)
}

/// The URL of a folder's subfolder.
pub open spec fn sub_url(url: Seq<char>, href: Seq<char>) -> Seq<char> {
    trim_end_of(url, '/') + "/"@ + href
}

/// The URL of a folder's subfolder.
pub fn sub_folder_url(url: &str, href: &str) -> (sub: String)
    ensures
        sub@ == sub_url(url@, href@),
{
    let base = trim_end_slashes(url);
    concat3(base.as_str(), "/", href)
}

// ── The path of a folder ─────────────────────────────────────────────────────
/// `text` without the copies of `prefix` that it begins with.
pub open spec fn without_prefix(text: Seq<char>, prefix: Seq<char>) -> Seq<char>
    decreases text.len(),
{
    if prefix.len() > 0 && text.len() >= prefix.len() && text.take(prefix.len() as int) == prefix {
        without_prefix(text.skip(prefix.len() as int), prefix)
    } else {
        text
    }
}

/// The path of a folder under the archive's root, without slashes at its ends.
pub open spec fn rel_path(url: Seq<char>) -> Seq<char> {
    trim_start_of(without_prefix(trim_end_of(url, '/'), trim_end_of(BASE_URL@, '/')), '/')
}

fn starts_at(text: &Vec<char>, from: usize, prefix: &Vec<char>) -> (yes: bool)
    requires
        from <= text@.len(),
    ensures
        yes == (text@.skip(from as int).len() >= prefix@.len() && text@.skip(from as int).take(
            prefix@.len() as int,
        ) == prefix@),
{
    let n: usize = text.len();
    if n - from < prefix.len() {
        return false;
    }
    let mut i: usize = 0;
    while i < prefix.len()
        invariant
            n == text@.len(),
            from + prefix@.len() <= n,
            i <= prefix@.len(),
            forall|j: int| 0 <= j < i ==> text@[from + j] == #[trigger] prefix@[j],
        decreases prefix@.len() - i,
    {
        if text[from + i] != prefix[i] {
            assert(text@.skip(from as int).take(prefix@.len() as int)[i as int] != prefix@[i as int]);
            return false;
        }
        i = i + 1;
    }
    assert(text@.skip(from as int).take(prefix@.len() as int) =~= prefix@);
    true
}

/// The path of a folder under the archive's root.
pub fn folder_rel_path(url: &str) -> (rel: String)
    ensures
        rel@ == rel_path(url@),
{
    let trimmed = trim_end_slashes(url);
    let text = chars_of(trimmed.as_str());
    let base = trim_end_slashes(BASE_URL);
    let prefix = chars_of(base.as_str());
    let n: usize = text.len();
    let mut from: usize = 0;
    assert(text@.skip(0) =~= text@);
    while prefix.len() > 0 && starts_at(&text, from, &prefix)
        invariant
            n == text@.len(),
            from <= n,
            without_prefix(text@, prefix@) == without_prefix(text@.skip(from as int), prefix@),
        decreases n - from,
    {
        assert(text@.skip(from as int).skip(prefix@.len() as int) =~= text@.skip(
            from + prefix@.len(),
        ));
        from = from + prefix.len();
    }
    let ghost rest = text@.skip(from as int);
    let mut start: usize = from;
    while start < n && text[start] == '/'
        invariant
            n == text@.len(),
            from <= start <= n,
            trim_start_of(rest, '/') == trim_start_of(text@.skip(start as int), '/'),
        decreases n - start,
    {
        assert(text@.skip(start as int).skip(1) =~= text@.skip(start + 1));
        assert(text@.skip(start as int).drop_first() =~= text@.skip(start + 1));
        start = start + 1;
    }
    let rel = string_of(&text, start, n);
    assert(rel@ =~= text@.skip(start as int));
    rel
}

// ── The scan ─────────────────────────────────────────────────────────────────
/// What a folder's listing adds to the work, in the listing's order.
pub open spec fn tasks_of(url: Seq<char>, listing: Seq<ListRow>) -> Seq<Task>
    decreases listing.len(),
{
    if listing.len() == 0 {
        Seq::empty()
    } else {
        let head = tasks_of(url, listing.drop_last());
        let e = listing.last();
        if e.is_folder {
            head.push(Task::Folder(sub_url(url, e.href)))
        } else {
            match e.url {
                Some(u) => head.push(Task::File(FileRow { url: u, name: e.name, size: e.size })),
                None => head,
            }
        }
    }
}

/// A scan on its way.
pub struct Scan {
    /// What is still to do; what comes next stands last.
    stack: Vec<Pending>,
    files: Vec<FoundFile>,
}

impl Scan {
    /// What is still to do, in its order.
    pub closed spec fn work(&self) -> Seq<Task> {
        self.stack@.map_values(|p: Pending| p@).reverse()
    }

    /// The files found so far, in their order.
    pub closed spec fn files(&self) -> Seq<FileRow> {
        found(self.files@)
    }

    /// A scan of the folder at `url`.
    pub fn new(url: &str) -> (scan: Self)
        ensures
            scan.work() == seq![Task::Folder(url@)],
            scan.files() == Seq::<FileRow>::empty(),
    {
        let mut stack: Vec<Pending> = Vec::new();
        stack.push(Pending::Folder(url.to_owned()));
        let scan = Scan { stack, files: Vec::new() };
        assert(scan.work() =~= seq![Task::Folder(url@)]);
        assert(scan.files() =~= Seq::<FileRow>::empty());
        scan
    }

    /// The next folder whose listing the scan needs; `None` where it is done. The files that come
    /// before that folder are found by then.
    pub fn next(&mut self) -> (url: Option<String>)
        ensures
            match url {
                Some(u) => exists|n: int|
                    #![trigger old(self).work().take(n)]
                    0 <= n < old(self).work().len() && old(self).work()[n] == Task::Folder(u@)
                        && final(self).work() == old(self).work().skip(n + 1) && final(self).files()
                        == old(self).files() + file_rows(old(self).work().take(n)) && all_files(
                        old(self).work().take(n),
                    ),
                None => final(self).work().len() == 0 && all_files(old(self).work())
                    && final(self).files() == old(self).files() + file_rows(old(self).work()),
            },
    {
        let ghost start = self.work();
        let ghost begun = self.files();
        let ghost mut n: int = 0;
        assert(start.skip(0) =~= start);
        assert(start.take(0) =~= Seq::<Task>::empty());
        assert(begun + file_rows(start.take(0)) =~= begun);
        loop
            invariant
                0 <= n <= start.len(),
                self.work() == start.skip(n),
                all_files(start.take(n)),
                self.files() == begun + file_rows(start.take(n)),
                start == old(self).work(),
                begun == old(self).files(),
            decreases self.stack@.len(),
        {
            let ghost before = self.stack@.map_values(|p: Pending| p@);
            let ghost stack = self.stack@;
            match self.stack.pop() {
                None => {
                    assert(self.work() =~= Seq::<Task>::empty());
                    assert(n == start.len()) by {
                        assert(start.skip(n).len() == 0);
                    }
                    assert(start.take(n) =~= start);
                    return None;
                },
                Some(p) => {
                    proof {
                        assert(stack.last() == p);
                        assert(before.reverse()[0] == p@);
                        assert(start.skip(n)[0] == p@);
                        assert(start[n] == p@);
                        assert(self.stack@.map_values(|p: Pending| p@) =~= before.drop_last());
                        assert(before.drop_last().reverse() =~= before.reverse().skip(1));
                        assert(start.skip(n).skip(1) =~= start.skip(n + 1));
                        assert(self.work() =~= start.skip(n + 1));
                    }
                    match p {
                        Pending::Folder(url) => {
                            return Some(url);
                        },
                        Pending::File(f) => {
                            let ghost files = self.files();
                            let ghost r = f@;
                            self.files.push(f);
                            proof {
                                assert(self.files() =~= files.push(r));
                                assert(start.take(n + 1).drop_last() =~= start.take(n));
                                assert(start.take(n + 1).last() == Task::File(r));
                                assert(self.files() =~= begun + file_rows(start.take(n + 1)));
                                n = n + 1;
                            }
                        },
                    }
                },
            }
        }
    }

    /// Hands the scan the listing of the folder that it asked for.
    pub fn supply(&mut self, url: &str, listing: &Vec<ListEntry>)
        ensures
            final(self).work() == tasks_of(url@, listed(listing@)) + old(self).work(),
            final(self).files() == old(self).files(),
    {
        let ghost view = listed(listing@);
        let ghost rest = self.work();
        let mut i: usize = listing.len();
        assert(view.take(view.len() as int) =~= view);
        assert(view.skip(view.len() as int) =~= Seq::<ListRow>::empty());
        assert(tasks_of(url@, view.skip(view.len() as int)) + rest =~= rest);
        while i > 0
            invariant
                view == listed(listing@),
                i <= listing@.len(),
                self.work() == tasks_of(url@, view.skip(i as int)) + rest,
                self.files() == old(self).files(),
            decreases i,
        {
            i = i - 1;
            let e = &listing[i];
            let ghost before = self.work();
            let ghost stack = self.stack@.map_values(|p: Pending| p@);
            proof {
                lemma_tasks_first(url@, view.skip(i as int));
                assert(view.skip(i as int)[0] == e@);
                assert(view.skip(i as int).skip(1) =~= view.skip(i + 1));
            }
            if e.is_folder {
                let sub = sub_folder_url(url, e.href.as_str());
                let ghost s = sub@;
                self.stack.push(Pending::Folder(sub));
                proof {
                    assert(self.stack@.map_values(|p: Pending| p@) =~= stack.push(Task::Folder(s)));
                    assert(self.work() =~= seq![Task::Folder(s)] + before);
                    assert(self.work() =~= tasks_of(url@, view.skip(i as int)) + rest);
                }
            } else {
                match &e.url {
                    Some(u) => {
                        let f = FoundFile {
                            url: u.clone(),
                            name: e.name.clone(),
                            size: e.size.clone(),
                        };
                        let ghost r = f@;
                        self.stack.push(Pending::File(f));
                        proof {
                            assert(self.stack@.map_values(|p: Pending| p@) =~= stack.push(
                                Task::File(r),
                            ));
                            assert(self.work() =~= seq![Task::File(r)] + before);
                            assert(self.work() =~= tasks_of(url@, view.skip(i as int)) + rest);
                        }
                    },
                    None => {
                        assert(tasks_of(url@, view.skip(i as int)) =~= tasks_of(
                            url@,
                            view.skip(i + 1),
                        ));
                    },
                }
            }
        }
        assert(view.skip(0) =~= view);
    }

    /// The files found.
    pub fn finish(self) -> (files: Vec<FoundFile>)
        ensures
            found(files@) == self.files(),
    {
        self.files
    }
}

/// The files among the tasks.
pub open spec fn file_rows(work: Seq<Task>) -> Seq<FileRow>
    decreases work.len(),
{
    if work.len() == 0 {
        Seq::empty()
    } else {
        let head = file_rows(work.drop_last());
        match work.last() {
            Task::File(f) => head.push(f),
            Task::Folder(_) => head,
        }
    }
}

pub open spec fn all_files(work: Seq<Task>) -> bool {
    forall|i: int| 0 <= i < work.len() ==> #[trigger] work[i] is File
}

/// What a line adds to the work.
pub open spec fn task_of(url: Seq<char>, e: ListRow) -> Seq<Task> {
    if e.is_folder {
        seq![Task::Folder(sub_url(url, e.href))]
    } else {
        match e.url {
            Some(u) => seq![Task::File(FileRow { url: u, name: e.name, size: e.size })],
            None => Seq::empty(),
        }
    }
}

proof fn lemma_tasks_first(url: Seq<char>, listing: Seq<ListRow>)
    requires
        listing.len() > 0,
    ensures
        tasks_of(url, listing) == task_of(url, listing[0]) + tasks_of(url, listing.skip(1)),
    decreases listing.len(),
{
    if listing.len() == 1 {
        assert(listing.drop_last() =~= Seq::<ListRow>::empty());
        assert(listing.skip(1) =~= Seq::<ListRow>::empty());
        assert(tasks_of(url, listing) =~= task_of(url, listing[0]) + tasks_of(url, listing.skip(1)));
    } else {
        let head = listing.drop_last();
        lemma_tasks_first(url, head);
        assert(head.skip(1) =~= listing.skip(1).drop_last());
        assert(listing.skip(1).last() == listing.last());
        assert(tasks_of(url, listing) =~= task_of(url, listing[0]) + tasks_of(url, listing.skip(1)));
    }
}

// ── What a scan finds ────────────────────────────────────────────────────────
/// The listing of a folder in `tree`: empty where there is none.
pub open spec fn listing_in(tree: Map<Seq<char>, Seq<ListRow>>, url: Seq<char>) -> Seq<ListRow> {
    if tree.contains_key(url) {
        tree[url]
    } else {
        Seq::empty()
    }
}

/// The files under the folder at `url`, down to `depth` levels: the folder's lines in their order,
/// a subfolder standing for the files under it.
pub open spec fn files_under(url: Seq<char>, tree: Map<Seq<char>, Seq<ListRow>>, depth: nat) -> Seq<
    FileRow,
>
    decreases depth, 0nat,
{
    if depth == 0 {
        Seq::empty()
    } else {
        files_owed(tasks_of(url, listing_in(tree, url)), tree, (depth - 1) as nat)
    }
}

/// The files that the tasks stand for.
pub open spec fn files_owed(
    work: Seq<Task>,
    tree: Map<Seq<char>, Seq<ListRow>>,
    depth: nat,
) -> Seq<FileRow>
    decreases depth, work.len(),
{
    if work.len() == 0 {
        Seq::empty()
    } else {
        (match work[0] {
            Task::File(f) => seq![f],
            Task::Folder(u) => files_under(u, tree, depth),
        }) + files_owed(work.skip(1), tree, depth)
    }
}

/// The folder has at most `depth` levels.
pub open spec fn shallow(url: Seq<char>, tree: Map<Seq<char>, Seq<ListRow>>, depth: nat) -> bool
    decreases depth,
{
    depth > 0 && forall|i: int|
        0 <= i < tasks_of(url, listing_in(tree, url)).len() ==> match #[trigger] tasks_of(
            url,
            listing_in(tree, url),
        )[i] {
            Task::Folder(u) => shallow(u, tree, (depth - 1) as nat),
            Task::File(_) => true,
        }
}

proof fn lemma_owed_append(
    a: Seq<Task>,
    b: Seq<Task>,
    tree: Map<Seq<char>, Seq<ListRow>>,
    depth: nat,
)
    ensures
        files_owed(a + b, tree, depth) == files_owed(a, tree, depth) + files_owed(b, tree, depth),
    decreases a.len(),
{
    if a.len() == 0 {
        assert(a + b =~= b);
        assert(files_owed(a, tree, depth) + files_owed(b, tree, depth) =~= files_owed(
            b,
            tree,
            depth,
        ));
    } else {
        lemma_owed_append(a.skip(1), b, tree, depth);
        assert((a + b).skip(1) =~= a.skip(1) + b);
        assert((a + b)[0] == a[0]);
        assert(files_owed(a + b, tree, depth) =~= files_owed(a, tree, depth) + files_owed(
            b,
            tree,
            depth,
        ));
    }
}

proof fn lemma_owed_files(work: Seq<Task>, tree: Map<Seq<char>, Seq<ListRow>>, depth: nat)
    requires
        all_files(work),
    ensures
        files_owed(work, tree, depth) == file_rows(work),
    decreases work.len(),
{
    if work.len() > 0 {
        let head = work.drop_last();
        let last = seq![work.last()];
        assert(all_files(head)) by {
            assert forall|i: int| 0 <= i < head.len() implies #[trigger] head[i] is File by {
                assert(work[i] is File);
            }
        }
        lemma_owed_files(head, tree, depth);
        lemma_owed_append(head, last, tree, depth);
        assert(head + last =~= work);
        assert(work[work.len() - 1] is File);
        assert(last.skip(1) =~= Seq::<Task>::empty());
        assert(files_owed(last.skip(1), tree, depth) == Seq::<FileRow>::empty());
        assert(files_owed(last, tree, depth) =~= seq![work.last()->File_0]);
        assert(files_owed(work, tree, depth) =~= file_rows(work));
    }
}

proof fn lemma_deep_enough(url: Seq<char>, tree: Map<Seq<char>, Seq<ListRow>>, depth: nat)
    requires
        shallow(url, tree, depth),
    ensures
        files_under(url, tree, depth) == files_under(url, tree, depth + 1),
    decreases depth, 0nat,
{
    let work = tasks_of(url, listing_in(tree, url));
    lemma_owed_deep_enough(work, tree, (depth - 1) as nat);
}

proof fn lemma_owed_deep_enough(
    work: Seq<Task>,
    tree: Map<Seq<char>, Seq<ListRow>>,
    depth: nat,
)
    requires
        forall|i: int|
            0 <= i < work.len() ==> match #[trigger] work[i] {
                Task::Folder(u) => shallow(u, tree, depth),
                Task::File(_) => true,
            },
    ensures
        files_owed(work, tree, depth) == files_owed(work, tree, depth + 1),
    decreases depth, work.len(),
{
    if work.len() > 0 {
        if let Task::Folder(u) = work[0] {
            lemma_deep_enough(u, tree, depth);
        }
        let rest = work.skip(1);
        assert forall|i: int| 0 <= i < rest.len() implies match #[trigger] rest[i] {
            Task::Folder(u) => shallow(u, tree, depth),
            Task::File(_) => true,
        } by {
            assert(rest[i] == work[i + 1]);
        }
        lemma_owed_deep_enough(rest, tree, depth);
    }
}

/// A step of a scan over a finite tree loses nothing and finds nothing twice: the files before the
/// folder that it asks for, and what it owes with that folder's listing in the folder's place, are
/// together what it owed before.
pub proof fn law_scan_step(
    work: Seq<Task>,
    n: int,
    url: Seq<char>,
    tree: Map<Seq<char>, Seq<ListRow>>,
    depth: nat,
)
    requires
        0 <= n < work.len(),
        work[n] == Task::Folder(url),
        all_files(work.take(n)),
        shallow(url, tree, depth),
    ensures
        files_owed(work, tree, depth) == file_rows(work.take(n)) + files_owed(
            tasks_of(url, listing_in(tree, url)) + work.skip(n + 1),
            tree,
            depth,
        ),
{
    let tasks = tasks_of(url, listing_in(tree, url));
    let rest = work.skip(n + 1);
    let folder = seq![work[n]];
    assert(work =~= work.take(n) + (folder + rest));
    lemma_owed_append(work.take(n), folder + rest, tree, depth);
    lemma_owed_append(folder, rest, tree, depth);
    lemma_owed_append(tasks, rest, tree, depth);
    lemma_owed_files(work.take(n), tree, depth);
    lemma_owed_deep_enough(tasks, tree, (depth - 1) as nat);
    assert(folder.skip(1) =~= Seq::<Task>::empty());
    assert(files_owed(folder.skip(1), tree, depth) == Seq::<FileRow>::empty());
    assert(files_owed(folder, tree, depth) =~= files_under(url, tree, depth));
}

/// A scan that asks for no folder any more owes the files that it has still to report.
pub proof fn law_scan_end(work: Seq<Task>, tree: Map<Seq<char>, Seq<ListRow>>, depth: nat)
    requires
        all_files(work),
    ensures
        files_owed(work, tree, depth) == file_rows(work),
{
    lemma_owed_files(work, tree, depth);
}

/// The lines of a folder as work for a scan, in their order: a file with its address is found, and a
/// folder is to be looked into, at the address of its link in the folder.
pub proof fn law_tasks(url: Seq<char>, listing: Seq<ListRow>, e: ListRow)
    ensures
        tasks_of(url, Seq::empty()) == Seq::<Task>::empty(),
        e.is_folder ==> tasks_of(url, listing.push(e)) == tasks_of(url, listing).push(
            Task::Folder(trim_end_of(url, '/') + "/"@ + e.href),
        ),
        !e.is_folder && e.url is Some ==> tasks_of(url, listing.push(e)) == tasks_of(
            url,
            listing,
        ).push(Task::File(FileRow { url: e.url->0, name: e.name, size: e.size })),
        !e.is_folder && e.url is None ==> tasks_of(url, listing.push(e)) == tasks_of(url, listing),
{
    assert(listing.push(e).drop_last() =~= listing);
}

/// The files among the work, in their order.
pub proof fn law_found_files(work: Seq<Task>, task: Task)
    ensures
        file_rows(Seq::empty()) == Seq::<FileRow>::empty(),
        file_rows(work.push(task)) == (match task {
            Task::File(f) => file_rows(work).push(f),
            Task::Folder(_) => file_rows(work),
        }),
{
    assert(work.push(task).drop_last() =~= work);
}

/// All files of a folder are those of its lines, one after the other: a file is itself, and a folder
/// stands for all files of it.
pub proof fn law_files_of_tree(
    url: Seq<char>,
    tree: Map<Seq<char>, Seq<ListRow>>,
    work: Seq<Task>,
    task: Task,
    depth: nat,
)
    ensures
        files_under(url, tree, 0) == Seq::<FileRow>::empty(),
        tree.contains_key(url) ==> files_under(url, tree, depth + 1) == files_owed(
            tasks_of(url, tree[url]),
            tree,
            depth,
        ),
        !tree.contains_key(url) ==> files_under(url, tree, depth + 1) == Seq::<FileRow>::empty(),
        files_owed(Seq::empty(), tree, depth) == Seq::<FileRow>::empty(),
        files_owed(seq![task] + work, tree, depth) == (match task {
            Task::File(f) => seq![f],
            Task::Folder(u) => files_under(u, tree, depth),
        }) + files_owed(work, tree, depth),
{
    assert((seq![task] + work).skip(1) =~= work);
    if !tree.contains_key(url) {
        assert(tasks_of(url, listing_in(tree, url)) =~= Seq::<Task>::empty());
    }
}

proof fn lemma_no_prefix(text: Seq<char>, prefix: Seq<char>)
    requires
        text.len() < prefix.len() || text.take(prefix.len() as int) != prefix,
    ensures
        without_prefix(text, prefix) == text,
        prefix.len() > 0 ==> without_prefix(prefix + text, prefix) == text,
{
    let more = prefix + text;
    if prefix.len() > 0 {
        assert(more.take(prefix.len() as int) =~= prefix);
        assert(more.skip(prefix.len() as int) =~= text);
    }
}

/// The path of a folder is what follows the archive's root in its address, without slashes at its
/// ends.
pub proof fn law_rel_path(path: Seq<char>, slashes: nat)
    requires
        path.len() > 0,
        path[0] != '/',
        path.last() != '/',
    ensures
        rel_path(BASE_URL@ + path + Seq::new(slashes, |i: int| '/')) == path,
{
    let base = BASE_URL@;
    reveal_strlit("https://myrient.erista.me/files/");
    let root = base.drop_last();
    let one = Seq::new(1, |i: int| '/');
    assert(root + one =~= base);
    law_trim_end(root, '/', 1);
    let whole = base + path;
    assert(whole.last() == path.last());
    law_trim_end(whole, '/', slashes);
    let rest = one + path;
    assert(whole =~= root + rest);
    assert(rest.len() >= root.len() ==> rest.take(root.len() as int)[0] == '/');
    lemma_no_prefix(rest, root);
    law_trim_start(path, '/', 1);
}

/// The files that were found are told one by one.
pub proof fn law_found_one_by_one(list: Seq<FoundFile>, i: int)
    ensures
        found(list).len() == list.len(),
        0 <= i < list.len() ==> found(list)[i].url == list[i].url@ && found(list)[i].name
            == list[i].name@ && found(list)[i].size == list[i].size@,
{
}

} // verus!
