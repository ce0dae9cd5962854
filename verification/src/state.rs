use vstd::prelude::*;

use crate::ops::{
    check_symlinks, duplicate_notice, duplicate_notice_text, lemma_links_in_no_answers, links_in,
    symlink_notice, symlink_notice_text,
};
use crate::sources::{
    count_filled, distinct, lemma_place_picked, lemma_repeated, lemma_screen, occurrences,
    picked_names, filled_count, find_duplicates, names_except, names_of, place_picked,
    place_picked_rows, repeated, screen, screen_picked,
};
use crate::text::{blank, is_blank, lemma_trim_empty_iff_blank, trim, trimmed, views};

verus! {

/// Where the form stands: nothing done yet, a job under way, the last job
/// done, or the last request refused or failed.
#[derive(Clone, Copy, Debug, PartialEq, Eq, Structural)]
pub enum Status {
    Idle,
    Running,
    Success,
    Error,
}

/// The form: up to ten source rows, the target folder, where it stands and
/// the line shown under it.
pub struct MkLineExe {
    pub sources: Vec<String>,
    pub target: String,
    pub status: Status,
    pub status_message: String,
}

/// The form as text.
#[verifier::ext_equal]
pub struct Form {
    pub sources: Seq<Seq<char>>,
    pub target: Seq<char>,
    pub status: Status,
    pub message: Seq<char>,
}

impl View for MkLineExe {
    type V = Form;

    open spec fn view(&self) -> Form {
        Form {
            sources: views(self.sources@),
            target: self.target@,
            status: self.status,
            message: self.status_message@,
        }
    }
}

/// The most source rows the form holds.
pub const MAX_SOURCES: usize = 10;

impl Form {
    /// The form holds at least one source row and at most ten.
    pub open spec fn wf(self) -> bool {
        1 <= self.sources.len() <= MAX_SOURCES
    }
}

/// What the user, or the work the form asked for, tells the form.
pub enum Message {
    /// Add an empty source row.
    AddSource,
    /// Remove a source row.
    RemoveSource(usize),
    /// The text of a source row was edited.
    SourcePath(usize, String),
    /// Browse for folders for a source row: first the window is needed.
    BrowseSourceDir(usize),
    /// The window is at hand: open the folder picker for a source row.
    BrowseSourceWithParent(usize),
    /// The folders picked for a source row.
    SourceDirsPicked(usize, Vec<String>),
    /// The text of the target was edited.
    TargetPath(String),
    /// Browse for the target folder: first the window is needed.
    BrowseTargetDir,
    /// The window is at hand: open the folder picker for the target.
    BrowseTargetWithParent,
    /// The folder picked for the target, if one was.
    TargetDirPicked(Option<String>),
    /// Move the sources to the target.
    Confirm,
    /// Leave the program.
    Cancel,
    /// Back up every source beside itself.
    BackupAll,
    /// Empty every row.
    ClearAll,
    /// How moving ended.
    ConfirmResult(Result<String, String>),
    /// How the backups ended.
    BackupResult(Result<String, String>),
    /// Nothing to do.
    Noop,
}

/// A message, with its texts as text.
pub enum Event {
    AddSource,
    RemoveSource(usize),
    SourcePath(usize, Seq<char>),
    BrowseSourceDir(usize),
    BrowseSourceWithParent(usize),
    SourceDirsPicked(usize, Seq<Seq<char>>),
    TargetPath(Seq<char>),
    BrowseTargetDir,
    BrowseTargetWithParent,
    TargetDirPicked(Option<Seq<char>>),
    Confirm,
    Cancel,
    BackupAll,
    ClearAll,
    ConfirmResult(Result<Seq<char>, Seq<char>>),
    BackupResult(Result<Seq<char>, Seq<char>>),
    Noop,
}

/// The text of an outcome.
pub open spec fn outcome_view(r: Result<String, String>) -> Result<Seq<char>, Seq<char>> {
    match r {
        Ok(m) => Ok(m@),
        Err(e) => Err(e@),
    }
}

impl View for Message {
    type V = Event;

    open spec fn view(&self) -> Event {
        match self {
            Message::AddSource => Event::AddSource,
            Message::RemoveSource(i) => Event::RemoveSource(*i),
            Message::SourcePath(i, v) => Event::SourcePath(*i, v@),
            Message::BrowseSourceDir(i) => Event::BrowseSourceDir(*i),
            Message::BrowseSourceWithParent(i) => Event::BrowseSourceWithParent(*i),
            Message::SourceDirsPicked(i, paths) => Event::SourceDirsPicked(*i, views(paths@)),
            Message::TargetPath(v) => Event::TargetPath(v@),
            Message::BrowseTargetDir => Event::BrowseTargetDir,
            Message::BrowseTargetWithParent => Event::BrowseTargetWithParent,
            Message::TargetDirPicked(p) => Event::TargetDirPicked(
                match p {
                    Some(p) => Some(p@),
                    None => None,
                },
            ),
            Message::Confirm => Event::Confirm,
            Message::Cancel => Event::Cancel,
            Message::BackupAll => Event::BackupAll,
            Message::ClearAll => Event::ClearAll,
            Message::ConfirmResult(r) => Event::ConfirmResult(outcome_view(*r)),
            Message::BackupResult(r) => Event::BackupResult(outcome_view(*r)),
            Message::Noop => Event::Noop,
        }
    }
}

/// The outside work a message asks for.
pub enum Action {
    /// Nothing.
    Nothing,
    /// Get the window, then send `BrowseSourceWithParent` for this row.
    RequestSourceParent(usize),
    /// Let the user pick folders for the row; keep at most `max_take` of them.
    PickSources { index: usize, max_take: usize },
    /// Get the window, then send `BrowseTargetWithParent`.
    RequestTargetParent,
    /// Let the user pick the target folder.
    PickTarget,
    /// Show this notice in a dialog.
    Notify(String),
    /// Leave the program.
    Exit,
    /// Move these sources into this target folder, then send `ConfirmResult`.
    RunConfirm { sources: Vec<String>, target: String },
    /// Back up these sources, then send `BackupResult`.
    RunBackup { sources: Vec<String> },
}

/// An action, with its texts as text.
pub enum Effect {
    Nothing,
    RequestSourceParent(usize),
    PickSources { index: usize, max_take: usize },
    RequestTargetParent,
    PickTarget,
    Notify(Seq<char>),
    Exit,
    RunConfirm { sources: Seq<Seq<char>>, target: Seq<char> },
    RunBackup { sources: Seq<Seq<char>> },
}

impl View for Action {
    type V = Effect;

    open spec fn view(&self) -> Effect {
        match self {
            Action::Nothing => Effect::Nothing,
            Action::RequestSourceParent(i) => Effect::RequestSourceParent(*i),
            Action::PickSources { index, max_take } => Effect::PickSources {
                index: *index,
                max_take: *max_take,
            },
            Action::RequestTargetParent => Effect::RequestTargetParent,
            Action::PickTarget => Effect::PickTarget,
            Action::Notify(t) => Effect::Notify(t@),
            Action::Exit => Effect::Exit,
            Action::RunConfirm { sources, target } => Effect::RunConfirm {
                sources: views(sources@),
                target: target@,
            },
            Action::RunBackup { sources } => Effect::RunBackup { sources: views(sources@) },
        }
    }
}

/// The rows that hold more than white space, in order.
pub open spec fn nonblank(rows: Seq<Seq<char>>) -> Seq<Seq<char>>
    decreases rows.len(),
{
    if rows.len() == 0 {
        Seq::empty()
    } else if is_blank(rows.last()) {
        nonblank(rows.drop_last())
    } else {
        nonblank(rows.drop_last()).push(rows.last())
    }
}

/// Some row occurs twice.
pub open spec fn has_repeat(rows: Seq<Seq<char>>) -> bool {
    exists|i: int, j: int| 0 <= i < j < rows.len() && rows[i] == rows[j]
}

/// How many more folders a source row may take in.
pub open spec fn room_left(rows: Seq<Seq<char>>) -> usize {
    if filled_count(rows) < MAX_SOURCES {
        (MAX_SOURCES - filled_count(rows)) as usize
    } else {
        0
    }
}

/// What links found on disk among the filled rows can look like: the
/// filled rows whose answer, when asked of the disk, was yes, in row order.
pub open spec fn links_of(f: Form, links: Seq<Seq<char>>) -> bool {
    exists|is_link: Seq<bool>|
        is_link.len() == nonblank(f.sources).len() && links == links_in(
            nonblank(f.sources),
            is_link,
        )
}

/// The form with another status and line.
pub open spec fn with_status(f: Form, status: Status, message: Seq<char>) -> Form {
    Form { status, message, ..f }
}

/// Moving the sources: refused while a job runs; refused without a filled
/// source row or a target; refused where two rows share a file name (the
/// names are shown); refused where rows are links (`links`, shown); else the
/// job starts with the filled rows and the trimmed target.
pub open spec fn step_confirm(f: Form, links: Seq<Seq<char>>) -> (Form, Effect) {
    let sources = nonblank(f.sources);
    let target = trim(f.target);
    let dups = repeated(names_of(sources, -1));
    if f.status == Status::Running {
        (f, Effect::Nothing)
    } else if sources.len() == 0 || target.len() == 0 {
        (with_status(f, Status::Error, "请填写源目录和目标目录"@), Effect::Nothing)
    } else if dups.len() > 0 {
        (
            with_status(f, Status::Error, duplicate_notice_text(dups)),
            Effect::Notify(duplicate_notice_text(dups)),
        )
    } else if links.len() > 0 {
        (
            with_status(f, Status::Error, symlink_notice_text(links)),
            Effect::Notify(symlink_notice_text(links)),
        )
    } else {
        (
            with_status(f, Status::Running, "正在处理..."@),
            Effect::RunConfirm { sources, target },
        )
    }
}

/// Backing up the sources: refused while a job runs; refused without a
/// filled source row; refused where two rows hold the same path; refused
/// where rows are links (`links`, shown); else the job starts with the
/// filled rows.
pub open spec fn step_backup(f: Form, links: Seq<Seq<char>>) -> (Form, Effect) {
    let sources = nonblank(f.sources);
    if f.status == Status::Running {
        (f, Effect::Nothing)
    } else if sources.len() == 0 {
        (with_status(f, Status::Error, "没有可备份的源目录"@), Effect::Nothing)
    } else if has_repeat(sources) {
        (with_status(f, Status::Error, "源路径重复"@), Effect::Notify("源路径重复"@))
    } else if links.len() > 0 {
        (
            with_status(f, Status::Error, symlink_notice_text(links)),
            Effect::Notify(symlink_notice_text(links)),
        )
    } else {
        (with_status(f, Status::Running, "正在备份..."@), Effect::RunBackup { sources })
    }
}

/// Folders picked for row `i`: those whose file name another filled row or
/// an earlier pick already has are dropped and named in a notice; the rest
/// go into the rows as `place_picked` says.
pub open spec fn step_picked(f: Form, i: usize, paths: Seq<Seq<char>>) -> (Form, Effect) {
    if paths.len() == 0 || i >= f.sources.len() {
        (f, Effect::Nothing)
    } else {
        let (valid, dups, _) = screen(names_of(f.sources, i as int), paths);
        let effect = if dups.len() > 0 {
            Effect::Notify(duplicate_notice_text(dups))
        } else {
            Effect::Nothing
        };
        if valid.len() == 0 {
            (f, effect)
        } else {
            (Form { sources: place_picked(f.sources, i as int, valid), ..f }, effect)
        }
    }
}

/// A job ended: its report becomes the line, and the form stands at success
/// or error as the job did.
pub open spec fn finish(f: Form, r: Result<Seq<char>, Seq<char>>) -> (Form, Effect) {
    match r {
        Ok(m) => (with_status(f, Status::Success, m), Effect::Nothing),
        Err(m) => (with_status(f, Status::Error, m), Effect::Nothing),
    }
}

/// How the form answers a message: its next state and the outside work it
/// asks for. `links` are the filled rows that are links on disk, which
/// only moving and backing up look at.
pub open spec fn step(f: Form, e: Event, links: Seq<Seq<char>>) -> (Form, Effect) {
    match e {
        Event::AddSource => if f.sources.len() < MAX_SOURCES {
            (Form { sources: f.sources.push(Seq::empty()), ..f }, Effect::Nothing)
        } else {
            (f, Effect::Nothing)
        },
        Event::RemoveSource(i) => if f.sources.len() > 1 && i < f.sources.len() {
            (Form { sources: f.sources.remove(i as int), ..f }, Effect::Nothing)
        } else {
            (f, Effect::Nothing)
        },
        Event::SourcePath(i, v) => if f.status != Status::Running && i < f.sources.len() {
            (Form { sources: f.sources.update(i as int, v), ..f }, Effect::Nothing)
        } else {
            (f, Effect::Nothing)
        },
        Event::BrowseSourceDir(i) => (f, Effect::RequestSourceParent(i)),
        Event::BrowseSourceWithParent(i) => (
            f,
            Effect::PickSources { index: i, max_take: room_left(f.sources) },
        ),
        Event::SourceDirsPicked(i, paths) => step_picked(f, i, paths),
        Event::TargetPath(v) => if f.status != Status::Running {
            (Form { target: v, ..f }, Effect::Nothing)
        } else {
            (f, Effect::Nothing)
        },
        Event::BrowseTargetDir => (f, Effect::RequestTargetParent),
        Event::BrowseTargetWithParent => (f, Effect::PickTarget),
        Event::TargetDirPicked(p) => match p {
            Some(p) => (Form { target: p, ..f }, Effect::Nothing),
            None => (f, Effect::Nothing),
        },
        Event::Confirm => step_confirm(f, links),
        Event::Cancel => (f, Effect::Exit),
        Event::BackupAll => step_backup(f, links),
        Event::ClearAll => if f.status != Status::Running {
            (
                Form {
                    sources: Seq::new(f.sources.len(), |k: int| Seq::empty()),
                    target: Seq::empty(),
                    status: Status::Idle,
                    message: "就绪"@,
                },
                Effect::Nothing,
            )
        } else {
            (f, Effect::Nothing)
        },
        Event::ConfirmResult(r) => finish(f, r),
        Event::BackupResult(r) => finish(f, r),
        Event::Noop => (f, Effect::Nothing),
    }
}


/// The rows that hold more than white space, in order.
pub fn nonblank_rows(rows: &Vec<String>) -> (r: Vec<String>)
    ensures
        views(r@) == nonblank(views(rows@)),
{
    let mut out: Vec<String> = Vec::new();
    let n = rows.len();
    let mut k: usize = 0;
    while k < n
        invariant
            n == rows@.len(),
            k <= n,
            views(out@) == nonblank(views(rows@).take(k as int)),
        decreases n - k,
    {
        assert(views(rows@).take(k + 1).drop_last() =~= views(rows@).take(k as int));
        assert(views(rows@).take(k + 1).last() == rows@[k as int]@);
        if !blank(rows[k].as_str()) {
            let ghost before = views(out@);
            out.push(rows[k].clone());
            assert(views(out@) =~= before.push(rows@[k as int]@));
        }
        k = k + 1;
    }
    assert(views(rows@).take(n as int) =~= views(rows@));
    out
}

/// Whether some row occurs twice.
pub fn has_repeat_rows(rows: &Vec<String>) -> (r: bool)
    ensures
        r == has_repeat(views(rows@)),
{
    let n = rows.len();
    let mut k: usize = 0;
    while k < n
        invariant
            n == rows@.len(),
            k <= n,
            forall|i: int, j: int| 0 <= i < j < k ==> rows@[i]@ != rows@[j]@,
        decreases n - k,
    {
        let mut i: usize = 0;
        while i < k
            invariant
                n == rows@.len(),
                i <= k < n,
                forall|j: int| 0 <= j < i ==> rows@[j]@ != rows@[k as int]@,
            decreases k - i,
        {
            if rows[i] == rows[k] {
                assert(views(rows@)[i as int] == views(rows@)[k as int]);
                return true;
            }
            i = i + 1;
        }
        k = k + 1;
    }
    proof {
        if has_repeat(views(rows@)) {
            let (i, j) = choose|i: int, j: int|
                0 <= i < j < views(rows@).len() && views(rows@)[i] == views(rows@)[j];
            assert(rows@[i]@ == rows@[j]@);
        }
    }
    false
}

/// Whether answering `e` on form `f`, whose filled rows are `sources`,
/// comes to the point where those rows are looked at on disk: no job runs,
/// some row is filled, and either a move whose target is not blank and whose
/// rows share no file name, or a backup whose rows are pairwise different.
pub open spec fn link_probe_needed(f: Form, e: Event, sources: Seq<Seq<char>>) -> bool {
    &&& f.status != Status::Running
    &&& sources.len() > 0
    &&& match e {
        Event::Confirm => !is_blank(f.target) && repeated(names_of(sources, -1)).len() == 0,
        Event::BackupAll => !has_repeat(sources),
        _ => false,
    }
}

impl Default for MkLineExe {
    /// One empty source row, no target, standing idle with `就绪`.
    fn default() -> (r: Self)
        ensures
            r@ == (Form {
                sources: seq![Seq::empty()],
                target: Seq::empty(),
                status: Status::Idle,
                message: "就绪"@,
            }),
    {
        let mut sources: Vec<String> = Vec::new();
        sources.push(String::new());
        let r = MkLineExe {
            sources,
            target: String::new(),
            status: Status::Idle,
            status_message: String::from_str("就绪"),
        };
        assert(r@.sources =~= seq![Seq::<char>::empty()]);
        r
    }
}

impl MkLineExe {
    /// The form as the program opens it: one empty source row, no target,
    /// standing idle with `就绪`.
    pub fn new() -> (r: Self)
        ensures
            r@ == (Form {
                sources: seq![Seq::empty()],
                target: Seq::empty(),
                status: Status::Idle,
                message: "就绪"@,
            }),
            r@.wf(),
    {
        Self::default()
    }

    fn set_status(&mut self, status: Status, message: String)
        ensures
            final(self)@ == with_status(old(self)@, status, message@),
    {
        self.status = status;
        self.status_message = message;
    }

    fn clear_rows(&mut self)
        ensures
            final(self)@.sources == Seq::new(old(self)@.sources.len(), |k: int| Seq::<char>::empty()),
            final(self).target == old(self).target,
            final(self).status == old(self).status,
            final(self).status_message == old(self).status_message,
    {
        let n = self.sources.len();
        let mut k: usize = 0;
        while k < n
            invariant
                n == self.sources@.len(),
                k <= n,
                forall|j: int| 0 <= j < k ==> #[trigger] self.sources@[j]@ == Seq::<char>::empty(),
                self.target == old(self).target,
                self.status == old(self).status,
                self.status_message == old(self).status_message,
                n == old(self).sources@.len(),
            decreases n - k,
        {
            self.sources[k] = String::new();
            k = k + 1;
        }
        assert(self@.sources =~= Seq::new(n as nat, |k: int| Seq::<char>::empty()));
    }

    /// Moving, as `step_confirm` says, with `links` standing for the filled
    /// rows that are links on disk.
    fn confirm(&mut self, links: &Vec<String>) -> (a: Action)
        ensures
            (final(self)@, a@) == step_confirm(old(self)@, views(links@)),
    {
        if self.status == Status::Running {
            return Action::Nothing;
        }
        let sources = nonblank_rows(&self.sources);
        let target = trimmed(self.target.as_str());
        if sources.len() == 0 || target.as_str().is_empty() {
            self.set_status(Status::Error, String::from_str("请填写源目录和目标目录"));
            return Action::Nothing;
        }
        let dups = find_duplicates(sources.as_slice());
        if dups.len() > 0 {
            let notice = duplicate_notice(&dups);
            self.set_status(Status::Error, notice.clone());
            return Action::Notify(notice);
        }
        if links.len() > 0 {
            let notice = symlink_notice(links);
            self.set_status(Status::Error, notice.clone());
            return Action::Notify(notice);
        }
        self.set_status(Status::Running, String::from_str("正在处理..."));
        Action::RunConfirm { sources, target }
    }

    /// Backing up, as `step_backup` says, with `links` standing for the
    /// filled rows that are links on disk.
    fn backup(&mut self, links: &Vec<String>) -> (a: Action)
        ensures
            (final(self)@, a@) == step_backup(old(self)@, views(links@)),
    {
        if self.status == Status::Running {
            return Action::Nothing;
        }
        let sources = nonblank_rows(&self.sources);
        if sources.len() == 0 {
            self.set_status(Status::Error, String::from_str("没有可备份的源目录"));
            return Action::Nothing;
        }
        if has_repeat_rows(&sources) {
            self.set_status(Status::Error, String::from_str("源路径重复"));
            return Action::Notify(String::from_str("源路径重复"));
        }
        if links.len() > 0 {
            let notice = symlink_notice(links);
            self.set_status(Status::Error, notice.clone());
            return Action::Notify(notice);
        }
        self.set_status(Status::Running, String::from_str("正在备份..."));
        Action::RunBackup { sources }
    }

    /// Folders picked for row `i`, as `step_picked` says.
    fn take_picked(&mut self, i: usize, paths: Vec<String>) -> (a: Action)
        ensures
            (final(self)@, a@) == step_picked(old(self)@, i, views(paths@)),
    {
        if paths.len() == 0 || i >= self.sources.len() {
            return Action::Nothing;
        }
        let existing = names_except(&self.sources, i);
        let (valid, dups) = screen_picked(&existing, paths);
        let action = if dups.len() > 0 {
            Action::Notify(duplicate_notice(&dups))
        } else {
            Action::Nothing
        };
        if valid.len() == 0 {
            return action;
        }
        place_picked_rows(&mut self.sources, i, &valid);
        action
    }

    /// Answers `msg` as `step` says, with `links` standing for the filled
    /// rows that are links on disk: the form's next state, and the outside
    /// work to do.
    pub fn update_with(&mut self, msg: Message, links: &Vec<String>) -> (a: Action)
        ensures
            (final(self)@, a@) == step(old(self)@, msg@, views(links@)),
    {
        match msg {
            Message::AddSource => {
                if self.sources.len() < MAX_SOURCES {
                    self.sources.push(String::new());
                }
                Action::Nothing
            },
            Message::RemoveSource(i) => {
                if self.sources.len() > 1 && i < self.sources.len() {
                    self.sources.remove(i);
                }
                Action::Nothing
            },
            Message::SourcePath(i, v) => {
                if self.status != Status::Running && i < self.sources.len() {
                    self.sources[i] = v;
                }
                Action::Nothing
            },
            Message::BrowseSourceDir(i) => Action::RequestSourceParent(i),
            Message::BrowseSourceWithParent(i) => {
                let filled = count_filled(&self.sources);
                let max_take = if filled < MAX_SOURCES {
                    MAX_SOURCES - filled
                } else {
                    0
                };
                Action::PickSources { index: i, max_take }
            },
            Message::SourceDirsPicked(i, paths) => self.take_picked(i, paths),
            Message::TargetPath(v) => {
                if self.status != Status::Running {
                    self.target = v;
                }
                Action::Nothing
            },
            Message::BrowseTargetDir => Action::RequestTargetParent,
            Message::BrowseTargetWithParent => Action::PickTarget,
            Message::TargetDirPicked(p) => {
                match p {
                    Some(p) => {
                        self.target = p;
                    },
                    None => {},
                }
                Action::Nothing
            },
            Message::Confirm => self.confirm(links),
            Message::Cancel => Action::Exit,
            Message::BackupAll => self.backup(links),
            Message::ClearAll => {
                if self.status != Status::Running {
                    self.clear_rows();
                    self.target = String::new();
                    self.set_status(Status::Idle, String::from_str("就绪"));
                }
                Action::Nothing
            },
            Message::ConfirmResult(r) | Message::BackupResult(r) => {
                match r {
                    Ok(m) => self.set_status(Status::Success, m),
                    Err(e) => self.set_status(Status::Error, e),
                }
                Action::Nothing
            },
            Message::Noop => Action::Nothing,
        }
    }

    /// Whether answering `msg` comes to the point where the filled rows are
    /// looked at on disk: moving or backing up that passed the other checks.
    fn needs_link_probe(&self, msg: &Message, sources: &Vec<String>) -> (r: bool)
        ensures
            r == link_probe_needed(self@, msg@, views(sources@)),
    {
        if self.status == Status::Running || sources.len() == 0 {
            return false;
        }
        match msg {
            Message::Confirm => !blank(self.target.as_str()) && find_duplicates(
                sources.as_slice(),
            ).len() == 0,
            Message::BackupAll => !has_repeat_rows(sources),
            _ => false,
        }
    }

    /// Answers `msg`: the form's next state, and the outside work to do.
    /// Moving and backing up look on disk for filled rows that are links;
    /// whatever is found there, the answer is the one `step` gives for some
    /// such rows.
    pub fn update(&mut self, msg: Message) -> (a: Action)
        ensures
            exists|links: Seq<Seq<char>>|
                links_of(old(self)@, links) && (final(self)@, a@) == step(
                    old(self)@,
                    msg@,
                    links,
                ),
            !link_probe_needed(old(self)@, msg@, nonblank(old(self)@.sources)) ==> (
            final(self)@,
            a@,
            ) == step(old(self)@, msg@, Seq::empty()),
            a@ is RunConfirm || a@ is RunBackup ==> link_probe_needed(
                old(self)@,
                msg@,
                nonblank(old(self)@.sources),
            ),
    {
        proof {
            lemma_jobs_ask_disk(self@, msg@);
        }
        let sources = nonblank_rows(&self.sources);
        let links = if self.needs_link_probe(&msg, &sources) {
            check_symlinks(&sources)
        } else {
            Vec::new()
        };
        let ghost before = self@;
        proof {
            let rows = nonblank(before.sources);
            assert(views(sources@) == rows);
            if links@.len() == 0 {
                let none = Seq::new(rows.len(), |k: int| false);
                lemma_links_in_no_answers(rows, none);
                assert(views(links@) =~= Seq::<Seq<char>>::empty());
                assert(links_in(rows, none) == views(links@));
            } else {
                let il = choose|il: Seq<bool>|
                    il.len() == sources@.len() && views(links@) == links_in(views(sources@), il);
                assert(links_in(rows, il) == views(links@));
            }
            assert(links_of(before, views(links@)));
        }
        self.update_with(msg, &links)
    }
}


/// Every message keeps the form between one and ten source rows.
pub proof fn lemma_step_keeps_wf(f: Form, e: Event, links: Seq<Seq<char>>)
    requires
        f.wf(),
    ensures
        step(f, e, links).0.wf(),
{
    match e {
        Event::SourceDirsPicked(i, paths) => {
            if paths.len() > 0 && i < f.sources.len() {
                let (valid, dups, _) = screen(names_of(f.sources, i as int), paths);
                if valid.len() > 0 {
                    lemma_place_picked(f.sources, i as int, valid);
                }
            }
        },
        _ => {},
    }
}

/// While a job runs, editing a row or the target, moving, backing up and
/// clearing leave the form as it is and ask for nothing.
pub proof fn lemma_running_locks_form(f: Form, e: Event, links: Seq<Seq<char>>)
    requires
        f.status == Status::Running,
        e is SourcePath || e is TargetPath || e is Confirm || e is BackupAll || e is ClearAll,
    ensures
        step(f, e, links) == (f, Effect::Nothing),
{
}

/// A job starts only on moving or backing up, and a running job ends only
/// with its report.
pub proof fn lemma_running_bracketed(f: Form, e: Event, links: Seq<Seq<char>>)
    ensures
        f.status != Status::Running && step(f, e, links).0.status == Status::Running ==> (
        e is Confirm || e is BackupAll),
        f.status == Status::Running && step(f, e, links).0.status != Status::Running ==> (
        e is ConfirmResult || e is BackupResult),
{
}

/// A move starts only with the filled rows, at least one, whose file names
/// are pairwise different, none of them a link, and with the trimmed target,
/// which is not empty.
pub proof fn lemma_confirm_starts_clean(f: Form, links: Seq<Seq<char>>)
    ensures
        step(f, Event::Confirm, links).1 is RunConfirm ==> {
            let sources = nonblank(f.sources);
            &&& f.status != Status::Running
            &&& step(f, Event::Confirm, links).0.status == Status::Running
            &&& step(f, Event::Confirm, links).1 == Effect::RunConfirm {
                sources,
                target: trim(f.target),
            }
            &&& sources.len() > 0
            &&& trim(f.target).len() > 0
            &&& links.len() == 0
            &&& forall|x: Seq<char>| #[trigger] occurrences(names_of(sources, -1), x) <= 1
        },
{
    let sources = nonblank(f.sources);
    lemma_repeated(names_of(sources, -1));
    if step(f, Event::Confirm, links).1 is RunConfirm {
        assert forall|x: Seq<char>| #[trigger] occurrences(names_of(sources, -1), x) <= 1 by {
            if occurrences(names_of(sources, -1), x) >= 2 {
                assert(repeated(names_of(sources, -1)).contains(x));
            }
        }
    }
}

/// A backup starts only with the filled rows, at least one, pairwise
/// different and none of them a link.
pub proof fn lemma_backup_starts_clean(f: Form, links: Seq<Seq<char>>)
    ensures
        step(f, Event::BackupAll, links).1 is RunBackup ==> {
            let sources = nonblank(f.sources);
            &&& f.status != Status::Running
            &&& step(f, Event::BackupAll, links).0.status == Status::Running
            &&& step(f, Event::BackupAll, links).1 == Effect::RunBackup { sources }
            &&& sources.len() > 0
            &&& !has_repeat(sources)
            &&& links.len() == 0
        },
{
}

/// Picking folders for a row never changes another row that holds a path,
/// and the picked paths that are kept carry pairwise different file names
/// that no other filled row has.
pub proof fn lemma_picked_keeps_rows(f: Form, i: usize, paths: Seq<Seq<char>>)
    requires
        f.wf(),
    ensures
        ({
            let g = step(f, Event::SourceDirsPicked(i, paths), Seq::empty()).0;
            let (valid, _, _) = screen(names_of(f.sources, i as int), paths);
            &&& forall|k: int|
                0 <= k < f.sources.len() && k != i && !is_blank(f.sources[k]) ==> #[trigger] g.sources[k]
                    == f.sources[k]
            &&& distinct(picked_names(valid))
            &&& forall|n: Seq<char>|
                picked_names(valid).contains(n) ==> !names_of(f.sources, i as int).contains(n)
        }),
{
    let (valid, dups, _) = screen(names_of(f.sources, i as int), paths);
    lemma_screen(names_of(f.sources, i as int), paths);
    if paths.len() > 0 && i < f.sources.len() && valid.len() > 0 {
        lemma_place_picked(f.sources, i as int, valid);
    }
}


/// A move starts whenever no job runs, some row is filled, the trimmed target
/// is not empty, no file name is shared by two filled rows and no filled row
/// is a link: it starts with the filled rows and the trimmed target, and the
/// form stands at running.
pub proof fn lemma_confirm_starts(f: Form, links: Seq<Seq<char>>)
    ensures
        f.status != Status::Running && nonblank(f.sources).len() > 0 && trim(f.target).len() > 0
            && (forall|x: Seq<char>|
            #[trigger] occurrences(names_of(nonblank(f.sources), -1), x) <= 1) && links.len() == 0
            ==> step(f, Event::Confirm, links) == (
            Form { status: Status::Running, message: "正在处理..."@, ..f },
            Effect::RunConfirm { sources: nonblank(f.sources), target: trim(f.target) },
        ),
{
    let names = names_of(nonblank(f.sources), -1);
    lemma_repeated(names);
    if forall|x: Seq<char>| #[trigger] occurrences(names, x) <= 1 {
        if repeated(names).len() > 0 {
            let x = repeated(names)[0];
            assert(repeated(names).contains(x));
            assert(occurrences(names, x) <= 1);
        }
    }
}

/// A backup starts whenever no job runs, some row is filled, the filled rows
/// are pairwise different and none is a link: it starts with the filled
/// rows, and the form stands at running.
pub proof fn lemma_backup_starts(f: Form, links: Seq<Seq<char>>)
    ensures
        f.status != Status::Running && nonblank(f.sources).len() > 0 && (forall|i: int, j: int|
            0 <= i < j < nonblank(f.sources).len() ==> nonblank(f.sources)[i] != nonblank(
                f.sources,
            )[j]) && links.len() == 0 ==> step(f, Event::BackupAll, links) == (
            Form { status: Status::Running, message: "正在备份..."@, ..f },
            Effect::RunBackup { sources: nonblank(f.sources) },
        ),
{
}

/// No job starts unless the filled rows are looked at on disk first: where
/// moving or backing up would start a job with no link found, answering it
/// asks the disk about the filled rows.
pub proof fn lemma_jobs_ask_disk(f: Form, e: Event)
    ensures
        step(f, e, Seq::empty()).1 is RunConfirm || step(f, e, Seq::empty()).1 is RunBackup
            ==> link_probe_needed(f, e, nonblank(f.sources)),
{
    lemma_trim_empty_iff_blank(f.target);
    match e {
        Event::SourceDirsPicked(i, paths) => {
            let r = step_picked(f, i, paths);
            assert(!(r.1 is RunConfirm) && !(r.1 is RunBackup));
        },
        Event::ConfirmResult(r) => {},
        Event::BackupResult(r) => {},
        _ => {},
    }
}

} // verus!
