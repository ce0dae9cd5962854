use vstd::prelude::*;

use crate::sources::{count_filled, filled_count};
use crate::state::{MkLineExe, Status, MAX_SOURCES, nonblank};
use crate::text::{blank, decimal, decimal_string, is_blank};

verus! {

/// Which controls of the window answer, and the count shown on the add
/// button.
pub struct Controls {
    /// A job runs.
    pub running: bool,
    /// How many source rows hold more than white space.
    pub filled: usize,
    /// The add button answers: no job runs and fewer than ten rows exist.
    pub can_add: bool,
    /// The browse buttons of the rows and of the target answer: no job runs.
    pub can_browse: bool,
    /// The remove buttons of the rows answer: no job runs and more than one row exists.
    pub can_remove: bool,
    /// The move button answers: no job runs, the target holds more than white
    /// space and some row does.
    pub can_confirm: bool,
    /// The backup and clear buttons answer: no job runs.
    pub can_backup: bool,
}

/// The label of the add button: `+ 添加源(<filled>/10)`.
pub open spec fn add_label_text(filled: nat) -> Seq<char> {
    "+ 添加源("@ + decimal(filled) + "/10)"@
}

/// The mark before the status line: a ring while a job runs, else a dot.
pub open spec fn status_mark(status: Status) -> Seq<char> {
    if status == Status::Running {
        "◉"@
    } else {
        "●"@
    }
}

impl MkLineExe {
    /// Which controls answer, as the window shows the form.
    pub fn controls(&self) -> (c: Controls)
        ensures
            c.running == (self.status == Status::Running),
            c.filled == filled_count(self@.sources),
            c.can_add == (!c.running && self@.sources.len() < MAX_SOURCES),
            c.can_browse == !c.running,
            c.can_remove == (!c.running && self@.sources.len() > 1),
            c.can_confirm == (!c.running && !is_blank(self@.target) && nonblank(
                self@.sources,
            ).len() > 0),
            c.can_backup == !c.running,
    {
        let running = self.status == Status::Running;
        let filled = count_filled(&self.sources);
        let mut any_filled = false;
        let mut k: usize = 0;
        while k < self.sources.len()
            invariant
                k <= self@.sources.len(),
                any_filled == (nonblank(self@.sources.take(k as int)).len() > 0),
            decreases self@.sources.len() - k,
        {
            assert(self@.sources.take(k + 1).drop_last() =~= self@.sources.take(k as int));
            assert(self@.sources.take(k + 1).last() == self.sources@[k as int]@);
            if !blank(self.sources[k].as_str()) {
                any_filled = true;
            }
            k = k + 1;
        }
        assert(self@.sources.take(self@.sources.len() as int) =~= self@.sources);
        Controls {
            running,
            filled,
            can_add: !running && self.sources.len() < MAX_SOURCES,
            can_browse: !running,
            can_remove: !running && self.sources.len() > 1,
            can_confirm: !running && !blank(self.target.as_str()) && any_filled,
            can_backup: !running,
        }
    }

    /// The line under the form: the status mark, two spaces, the message.
    pub fn status_line(&self) -> (r: String)
        ensures
            r@ == status_mark(self.status) + "  "@ + self.status_message@,
    {
        let mut r = if self.status == Status::Running {
            String::from_str("◉")
        } else {
            String::from_str("●")
        };
        r.append("  ");
        r.append(self.status_message.as_str());
        r
    }
}

/// The label of the add button, as `add_label_text` says.
pub fn add_label(filled: usize) -> (r: String)
    ensures
        r@ == add_label_text(filled as nat),
{
    let mut r = String::from_str("+ 添加源(");
    r.append(decimal_string(filled).as_str());
    r.append("/10)");
    r
}

} // verus!
