use vstd::prelude::*;

use crate::text::{join, join_strings, views};

verus! {

/// What stands at a source's old place once its step of a move is over:
/// the source itself (never put away, or copied back), the link to its new
/// place, or nothing (put away, and neither linked nor copied back).
#[derive(Clone, Copy, Debug, PartialEq, Eq, Structural)]
pub enum LinkState {
    Intact,
    Linked,
    Lost,
}

/// Where one source of a move stands after it was copied: next to put the
/// source in the recycle bin, next to link its old place to the copy, next
/// to copy it back after linking failed with the given reason, or done.
#[derive(Debug)]
pub enum LinkStep {
    Trash,
    Link,
    Restore(String),
    Done(LinkState, Option<String>),
}

/// The failure of putting `src` in the recycle bin, for reason `e`.
pub open spec fn trash_failed_text(src: Seq<char>, e: Seq<char>) -> Seq<char> {
    "删除源到回收站失败 '"@ + src + "': "@ + e
}

/// The failure of linking `src` to `dst` for reason `e`, the source copied
/// back.
pub open spec fn link_failed_text(src: Seq<char>, dst: Seq<char>, e: Seq<char>) -> Seq<char> {
    "创建链接失败 '"@ + src + "' -> '"@ + dst + "': "@ + e + " (源已恢复)"@
}

/// The failure of linking `src` to `dst` for reason `e`, and of copying it
/// back for reason `e2`.
pub open spec fn restore_failed_text(
    src: Seq<char>,
    dst: Seq<char>,
    e: Seq<char>,
    e2: Seq<char>,
) -> Seq<char> {
    "创建链接失败且恢复失败 '"@ + src + "' -> '"@ + dst + "': "@ + e + " / "@ + e2
}

/// The next step of the source `src`, copied to `dst`, once the work of
/// `step` gave `result`: a failure to put it away ends it in place with a
/// message; a put-away source is linked next; a link ends it linked; a
/// failed link has it copied back, which ends it in place (copied back) or
/// lost, each with a message. A finished step stays as it is.
pub fn link_next(src: &str, dst: &str, step: LinkStep, result: Result<(), String>) -> (r: LinkStep)
    ensures
        match step {
            LinkStep::Trash => match result {
                Ok(()) => r is Link,
                Err(e) => r matches LinkStep::Done(LinkState::Intact, Some(m)) && m@
                    == trash_failed_text(src@, e@),
            },
            LinkStep::Link => match result {
                Ok(()) => r matches LinkStep::Done(LinkState::Linked, None),
                Err(e) => r matches LinkStep::Restore(le) && le@ == e@,
            },
            LinkStep::Restore(le) => match result {
                Ok(()) => r matches LinkStep::Done(LinkState::Intact, Some(m)) && m@
                    == link_failed_text(src@, dst@, le@),
                Err(e2) => r matches LinkStep::Done(LinkState::Lost, Some(m)) && m@
                    == restore_failed_text(src@, dst@, le@, e2@),
            },
            LinkStep::Done(state, m) => r == LinkStep::Done(state, m),
        },
{
    match step {
        LinkStep::Trash => match result {
            Ok(()) => LinkStep::Link,
            Err(e) => {
                let mut m = String::from_str("删除源到回收站失败 '");
                m.append(src);
                m.append("': ");
                m.append(e.as_str());
                LinkStep::Done(LinkState::Intact, Some(m))
            },
        },
        LinkStep::Link => match result {
            Ok(()) => LinkStep::Done(LinkState::Linked, None),
            Err(e) => LinkStep::Restore(e),
        },
        LinkStep::Restore(le) => {
            let mut m = match result {
                Ok(()) => String::from_str("创建链接失败 '"),
                Err(_) => String::from_str("创建链接失败且恢复失败 '"),
            };
            m.append(src);
            m.append("' -> '");
            m.append(dst);
            m.append("': ");
            m.append(le.as_str());
            match result {
                Ok(()) => {
                    m.append(" (源已恢复)");
                    LinkStep::Done(LinkState::Intact, Some(m))
                },
                Err(e2) => {
                    m.append(" / ");
                    m.append(e2.as_str());
                    LinkStep::Done(LinkState::Lost, Some(m))
                },
            }
        },
        LinkStep::Done(state, m) => LinkStep::Done(state, m),
    }
}

/// How the step of one source of a move ended: the source, its copy, what
/// stands at its old place, and the failure, if there was one.
pub struct LinkOutcome {
    pub src: String,
    pub dst: String,
    pub state: LinkState,
    pub error: Option<String>,
}

/// Undoing a move for one source: remove the copy, the source being in
/// place; or copy the source back to its old place (after removing the link
/// there, where `unlink`), and remove the copy once the source is back.
#[derive(Debug, PartialEq, Eq)]
pub enum UndoTask {
    Remove(String),
    Restore { src: String, dst: String, unlink: bool },
}

/// The failures of the steps, in order.
pub open spec fn link_errors(items: Seq<LinkOutcome>) -> Seq<Seq<char>>
    decreases items.len(),
{
    if items.len() == 0 {
        Seq::empty()
    } else {
        let prev = link_errors(items.drop_last());
        match items.last().error {
            Some(m) => prev.push(m@),
            None => prev,
        }
    }
}

/// `task` undoes the move of `item`: a source in place has its copy
/// removed; a linked or lost source is copied back (a linked one after its
/// link is removed), and then its copy removed.
pub open spec fn undoes(item: LinkOutcome, task: UndoTask) -> bool {
    match item.state {
        LinkState::Intact => task matches UndoTask::Remove(d) && d@ == item.dst@,
        LinkState::Linked => task matches UndoTask::Restore { src, dst, unlink } && src@
            == item.src@ && dst@ == item.dst@ && unlink,
        LinkState::Lost => task matches UndoTask::Restore { src, dst, unlink } && src@
            == item.src@ && dst@ == item.dst@ && !unlink,
    }
}

fn undo_task(item: &LinkOutcome) -> (t: UndoTask)
    ensures
        undoes(*item, t),
{
    match item.state {
        LinkState::Intact => UndoTask::Remove(item.dst.clone()),
        LinkState::Linked => UndoTask::Restore {
            src: item.src.clone(),
            dst: item.dst.clone(),
            unlink: true,
        },
        LinkState::Lost => UndoTask::Restore {
            src: item.src.clone(),
            dst: item.dst.clone(),
            unlink: false,
        },
    }
}

/// After every source of a move was put away and linked: where nothing
/// failed, the move is done; else the whole move is undone, every source,
/// in order, getting the task that brings it back to its old place and
/// removes its copy, and the move fails with the failures, one a line.
pub fn settle_links(items: &Vec<LinkOutcome>) -> (r: Result<(), (Vec<UndoTask>, String)>)
    ensures
        link_errors(items@).len() == 0 <==> r is Ok,
        r matches Err((tasks, e)) ==> {
            &&& e@ == join(link_errors(items@), "\n"@)
            &&& tasks@.len() == items@.len()
            &&& forall|k: int| 0 <= k < items@.len() ==> undoes(items@[k], #[trigger] tasks@[k])
        },
{
    let n = items.len();
    let mut errors: Vec<String> = Vec::new();
    let mut tasks: Vec<UndoTask> = Vec::new();
    let mut k: usize = 0;
    while k < n
        invariant
            n == items@.len(),
            k <= n,
            views(errors@) == link_errors(items@.take(k as int)),
            tasks@.len() == k,
            forall|j: int| 0 <= j < k ==> undoes(items@[j], #[trigger] tasks@[j]),
        decreases n - k,
    {
        assert(items@.take(k + 1).drop_last() =~= items@.take(k as int));
        assert(items@.take(k + 1).last() == items@[k as int]);
        match &items[k].error {
            Some(m) => {
                let ghost before = views(errors@);
                errors.push(m.clone());
                assert(views(errors@) =~= before.push(m@));
            },
            None => {},
        }
        tasks.push(undo_task(&items[k]));
        k = k + 1;
    }
    assert(items@.take(n as int) =~= items@);
    if errors.len() == 0 {
        Ok(())
    } else {
        Err((tasks, join_strings(&errors, "\n")))
    }
}

} // verus!
