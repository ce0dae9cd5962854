use vstd::prelude::*;

use crate::paths::{
    file_name, file_name_of, join_path, joined, parent, parent_of, path_exists, path_is_symlink,
    same_path, same_path_of,
};
use crate::text::{blank, decimal, decimal_string, is_blank, join, join_strings, views};

verus! {


/// Where the backup of `src` goes: the same folder, with `(1)` after the
/// name; or the message that says why there is no such place.
pub open spec fn backup_target(src: Seq<char>) -> Result<Seq<char>, Seq<char>> {
    match parent_of(src) {
        None => Err("无法获取父目录: '"@ + src + "'"@),
        Some(dir) => match file_name_of(src) {
            None => Err("无法获取文件名: '"@ + src + "'"@),
            Some(name) => Ok(joined(dir, name + "(1)"@)),
        },
    }
}

/// The message for a backup place that is already taken.
pub open spec fn backup_taken_message(path: Seq<char>) -> Seq<char> {
    "备份路径已存在: '"@ + path + "'"@
}

/// Works out where the backup of `src` goes, as `backup_target` says.
pub fn backup_path(src: &str) -> (r: Result<String, String>)
    ensures
        match (r, backup_target(src@)) {
            (Ok(p), Ok(q)) => p@ == q,
            (Err(e), Err(f)) => e@ == f,
            _ => false,
        },
{
    let dir = match parent(src) {
        Some(d) => d,
        None => {
            let mut e = String::from_str("无法获取父目录: '");
            e.append(src);
            e.append("'");
            return Err(e);
        },
    };
    let name = match file_name(src) {
        Some(n) => n,
        None => {
            let mut e = String::from_str("无法获取文件名: '");
            e.append(src);
            e.append("'");
            return Err(e);
        },
    };
    let mut backup_name = name;
    backup_name.append("(1)");
    Ok(join_path(dir.as_str(), backup_name.as_str()))
}

/// The verdict on a backup place once it is known whether something is
/// already there: the place itself, or the message that it is taken.
pub fn settle_backup(path: String, taken: bool) -> (r: Result<String, String>)
    ensures
        taken ==> (r matches Err(e) && e@ == backup_taken_message(path@)),
        !taken ==> r == Ok::<String, String>(path),
{
    if taken {
        let mut e = String::from_str("备份路径已存在: '");
        e.append(path.as_str());
        e.append("'");
        Err(e)
    } else {
        Ok(path)
    }
}

/// Checks that `src` can be backed up and gives the path of its backup: the
/// same folder, with `(1)` after the name. Fails where the path has no
/// parent or no file name, or where something is already at the backup
/// place on disk (which is asked of the disk, so no clause says when).
pub fn backup_validate(src: &str) -> (r: Result<String, String>)
    ensures
        match backup_target(src@) {
            Err(e) => r matches Err(f) && f@ == e,
            Ok(p) => match r {
                Ok(q) => q@ == p,
                Err(e) => e@ == backup_taken_message(p),
            },
        },
{
    match backup_path(src) {
        Err(e) => Err(e),
        Ok(p) => {
            let taken = path_exists(p.as_str());
            settle_backup(p, taken)
        },
    }
}


/// Whether the answer at index `k` is yes; past the end of the answers, no.
pub open spec fn answer(answers: Seq<bool>, k: int) -> bool {
    0 <= k < answers.len() && answers[k]
}

/// The rows that hold more than white space and whose answer in `is_link` is
/// yes, in row order.
pub open spec fn links_in(rows: Seq<Seq<char>>, is_link: Seq<bool>) -> Seq<Seq<char>>
    decreases rows.len(),
{
    if rows.len() == 0 {
        Seq::empty()
    } else {
        let k = rows.len() - 1;
        let prev = links_in(rows.drop_last(), is_link);
        if !is_blank(rows[k]) && answer(is_link, k) {
            prev.push(rows[k])
        } else {
            prev
        }
    }
}

/// Where every answer is no, no row is a link.
pub proof fn lemma_links_in_no_answers(rows: Seq<Seq<char>>, is_link: Seq<bool>)
    requires
        forall|k: int| 0 <= k < is_link.len() ==> !is_link[k],
    ensures
        links_in(rows, is_link) == Seq::<Seq<char>>::empty(),
    decreases rows.len(),
{
    if rows.len() > 0 {
        lemma_links_in_no_answers(rows.drop_last(), is_link);
    }
}

fn answer_at(answers: &Vec<bool>, k: usize) -> (r: bool)
    ensures
        r == answer(answers@, k as int),
{
    k < answers.len() && answers[k]
}

/// The rows that hold more than white space and whose answer in `is_link`
/// is yes, in row order, as `links_in` says.
pub fn links_among(sources: &Vec<String>, is_link: &Vec<bool>) -> (r: Vec<String>)
    ensures
        views(r@) == links_in(views(sources@), is_link@),
{
    let mut links: Vec<String> = Vec::new();
    let n = sources.len();
    let mut k: usize = 0;
    while k < n
        invariant
            n == sources@.len(),
            k <= n,
            views(links@) == links_in(views(sources@).take(k as int), is_link@),
        decreases n - k,
    {
        assert(views(sources@).take(k + 1).drop_last() =~= views(sources@).take(k as int));
        assert(views(sources@).take(k + 1).last() == sources@[k as int]@);
        if !blank(sources[k].as_str()) && answer_at(is_link, k) {
            let ghost before = views(links@);
            links.push(sources[k].clone());
            assert(views(links@) =~= before.push(sources@[k as int]@));
        }
        k = k + 1;
    }
    assert(views(sources@).take(n as int) =~= views(sources@));
    links
}

/// The source rows that hold more than white space and that are symbolic
/// links (or junctions) on disk, in row order. Each filled row is asked of
/// the disk; the rows come back as `links_among` gives them for those
/// answers.
pub fn check_symlinks(sources: &Vec<String>) -> (r: Vec<String>)
    ensures
        exists|is_link: Seq<bool>|
            is_link.len() == sources@.len() && views(r@) == links_in(views(sources@), is_link),
{
    let mut answers: Vec<bool> = Vec::new();
    let n = sources.len();
    let mut k: usize = 0;
    while k < n
        invariant
            n == sources@.len(),
            k <= n,
            answers@.len() == k,
        decreases n - k,
    {
        let is_link = if blank(sources[k].as_str()) {
            false
        } else {
            path_is_symlink(sources[k].as_str())
        };
        answers.push(is_link);
        k = k + 1;
    }
    links_among(sources, &answers)
}

/// The notice that the listed rows are links and cannot be moved.
pub open spec fn symlink_notice_text(links: Seq<Seq<char>>) -> Seq<char> {
    join(links, "\n"@) + "\n是软连接不可迁移"@
}

/// The notice that the listed rows are links and cannot be moved: one path a
/// line, then the reason.
pub fn symlink_notice(links: &Vec<String>) -> (r: String)
    ensures
        r@ == symlink_notice_text(views(links@)),
{
    let mut r = join_strings(links, "\n");
    r.append("\n是软连接不可迁移");
    r
}

/// The notice lines for names taken twice, `<name> 重复` each.
pub open spec fn duplicate_lines(names: Seq<Seq<char>>) -> Seq<Seq<char>> {
    names.map_values(|n: Seq<char>| n + " 重复"@)
}

/// The notice that the listed file names are taken twice: one line a name.
pub open spec fn duplicate_notice_text(names: Seq<Seq<char>>) -> Seq<char> {
    join(duplicate_lines(names), "\n"@)
}

/// The notice that the listed file names are taken twice, `<name> 重复` one a
/// line.
pub fn duplicate_notice(names: &Vec<String>) -> (r: String)
    ensures
        r@ == duplicate_notice_text(views(names@)),
{
    let mut lines: Vec<String> = Vec::new();
    let n = names.len();
    let mut k: usize = 0;
    while k < n
        invariant
            n == names@.len(),
            k <= n,
            lines@.len() == k,
            views(lines@) == duplicate_lines(views(names@).take(k as int)),
        decreases n - k,
    {
        let ghost old_lines = views(lines@);
        let mut line = names[k].clone();
        line.append(" 重复");
        lines.push(line);
        assert forall|i: int| 0 <= i < k + 1 implies #[trigger] views(lines@)[i] == duplicate_lines(
            views(names@).take(k + 1),
        )[i] by {
            if i < k {
                assert(lines@[i] == lines@.drop_last()[i]);
                assert(views(lines@)[i] == old_lines[i]);
                assert(old_lines[i] == duplicate_lines(views(names@).take(k as int))[i]);
            }
        }
        assert(views(lines@) =~= duplicate_lines(views(names@).take(k + 1)));
        k = k + 1;
    }
    assert(views(names@).take(n as int) =~= views(names@));
    join_strings(&lines, "\n")
}

/// The `[k/total] ` that opens the message on the source at index `k`.
pub open spec fn tag(k: int, total: int) -> Seq<char> {
    "["@ + decimal((k + 1) as nat) + "/"@ + decimal(total as nat) + "] "@
}

/// A message on the source at index `k`: its tag, the text of the fault
/// (which ends in an opening quote), the path, and a closing quote.
pub open spec fn tagged(k: int, total: int, fault: Seq<char>, path: Seq<char>) -> Seq<char> {
    tag(k, total) + fault + path + "'"@
}

fn tagged_message(k: usize, total: usize, fault: &str, path: &str) -> (r: String)
    requires
        k < total,
    ensures
        r@ == tagged(k as int, total as int, fault@, path@),
{
    let mut r = progress_note(k, total, fault);
    r.append(path);
    r.append("'");
    r
}

/// A note on the source at index `k` out of `total`: its tag, then `text`.
pub fn progress_note(k: usize, total: usize, text: &str) -> (r: String)
    requires
        k < total,
    ensures
        r@ == tag(k as int, total as int) + text@,
{
    let mut r = String::from_str("[");
    r.append(decimal_string(k + 1).as_str());
    r.append("/");
    r.append(decimal_string(total).as_str());
    r.append("] ");
    r.append(text);
    r
}

/// The report of a move that went through: how many sources it handled.
pub fn moved_message(total: usize) -> (r: String)
    ensures
        r@ == "成功处理 "@ + decimal(total as nat) + " 个源"@,
{
    let mut r = String::from_str("成功处理 ");
    r.append(decimal_string(total).as_str());
    r.append(" 个源");
    r
}

/// A plan as text: each source with its place.
pub open spec fn plan_view(plans: Seq<(String, String)>) -> Seq<(Seq<char>, Seq<char>)> {
    plans.map_values(|p: (String, String)| (p.0@, p.1@))
}

/// A planning outcome as text.
pub open spec fn plan_result_view(r: Result<Vec<(String, String)>, String>) -> Result<
    Seq<(Seq<char>, Seq<char>)>,
    Seq<char>,
> {
    match r {
        Ok(plans) => Ok(plan_view(plans@)),
        Err(e) => Err(e@),
    }
}

/// Some pair of the plan goes to a place `std::path` holds equal to `dst`.
pub open spec fn place_in_plan(plans: Seq<(Seq<char>, Seq<char>)>, dst: Seq<char>) -> bool {
    exists|j: int| 0 <= j < plans.len() && same_path_of(plans[j].1, dst)
}

/// Whether some pair of the plan goes to a place `std::path` holds equal to
/// `dst`.
pub fn any_same_place(plans: &Vec<(String, String)>, dst: &String) -> (r: bool)
    ensures
        r == place_in_plan(plan_view(plans@), dst@),
{
    let mut i: usize = 0;
    while i < plans.len()
        invariant
            i <= plans@.len(),
            forall|j: int| 0 <= j < i ==> !same_path_of(#[trigger] plans@[j].1@, dst@),
        decreases plans@.len() - i,
    {
        if same_path(plans[i].1.as_str(), dst.as_str()) {
            assert(plan_view(plans@)[i as int].1 == plans@[i as int].1@);
            return true;
        }
        i = i + 1;
    }
    proof {
        if place_in_plan(plan_view(plans@), dst@) {
            let j = choose|j: int|
                0 <= j < plan_view(plans@).len() && same_path_of(plan_view(plans@)[j].1, dst@);
            assert(plan_view(plans@)[j].1 == plans@[j].1@);
        }
    }
    false
}

/// Where the source at index `k` goes in `target`: the target folder joined
/// with the source's file name.
pub open spec fn move_dest(sources: Seq<Seq<char>>, target: Seq<char>, k: int) -> Seq<char> {
    joined(target, file_name_of(sources[k])->0)
}

/// The place of the source `src` in `target`: the target folder joined with
/// the source's file name, where it has one.
pub fn move_place(src: &str, target: &str) -> (r: Option<String>)
    ensures
        match file_name_of(src@) {
            Some(n) => r matches Some(p) && p@ == joined(target@, n),
            None => r is None,
        },
{
    match file_name(src) {
        Some(name) => Some(join_path(target, name.as_str())),
        None => None,
    }
}

/// What stops a move at the source at index `k`, checked in this order,
/// given for each source whether it is there on disk (`there`) and whether
/// its place in the target is taken (`taken`): the source is missing; it has
/// no file name; its place is taken (unless taken places are to be
/// overwritten); an earlier source goes to the same place.
pub open spec fn move_fault_at(
    sources: Seq<Seq<char>>,
    target: Seq<char>,
    overwrite: bool,
    there: Seq<bool>,
    taken: Seq<bool>,
    k: int,
) -> Option<Seq<char>> {
    let total = sources.len() as int;
    let src = sources[k];
    if !answer(there, k) {
        Some(tagged(k, total, "源路径不存在: '"@, src))
    } else if file_name_of(src) is None {
        Some(tagged(k, total, "无效的源路径: '"@, src))
    } else if !overwrite && answer(taken, k) {
        Some(tagged(k, total, "目标路径已存在: '"@, move_dest(sources, target, k)))
    } else if exists|j: int|
        0 <= j < k && same_path_of(move_dest(sources, target, j), move_dest(sources, target, k)) {
        Some(tagged(k, total, "目标路径冲突: '"@, move_dest(sources, target, k)))
    } else {
        None
    }
}

/// The plan for the first `n` sources: each source with its place, or the
/// fault of the first source, in row order, that has one.
pub open spec fn move_plan_upto(
    sources: Seq<Seq<char>>,
    target: Seq<char>,
    overwrite: bool,
    there: Seq<bool>,
    taken: Seq<bool>,
    n: int,
) -> Result<Seq<(Seq<char>, Seq<char>)>, Seq<char>>
    decreases n,
{
    if n <= 0 {
        Ok(Seq::empty())
    } else {
        match move_plan_upto(sources, target, overwrite, there, taken, n - 1) {
            Err(e) => Err(e),
            Ok(plans) => match move_fault_at(sources, target, overwrite, there, taken, n - 1) {
                Some(e) => Err(e),
                None => Ok(plans.push((sources[n - 1], move_dest(sources, target, n - 1)))),
            },
        }
    }
}

/// The plan for all sources, as `move_plan_upto` says.
pub open spec fn move_plan(
    sources: Seq<Seq<char>>,
    target: Seq<char>,
    overwrite: bool,
    there: Seq<bool>,
    taken: Seq<bool>,
) -> Result<Seq<(Seq<char>, Seq<char>)>, Seq<char>> {
    move_plan_upto(sources, target, overwrite, there, taken, sources.len() as int)
}

/// Once a fault stops the plan, it stays the outcome for every longer prefix.
proof fn lemma_move_plan_stays(
    sources: Seq<Seq<char>>,
    target: Seq<char>,
    overwrite: bool,
    there: Seq<bool>,
    taken: Seq<bool>,
    m: int,
    n: int,
)
    requires
        0 <= m <= n,
        move_plan_upto(sources, target, overwrite, there, taken, m) is Err,
    ensures
        move_plan_upto(sources, target, overwrite, there, taken, n) == move_plan_upto(
            sources,
            target,
            overwrite,
            there,
            taken,
            m,
        ),
    decreases n - m,
{
    if n > m {
        lemma_move_plan_stays(sources, target, overwrite, there, taken, m, n - 1);
    }
}

/// What a move plan that went through says, for the first `n` sources.
proof fn lemma_move_plan_upto_ok(
    rows: Seq<Seq<char>>,
    target: Seq<char>,
    overwrite: bool,
    there: Seq<bool>,
    taken: Seq<bool>,
    n: int,
)
    requires
        0 <= n <= rows.len(),
    ensures
        move_plan_upto(rows, target, overwrite, there, taken, n) matches Ok(plans) ==> {
            &&& plans.len() == n
            &&& forall|k: int|
                #![trigger plans[k]]
                #![trigger answer(there, k)]
                #![trigger answer(taken, k)]
                #![trigger file_name_of(rows[k])]
                0 <= k < n ==> answer(there, k) && file_name_of(rows[k]) is Some && (!overwrite
                    ==> !answer(taken, k)) && plans[k].0 == rows[k] && plans[k].1 == joined(
                    target,
                    file_name_of(rows[k])->0,
                )
            &&& forall|i: int, j: int|
                0 <= i < j < plans.len() ==> !same_path_of(plans[i].1, plans[j].1)
        },
    decreases n,
{
    if n > 0 {
        lemma_move_plan_upto_ok(rows, target, overwrite, there, taken, n - 1);
        match move_plan_upto(rows, target, overwrite, there, taken, n - 1) {
            Ok(p) => {
                if move_fault_at(rows, target, overwrite, there, taken, n - 1) is None {
                    let plans = p.push((rows[n - 1], move_dest(rows, target, n - 1)));
                    assert(move_plan_upto(rows, target, overwrite, there, taken, n) == Ok::<
                        Seq<(Seq<char>, Seq<char>)>,
                        Seq<char>,
                    >(plans));
                    assert forall|k: int|
                        #![trigger plans[k]]
                        #![trigger answer(there, k)]
                        #![trigger answer(taken, k)]
                        #![trigger file_name_of(rows[k])]
                        0 <= k < n implies answer(there, k) && file_name_of(rows[k]) is Some && (
                        !overwrite ==> !answer(taken, k)) && plans[k].0 == rows[k] && plans[k].1
                        == joined(target, file_name_of(rows[k])->0) by {
                        if k < n - 1 {
                            assert(plans[k] == p[k]);
                            assert(answer(there, k));
                        } else {
                            assert(answer(there, k));
                        }
                    }
                    assert forall|i: int, j: int|
                        0 <= i < j < plans.len() implies !same_path_of(
                        plans[i].1,
                        plans[j].1,
                    ) by {
                        if j == n - 1 {
                            assert(plans[i] == p[i]);
                            assert(p[i].1 == move_dest(rows, target, i));
                        } else {
                            assert(plans[i] == p[i] && plans[j] == p[j]);
                        }
                    }
                } else {
                    assert(move_plan_upto(rows, target, overwrite, there, taken, n) is Err);
                }
            },
            Err(_) => {
                assert(move_plan_upto(rows, target, overwrite, there, taken, n) is Err);
            },
        }
    }
}

/// A move plan that goes through pairs every source, in row order, with the
/// target folder joined with the source's file name; every source was there
/// on disk, had a file name and, unless taken places are overwritten, a free
/// place; and no two sources go to places `std::path` holds equal. So any
/// source that is missing, nameless, whose place is taken, or whose place
/// another source has, makes the plan fail.
pub proof fn lemma_move_plan_ok(
    rows: Seq<Seq<char>>,
    target: Seq<char>,
    overwrite: bool,
    there: Seq<bool>,
    taken: Seq<bool>,
)
    ensures
        move_plan(rows, target, overwrite, there, taken) matches Ok(plans) ==> {
            &&& plans.len() == rows.len()
            &&& forall|k: int|
                #![trigger plans[k]]
                #![trigger answer(there, k)]
                #![trigger answer(taken, k)]
                #![trigger file_name_of(rows[k])]
                0 <= k < rows.len() ==> answer(there, k) && file_name_of(rows[k]) is Some && (
                !overwrite ==> !answer(taken, k)) && plans[k].0 == rows[k] && plans[k].1 == joined(
                    target,
                    file_name_of(rows[k])->0,
                )
            &&& forall|i: int, j: int|
                0 <= i < j < plans.len() ==> !same_path_of(plans[i].1, plans[j].1)
        },
{
    lemma_move_plan_upto_ok(rows, target, overwrite, there, taken, rows.len() as int);
}

/// Checks every source before anything is moved and pairs it with its place
/// in `target`, given for each source whether it is there on disk (`there`)
/// and whether its place is taken (`taken`). The outcome is `move_plan`: the
/// plan, or the fault of the first faulty source in row order.
pub fn plan_moves_given(
    sources: &Vec<String>,
    target: &str,
    overwrite: bool,
    there: &Vec<bool>,
    taken: &Vec<bool>,
) -> (r: Result<Vec<(String, String)>, String>)
    ensures
        plan_result_view(r) == move_plan(views(sources@), target@, overwrite, there@, taken@),
        r matches Ok(plans) ==> {
            &&& plans@.len() == sources@.len()
            &&& forall|k: int|
                #![trigger plans@[k]]
                #![trigger answer(there@, k)]
                #![trigger answer(taken@, k)]
                #![trigger file_name_of(sources@[k]@)]
                0 <= k < sources@.len() ==> answer(there@, k) && file_name_of(sources@[k]@) is Some
                    && (!overwrite ==> !answer(taken@, k)) && plans@[k].0@ == sources@[k]@
                    && plans@[k].1@ == joined(target@, file_name_of(sources@[k]@)->0)
            &&& forall|i: int, j: int|
                0 <= i < j < plans@.len() ==> !same_path_of(plans@[i].1@, plans@[j].1@)
        },
{
    proof {
        lemma_move_plan_ok(views(sources@), target@, overwrite, there@, taken@);
    }
    let ghost rows = views(sources@);
    let total = sources.len();
    let mut plans: Vec<(String, String)> = Vec::new();
    assert(plan_view(plans@) =~= Seq::<(Seq<char>, Seq<char>)>::empty());
    let mut k: usize = 0;
    while k < total
        invariant
            total == sources@.len(),
            rows == views(sources@),
            k <= total,
            plans@.len() == k,
            forall|j: int|
                0 <= j < k ==> #[trigger] plan_view(plans@)[j] == (
                    rows[j],
                    move_dest(rows, target@, j),
                ),
            move_plan_upto(rows, target@, overwrite, there@, taken@, k as int) == Ok::<
                Seq<(Seq<char>, Seq<char>)>,
                Seq<char>,
            >(plan_view(plans@)),
        decreases total - k,
    {
        let src = sources[k].as_str();
        assert(rows[k as int] == src@);
        let ghost fault_spec = move_fault_at(rows, target@, overwrite, there@, taken@, k as int);
        let fault: Option<String> = if !answer_at(there, k) {
            let e = tagged_message(k, total, "源路径不存在: '", src);
            assert(fault_spec == Some(e@));
            Some(e)
        } else {
            match move_place(src, target) {
                None => {
                    let e = tagged_message(k, total, "无效的源路径: '", src);
                    assert(fault_spec == Some(e@));
                    Some(e)
                },
                Some(dst) => {
                    assert(dst@ == move_dest(rows, target@, k as int));
                    if !overwrite && answer_at(taken, k) {
                        let e = tagged_message(k, total, "目标路径已存在: '", dst.as_str());
                        assert(fault_spec == Some(e@));
                        Some(e)
                    } else if any_same_place(&plans, &dst) {
                        proof {
                            let j = choose|j: int|
                                0 <= j < plan_view(plans@).len() && same_path_of(
                                    plan_view(plans@)[j].1,
                                    dst@,
                                );
                            assert(plan_view(plans@)[j].1 == move_dest(rows, target@, j));
                        }
                        let e = tagged_message(k, total, "目标路径冲突: '", dst.as_str());
                        assert(fault_spec == Some(e@));
                        Some(e)
                    } else {
                        proof {
                            assert forall|j: int| 0 <= j < k implies !same_path_of(
                                move_dest(rows, target@, j),
                                move_dest(rows, target@, k as int),
                            ) by {
                                assert(plan_view(plans@)[j].1 == move_dest(rows, target@, j));
                            }
                        }
                        assert(fault_spec is None);
                        let ghost before = plan_view(plans@);
                        plans.push((sources[k].clone(), dst));
                        assert(plan_view(plans@) =~= before.push(
                            (rows[k as int], move_dest(rows, target@, k as int)),
                        ));
                        None
                    }
                },
            }
        };
        match fault {
            Some(e) => {
                proof {
                    assert(move_plan_upto(rows, target@, overwrite, there@, taken@, k + 1) == Err::<
                        Seq<(Seq<char>, Seq<char>)>,
                        Seq<char>,
                    >(e@));
                    lemma_move_plan_stays(
                        rows,
                        target@,
                        overwrite,
                        there@,
                        taken@,
                        k + 1,
                        total as int,
                    );
                }
                return Err(e);
            },
            None => {},
        }
        k = k + 1;
    }
    proof {
        let pv = plan_view(plans@);
        assert(move_plan(rows, target@, overwrite, there@, taken@) == Ok::<
            Seq<(Seq<char>, Seq<char>)>,
            Seq<char>,
        >(pv));
        assert forall|k: int| 0 <= k < plans@.len() implies #[trigger] pv[k] == (
            plans@[k].0@,
            plans@[k].1@,
        ) by {}
        assert forall|k: int| 0 <= k < sources@.len() implies rows[k] == (
            #[trigger] sources@[k])@ by {}
        assert forall|i: int, j: int|
            0 <= i < j < plans@.len() implies !same_path_of(plans@[i].1@, plans@[j].1@) by {
            assert(pv[i].1 == plans@[i].1@ && pv[j].1 == plans@[j].1@);
        }
        assert forall|k: int|
            #![trigger plans@[k]]
            #![trigger answer(there@, k)]
            #![trigger answer(taken@, k)]
            #![trigger file_name_of(sources@[k]@)]
            0 <= k < sources@.len() implies answer(there@, k) && file_name_of(sources@[k]@) is Some
                && (!overwrite ==> !answer(taken@, k)) && plans@[k].0@ == sources@[k]@
                && plans@[k].1@ == joined(target@, file_name_of(sources@[k]@)->0) by {
            assert(pv[k] == (plans@[k].0@, plans@[k].1@));
            assert(rows[k] == sources@[k]@);
        }
    }
    Ok(plans)
}

/// Checks every source before anything is moved and pairs it with its place
/// in `target`. Each source is asked of the disk (is it there; unless
/// `overwrite`, is its place taken); the outcome is the one
/// `plan_moves_given` gives for those answers, so it stops at the first
/// faulty source in row order. An empty source path is never there.
pub fn plan_moves(sources: &Vec<String>, target: &str, overwrite: bool) -> (r: Result<
    Vec<(String, String)>,
    String,
>)
    ensures
        exists|there: Seq<bool>, taken: Seq<bool>|
            {
                &&& there.len() == sources@.len()
                &&& taken.len() == sources@.len()
                &&& forall|k: int|
                    0 <= k < sources@.len() && (#[trigger] sources@[k])@.len() == 0 ==> !there[k]
                &&& plan_result_view(r) == move_plan(
                    views(sources@),
                    target@,
                    overwrite,
                    there,
                    taken,
                )
            },
        r matches Ok(plans) ==> {
            &&& plans@.len() == sources@.len()
            &&& forall|k: int|
                #![trigger plans@[k]]
                0 <= k < sources@.len() ==> file_name_of(sources@[k]@) is Some && plans@[k].0@
                    == sources@[k]@ && plans@[k].1@ == joined(
                    target@,
                    file_name_of(sources@[k]@)->0,
                )
            &&& forall|i: int, j: int|
                0 <= i < j < plans@.len() ==> !same_path_of(plans@[i].1@, plans@[j].1@)
        },
{
    let mut there: Vec<bool> = Vec::new();
    let mut taken: Vec<bool> = Vec::new();
    let n = sources.len();
    let mut k: usize = 0;
    while k < n
        invariant
            n == sources@.len(),
            k <= n,
            there@.len() == k,
            taken@.len() == k,
            forall|j: int| 0 <= j < k && (#[trigger] sources@[j])@.len() == 0 ==> !there@[j],
        decreases n - k,
    {
        let src = sources[k].as_str();
        there.push(path_exists(src));
        let place_taken = if overwrite {
            false
        } else {
            match move_place(src, target) {
                Some(place) => path_exists(place.as_str()),
                None => false,
            }
        };
        taken.push(place_taken);
        k = k + 1;
    }
    plan_moves_given(sources, target, overwrite, &there, &taken)
}

/// The file names of the rows that have one and whose answer in `taken` is
/// yes, in row order.
pub open spec fn collision_names(rows: Seq<Seq<char>>, taken: Seq<bool>) -> Seq<Seq<char>>
    decreases rows.len(),
{
    if rows.len() == 0 {
        Seq::empty()
    } else {
        let k = rows.len() - 1;
        let prev = collision_names(rows.drop_last(), taken);
        if file_name_of(rows[k]) is Some && answer(taken, k) {
            prev.push(file_name_of(rows[k])->0)
        } else {
            prev
        }
    }
}

/// A name is reported as taken exactly when some source with that file name
/// was answered taken: every source whose place is taken is reported.
pub proof fn lemma_collision_names(rows: Seq<Seq<char>>, taken: Seq<bool>)
    ensures
        forall|x: Seq<char>|
            #[trigger] collision_names(rows, taken).contains(x) <==> exists|k: int|
                0 <= k < rows.len() && answer(taken, k) && file_name_of(rows[k]) == Some(x),
        collision_names(rows, taken).len() <= rows.len(),
    decreases rows.len(),
{
    if rows.len() > 0 {
        let p = rows.drop_last();
        let n = rows.len() - 1;
        lemma_collision_names(p, taken);
        let prev = collision_names(p, taken);
        let cur = collision_names(rows, taken);
        assert forall|x: Seq<char>| #[trigger] cur.contains(x) <==> exists|k: int|
            0 <= k < rows.len() && answer(taken, k) && file_name_of(rows[k]) == Some(x) by {
            if cur.contains(x) {
                let i = choose|i: int| 0 <= i < cur.len() && cur[i] == x;
                if i < prev.len() {
                    assert(prev[i] == x);
                    assert(prev.contains(x));
                    let k = choose|k: int|
                        0 <= k < p.len() && answer(taken, k) && file_name_of(p[k]) == Some(x);
                    assert(rows[k] == p[k]);
                } else {
                    assert(file_name_of(rows[n]) == Some(x) && answer(taken, n));
                }
            }
            if exists|k: int|
                0 <= k < rows.len() && answer(taken, k) && file_name_of(rows[k]) == Some(x) {
                let k = choose|k: int|
                    0 <= k < rows.len() && answer(taken, k) && file_name_of(rows[k]) == Some(x);
                if k < n {
                    assert(p[k] == rows[k]);
                    assert(prev.contains(x));
                    let i = choose|i: int| 0 <= i < prev.len() && prev[i] == x;
                    assert(cur[i] == x);
                } else {
                    assert(cur[cur.len() - 1] == x);
                }
            }
        }
    }
}

/// The file names of the sources that have one and whose answer in `taken`
/// is yes, in row order, as `collision_names` says.
pub fn collisions_among(sources: &Vec<String>, taken: &Vec<bool>) -> (r: Vec<String>)
    ensures
        views(r@) == collision_names(views(sources@), taken@),
        forall|x: Seq<char>|
            #[trigger] views(r@).contains(x) <==> exists|k: int|
                0 <= k < sources@.len() && answer(taken@, k) && file_name_of(sources@[k]@) == Some(
                    x,
                ),
{
    proof {
        lemma_collision_names(views(sources@), taken@);
        assert forall|k: int| 0 <= k < sources@.len() implies views(sources@)[k] == (
            #[trigger] sources@[k])@ by {}
    }
    let mut names: Vec<String> = Vec::new();
    let n = sources.len();
    let mut k: usize = 0;
    while k < n
        invariant
            n == sources@.len(),
            k <= n,
            views(names@) == collision_names(views(sources@).take(k as int), taken@),
        decreases n - k,
    {
        assert(views(sources@).take(k + 1).drop_last() =~= views(sources@).take(k as int));
        assert(views(sources@).take(k + 1).last() == sources@[k as int]@);
        match file_name(sources[k].as_str()) {
            Some(name) => {
                if answer_at(taken, k) {
                    let ghost before = views(names@);
                    names.push(name);
                    assert(views(names@) =~= before.push(
                        file_name_of(sources@[k as int]@)->0,
                    ));
                }
            },
            None => {},
        }
        k = k + 1;
    }
    assert(views(sources@).take(n as int) =~= views(sources@));
    names
}

/// The names, among those of `sources`, whose place in `target` is already
/// taken on disk, in row order. The place of each source that has a name is
/// asked of the disk; the names come back as `collisions_among` gives them
/// for those answers.
pub fn target_collisions(sources: &Vec<String>, target: &str) -> (r: Vec<String>)
    ensures
        exists|taken: Seq<bool>|
            taken.len() == sources@.len() && views(r@) == collision_names(views(sources@), taken),
{
    let mut taken: Vec<bool> = Vec::new();
    let n = sources.len();
    let mut k: usize = 0;
    while k < n
        invariant
            n == sources@.len(),
            k <= n,
            taken@.len() == k,
        decreases n - k,
    {
        let place_taken = match move_place(sources[k].as_str(), target) {
            Some(place) => path_exists(place.as_str()),
            None => false,
        };
        taken.push(place_taken);
        k = k + 1;
    }
    collisions_among(sources, &taken)
}

/// Whether a move goes on once the names taken in the target are known and,
/// where there are such names, the user has answered the question: with no
/// such names, it goes on without overwriting; where the user agreed, it
/// goes on and overwrites; else it is cancelled.
pub fn overwrite_decision(collisions: &Vec<String>, proceed: bool) -> (r: Result<bool, String>)
    ensures
        collisions@.len() == 0 ==> r == Ok::<bool, String>(false),
        collisions@.len() > 0 && proceed ==> r == Ok::<bool, String>(true),
        collisions@.len() > 0 && !proceed ==> (r matches Err(e) && e@ == "已取消"@),
{
    if collisions.len() == 0 {
        Ok(false)
    } else if proceed {
        Ok(true)
    } else {
        Err(String::from_str("已取消"))
    }
}

/// After the copies of a move: where no copy failed, the move goes on;
/// else every copy that was made is to be removed again, and the move
/// fails with the failures, one a line.
pub fn settle_copies(copied: &Vec<String>, errors: &Vec<String>) -> (r: Result<
    (),
    (Vec<String>, String),
>)
    ensures
        errors@.len() == 0 <==> r is Ok,
        r matches Err((undo, e)) ==> undo@ == copied@ && e@ == join(views(errors@), "\n"@),
{
    if errors.len() == 0 {
        Ok(())
    } else {
        Err((copied.clone(), join_strings(errors, "\n")))
    }
}

/// The question put to the user when names are taken in the target.
pub open spec fn collision_question_text(names: Seq<Seq<char>>) -> Seq<char> {
    "目标目录已有["@ + join(names, ", "@) + "],是否继续迁移并覆盖"@
}

/// The question put to the user when names are taken in the target: the
/// names, and whether to go on and overwrite them.
pub fn collision_question(names: &Vec<String>) -> (r: String)
    ensures
        r@ == collision_question_text(views(names@)),
{
    let mut r = String::from_str("目标目录已有[");
    r.append(join_strings(names, ", ").as_str());
    r.append("],是否继续迁移并覆盖");
    r
}


/// Where the backup of the row at index `k` goes, where it has a place.
pub open spec fn backup_dest(rows: Seq<Seq<char>>, k: int) -> Seq<char> {
    match backup_target(rows[k]) {
        Ok(p) => p,
        Err(_) => Seq::empty(),
    }
}

/// What stops the backups at the source at index `k`, checked in this
/// order, given for each source whether it is there on disk (`there`) and
/// whether its backup place is taken (`taken`): the source is missing, so
/// there is nothing to back up; it has no backup place; its place is taken;
/// an earlier source has a place `std::path` holds equal.
pub open spec fn backup_fault_at(
    rows: Seq<Seq<char>>,
    there: Seq<bool>,
    taken: Seq<bool>,
    k: int,
) -> Option<Seq<char>> {
    if !answer(there, k) {
        Some("源路径不存在: '"@ + rows[k] + "'"@)
    } else {
        match backup_target(rows[k]) {
        Err(e) => Some(e),
        Ok(p) => if answer(taken, k) {
            Some(backup_taken_message(p))
        } else if exists|j: int| 0 <= j < k && same_path_of(backup_dest(rows, j), p) {
            Some("备份路径冲突: '"@ + p + "'"@)
        } else {
            None
        },
        }
    }
}

/// The backup plan for the first `n` sources: each source with its backup
/// place, or the fault of the first source, in row order, that has one.
pub open spec fn backup_plan_upto(
    rows: Seq<Seq<char>>,
    there: Seq<bool>,
    taken: Seq<bool>,
    n: int,
) -> Result<
    Seq<(Seq<char>, Seq<char>)>,
    Seq<char>,
>
    decreases n,
{
    if n <= 0 {
        Ok(Seq::empty())
    } else {
        match backup_plan_upto(rows, there, taken, n - 1) {
            Err(e) => Err(e),
            Ok(plans) => match backup_fault_at(rows, there, taken, n - 1) {
                Some(e) => Err(e),
                None => Ok(plans.push((rows[n - 1], backup_dest(rows, n - 1)))),
            },
        }
    }
}

/// The backup plan for all sources, as `backup_plan_upto` says.
pub open spec fn backup_plan(rows: Seq<Seq<char>>, there: Seq<bool>, taken: Seq<bool>) -> Result<
    Seq<(Seq<char>, Seq<char>)>,
    Seq<char>,
> {
    backup_plan_upto(rows, there, taken, rows.len() as int)
}

/// Once a fault stops the backup plan, it stays the outcome for every
/// longer prefix.
proof fn lemma_backup_plan_stays(
    rows: Seq<Seq<char>>,
    there: Seq<bool>,
    taken: Seq<bool>,
    m: int,
    n: int,
)
    requires
        0 <= m <= n,
        backup_plan_upto(rows, there, taken, m) is Err,
    ensures
        backup_plan_upto(rows, there, taken, n) == backup_plan_upto(rows, there, taken, m),
    decreases n - m,
{
    if n > m {
        lemma_backup_plan_stays(rows, there, taken, m, n - 1);
    }
}

/// What a backup plan that went through says, for the first `n` sources.
proof fn lemma_backup_plan_upto_ok(
    rows: Seq<Seq<char>>,
    there: Seq<bool>,
    taken: Seq<bool>,
    n: int,
)
    requires
        0 <= n <= rows.len(),
    ensures
        backup_plan_upto(rows, there, taken, n) matches Ok(plans) ==> {
            &&& plans.len() == n
            &&& forall|k: int|
                #![trigger plans[k]]
                #![trigger answer(there, k)]
                #![trigger answer(taken, k)]
                #![trigger backup_target(rows[k])]
                0 <= k < n ==> answer(there, k) && !answer(taken, k) && plans[k].0 == rows[k]
                    && backup_target(rows[k]) == Ok::<Seq<char>, Seq<char>>(plans[k].1)
            &&& forall|i: int, j: int|
                0 <= i < j < plans.len() ==> !same_path_of(plans[i].1, plans[j].1)
        },
    decreases n,
{
    if n > 0 {
        lemma_backup_plan_upto_ok(rows, there, taken, n - 1);
        match backup_plan_upto(rows, there, taken, n - 1) {
            Ok(p) => {
                if backup_fault_at(rows, there, taken, n - 1) is None {
                    let plans = p.push((rows[n - 1], backup_dest(rows, n - 1)));
                    assert(backup_plan_upto(rows, there, taken, n) == Ok::<
                        Seq<(Seq<char>, Seq<char>)>,
                        Seq<char>,
                    >(plans));
                    assert forall|k: int|
                        #![trigger plans[k]]
                        #![trigger answer(there, k)]
                        #![trigger answer(taken, k)]
                        #![trigger backup_target(rows[k])]
                        0 <= k < n implies answer(there, k) && !answer(taken, k) && plans[k].0
                        == rows[k] && backup_target(rows[k]) == Ok::<Seq<char>, Seq<char>>(
                        plans[k].1,
                    ) by {
                        if k < n - 1 {
                            assert(plans[k] == p[k]);
                        }
                    }
                    assert forall|i: int, j: int|
                        0 <= i < j < plans.len() implies !same_path_of(
                        plans[i].1,
                        plans[j].1,
                    ) by {
                        if j == n - 1 {
                            assert(plans[i] == p[i]);
                            assert(p[i].1 == backup_dest(rows, i));
                        } else {
                            assert(plans[i] == p[i] && plans[j] == p[j]);
                        }
                    }
                } else {
                    assert(backup_plan_upto(rows, there, taken, n) is Err);
                }
            },
            Err(_) => {
                assert(backup_plan_upto(rows, there, taken, n) is Err);
            },
        }
    }
}

/// A backup plan that goes through pairs every source, in row order, with
/// its backup place (the same folder, `(1)` after the name); every source
/// was there on disk and its backup place was free; and no two sources have
/// places `std::path` holds equal. So a missing source, a source without a
/// backup place, a backup place already taken, or a place two sources share,
/// makes the plan fail.
pub proof fn lemma_backup_plan_ok(rows: Seq<Seq<char>>, there: Seq<bool>, taken: Seq<bool>)
    ensures
        backup_plan(rows, there, taken) matches Ok(plans) ==> {
            &&& plans.len() == rows.len()
            &&& forall|k: int|
                #![trigger plans[k]]
                #![trigger answer(there, k)]
                #![trigger answer(taken, k)]
                #![trigger backup_target(rows[k])]
                0 <= k < rows.len() ==> answer(there, k) && !answer(taken, k) && plans[k].0
                    == rows[k] && backup_target(rows[k]) == Ok::<Seq<char>, Seq<char>>(
                    plans[k].1,
                )
            &&& forall|i: int, j: int|
                0 <= i < j < plans.len() ==> !same_path_of(plans[i].1, plans[j].1)
        },
{
    lemma_backup_plan_upto_ok(rows, there, taken, rows.len() as int);
}

/// Checks every source before anything is copied and pairs it with its
/// backup place, given for each source whether it is there on disk
/// (`there`) and whether its backup place is taken (`taken`). The outcome is
/// `backup_plan`: the plan, or the fault of the first faulty source in row
/// order.
pub fn plan_backups_given(sources: &Vec<String>, there: &Vec<bool>, taken: &Vec<bool>) -> (r:
    Result<Vec<(String, String)>, String>)
    ensures
        plan_result_view(r) == backup_plan(views(sources@), there@, taken@),
        r matches Ok(plans) ==> {
            &&& plans@.len() == sources@.len()
            &&& forall|k: int|
                #![trigger plans@[k]]
                #![trigger answer(there@, k)]
                #![trigger answer(taken@, k)]
                #![trigger backup_target(sources@[k]@)]
                0 <= k < sources@.len() ==> answer(there@, k) && !answer(taken@, k)
                    && plans@[k].0@ == sources@[k]@ && backup_target(sources@[k]@) == Ok::<
                    Seq<char>,
                    Seq<char>,
                >(plans@[k].1@)
            &&& forall|i: int, j: int|
                0 <= i < j < plans@.len() ==> !same_path_of(plans@[i].1@, plans@[j].1@)
        },
{
    let ghost rows = views(sources@);
    let total = sources.len();
    let mut plans: Vec<(String, String)> = Vec::new();
    assert(plan_view(plans@) =~= Seq::<(Seq<char>, Seq<char>)>::empty());
    let mut k: usize = 0;
    while k < total
        invariant
            total == sources@.len(),
            rows == views(sources@),
            k <= total,
            plans@.len() == k,
            forall|j: int|
                0 <= j < k ==> #[trigger] plan_view(plans@)[j] == (rows[j], backup_dest(rows, j)),
            backup_plan_upto(rows, there@, taken@, k as int) == Ok::<
                Seq<(Seq<char>, Seq<char>)>,
                Seq<char>,
            >(plan_view(plans@)),
        decreases total - k,
    {
        assert(rows[k as int] == sources@[k as int]@);
        let ghost fault_spec = backup_fault_at(rows, there@, taken@, k as int);
        let fault: Option<String> = if !answer_at(there, k) {
            let mut e = String::from_str("源路径不存在: '");
            e.append(sources[k].as_str());
            e.append("'");
            assert(fault_spec == Some(e@));
            Some(e)
        } else {
            match backup_path(sources[k].as_str()) {
            Err(e) => {
                assert(fault_spec == Some(e@));
                Some(e)
            },
            Ok(p) => match settle_backup(p, answer_at(taken, k)) {
                Err(e) => {
                    assert(fault_spec == Some(e@));
                    Some(e)
                },
                Ok(path) => {
                    assert(path@ == backup_dest(rows, k as int));
                    if any_same_place(&plans, &path) {
                        proof {
                            let j = choose|j: int|
                                0 <= j < plan_view(plans@).len() && same_path_of(
                                    plan_view(plans@)[j].1,
                                    path@,
                                );
                            assert(plan_view(plans@)[j].1 == backup_dest(rows, j));
                        }
                        let mut e = String::from_str("备份路径冲突: '");
                        e.append(path.as_str());
                        e.append("'");
                        assert(fault_spec == Some(e@));
                        Some(e)
                    } else {
                        proof {
                            assert forall|j: int| 0 <= j < k implies !same_path_of(
                                backup_dest(rows, j),
                                path@,
                            ) by {
                                assert(plan_view(plans@)[j].1 == backup_dest(rows, j));
                            }
                        }
                        assert(fault_spec is None);
                        let ghost before = plan_view(plans@);
                        plans.push((sources[k].clone(), path));
                        assert(plan_view(plans@) =~= before.push(
                            (rows[k as int], backup_dest(rows, k as int)),
                        ));
                        None
                    }
                },
            },
            }
        };
        match fault {
            Some(e) => {
                proof {
                    assert(backup_plan_upto(rows, there@, taken@, k + 1) == Err::<
                        Seq<(Seq<char>, Seq<char>)>,
                        Seq<char>,
                    >(e@));
                    lemma_backup_plan_stays(rows, there@, taken@, k + 1, total as int);
                }
                return Err(e);
            },
            None => {},
        }
        k = k + 1;
    }
    proof {
        let pv = plan_view(plans@);
        lemma_backup_plan_ok(rows, there@, taken@);
        assert(backup_plan(rows, there@, taken@) == Ok::<
            Seq<(Seq<char>, Seq<char>)>,
            Seq<char>,
        >(pv));
        assert forall|i: int, j: int|
            0 <= i < j < plans@.len() implies !same_path_of(plans@[i].1@, plans@[j].1@) by {
            assert(pv[i].1 == plans@[i].1@ && pv[j].1 == plans@[j].1@);
        }
        assert forall|k: int|
            #![trigger plans@[k]]
            #![trigger answer(there@, k)]
            #![trigger answer(taken@, k)]
            #![trigger backup_target(sources@[k]@)]
            0 <= k < sources@.len() implies answer(there@, k) && !answer(taken@, k)
                && plans@[k].0@ == sources@[k]@ && backup_target(sources@[k]@) == Ok::<
                Seq<char>,
                Seq<char>,
            >(plans@[k].1@) by {
            assert(pv[k] == (plans@[k].0@, plans@[k].1@));
            assert(rows[k] == sources@[k]@);
        }
    }
    Ok(plans)
}

/// Checks every source before anything is copied and pairs it with its
/// backup place. Each source, and the backup place of each source that has
/// one, is asked of the disk; the outcome is the one `plan_backups_given`
/// gives for those answers, so it stops at the first faulty source in row
/// order. An empty source path is never there.
pub fn plan_backups(sources: &Vec<String>) -> (r: Result<Vec<(String, String)>, String>)
    ensures
        exists|there: Seq<bool>, taken: Seq<bool>|
            {
                &&& there.len() == sources@.len()
                &&& taken.len() == sources@.len()
                &&& forall|k: int|
                    0 <= k < sources@.len() && (#[trigger] sources@[k])@.len() == 0 ==> !there[k]
                &&& plan_result_view(r) == backup_plan(views(sources@), there, taken)
            },
        r matches Ok(plans) ==> {
            &&& plans@.len() == sources@.len()
            &&& forall|k: int|
                #![trigger plans@[k]]
                0 <= k < sources@.len() ==> plans@[k].0@ == sources@[k]@ && backup_target(
                    sources@[k]@,
                ) == Ok::<Seq<char>, Seq<char>>(plans@[k].1@)
            &&& forall|i: int, j: int|
                0 <= i < j < plans@.len() ==> !same_path_of(plans@[i].1@, plans@[j].1@)
        },
{
    let mut there: Vec<bool> = Vec::new();
    let mut taken: Vec<bool> = Vec::new();
    let n = sources.len();
    let mut k: usize = 0;
    while k < n
        invariant
            n == sources@.len(),
            k <= n,
            there@.len() == k,
            taken@.len() == k,
            forall|j: int| 0 <= j < k && (#[trigger] sources@[j])@.len() == 0 ==> !there@[j],
        decreases n - k,
    {
        there.push(path_exists(sources[k].as_str()));
        let place_taken = match backup_path(sources[k].as_str()) {
            Ok(p) => path_exists(p.as_str()),
            Err(_) => false,
        };
        taken.push(place_taken);
        k = k + 1;
    }
    plan_backups_given(sources, &there, &taken)
}

/// The report line on one backup copy: a tick and the backup place where it
/// was copied; where it failed, the reason under two crosses (the copy
/// marks its failure with one cross, the report adds another).
pub open spec fn backup_line_text(path: Seq<char>, copied: Result<(), Seq<char>>) -> Seq<char> {
    match copied {
        Ok(()) => "✓ "@ + path,
        Err(e) => "✗ "@ + ("✗ "@ + e),
    }
}

/// The report line on one backup copy, as `backup_line_text` says.
pub fn backup_line(path: &str, copied: &Result<(), String>) -> (r: String)
    ensures
        r@ == backup_line_text(
            path@,
            match copied {
                Ok(()) => Ok(()),
                Err(e) => Err(e@),
            },
        ),
{
    match copied {
        Ok(()) => {
            let mut r = String::from_str("✓ ");
            r.append(path);
            r
        },
        Err(e) => {
            let mut inner = String::from_str("✗ ");
            inner.append(e.as_str());
            let mut r = String::from_str("✗ ");
            r.append(inner.as_str());
            r
        },
    }
}

/// Whether a report line starts with a tick.
pub open spec fn is_tick_line(line: Seq<char>) -> bool {
    line.len() > 0 && line[0] == '✓'
}

/// The whole backup report: the lines, one a line; a success when every
/// line starts with a tick, else a failure.
pub fn backup_summary(lines: &Vec<String>) -> (r: Result<String, String>)
    ensures
        match r {
            Ok(s) => s@ == join(views(lines@), "\n"@) && forall|j: int|
                0 <= j < lines@.len() ==> is_tick_line(#[trigger] lines@[j]@),
            Err(s) => s@ == join(views(lines@), "\n"@) && exists|j: int|
                0 <= j < lines@.len() && !is_tick_line(#[trigger] lines@[j]@),
        },
{
    let mut all_ticks = true;
    let mut k: usize = 0;
    while k < lines.len()
        invariant
            k <= lines@.len(),
            all_ticks <==> forall|j: int| 0 <= j < k ==> is_tick_line(#[trigger] lines@[j]@),
        decreases lines@.len() - k,
    {
        let line = lines[k].as_str();
        let tick = line.unicode_len() > 0 && line.get_char(0) == '✓';
        if !tick {
            all_ticks = false;
        }
        assert(tick == is_tick_line(lines@[k as int]@));
        k = k + 1;
    }
    let text = join_strings(lines, "\n");
    if all_ticks {
        Ok(text)
    } else {
        Err(text)
    }
}

} // verus!
