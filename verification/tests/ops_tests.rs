use mkline::ops::{
    backup_line, backup_path, backup_summary, backup_validate, check_symlinks,
    collision_question, collisions_among, duplicate_notice, links_among, overwrite_decision,
    move_place, plan_backups, plan_backups_given, plan_moves, plan_moves_given, settle_backup,
    settle_copies, symlink_notice, target_collisions,
};
use mkline::links::{link_next, settle_links, LinkOutcome, LinkState, LinkStep, UndoTask};

fn strings(v: &[&str]) -> Vec<String> {
    v.iter().map(|s| s.to_string()).collect()
}

fn pair(a: &str, b: &str) -> (String, String) {
    (a.to_string(), b.to_string())
}

#[test]
fn backup_path_appends_one_in_brackets() {
    assert_eq!(backup_path("/data/photos"), Ok("/data/photos(1)".to_string()));
    assert_eq!(backup_path("/data/a.txt"), Ok("/data/a.txt(1)".to_string()));
}

#[test]
fn backup_path_without_parent_fails() {
    assert_eq!(backup_path("/"), Err("无法获取父目录: '/'".to_string()));
    assert_eq!(backup_path(""), Err("无法获取父目录: ''".to_string()));
}

#[test]
fn backup_path_without_file_name_fails() {
    assert_eq!(backup_path("/data/.."), Err("无法获取文件名: '/data/..'".to_string()));
}

#[test]
fn settle_backup_on_both_answers() {
    assert_eq!(settle_backup("/d/x(1)".to_string(), false), Ok("/d/x(1)".to_string()));
    assert_eq!(
        settle_backup("/d/x(1)".to_string(), true),
        Err("备份路径已存在: '/d/x(1)'".to_string())
    );
}

#[test]
fn backup_validate_on_a_free_place() {
    assert_eq!(
        backup_validate("/no_such_dir_mkline/a"),
        Ok("/no_such_dir_mkline/a(1)".to_string())
    );
}

#[test]
fn plan_backups_pairs_sources_with_places() {
    let sources = strings(&["/tmp", "/proc"]);
    assert_eq!(
        plan_backups(&sources),
        Ok(vec![pair("/tmp", "/tmp(1)"), pair("/proc", "/proc(1)")])
    );
}

#[test]
fn plan_backups_refuses_a_shared_place() {
    let sources = strings(&["/tmp", "/tmp"]);
    assert_eq!(plan_backups(&sources), Err("备份路径冲突: '/tmp(1)'".to_string()));
}

#[test]
fn plan_backups_stops_at_the_first_fault() {
    let sources = strings(&["/tmp", "/", "/no_such_mkline/a"]);
    assert_eq!(plan_backups(&sources), Err("无法获取父目录: '/'".to_string()));
}

#[test]
fn plan_backups_refuses_a_missing_source() {
    let sources = strings(&["/tmp", "/no_such_mkline/a"]);
    assert_eq!(
        plan_backups(&sources),
        Err("源路径不存在: '/no_such_mkline/a'".to_string())
    );
    assert_eq!(plan_backups(&strings(&[""])), Err("源路径不存在: ''".to_string()));
}

#[test]
fn backup_lines_and_summary() {
    assert_eq!(backup_line("/d/x(1)", &Ok(())), "✓ /d/x(1)");
    assert_eq!(backup_line("/d/x(1)", &Err("disk full".to_string())), "✗ ✗ disk full");
    let good = strings(&["✓ /a(1)", "✓ /b(1)"]);
    assert_eq!(backup_summary(&good), Ok("✓ /a(1)\n✓ /b(1)".to_string()));
    let bad = strings(&["✓ /a(1)", "✗ ✗ disk full"]);
    assert_eq!(backup_summary(&bad), Err("✓ /a(1)\n✗ ✗ disk full".to_string()));
    assert_eq!(backup_summary(&Vec::new()), Ok(String::new()));
}

#[test]
fn plan_moves_refuses_a_missing_source() {
    let sources = strings(&["/no_such_mkline/a"]);
    assert_eq!(
        plan_moves(&sources, "/no_such_target", false),
        Err("[1/1] 源路径不存在: '/no_such_mkline/a'".to_string())
    );
}

#[test]
fn plan_moves_refuses_a_nameless_source() {
    let sources = strings(&["/tmp", "/"]);
    assert_eq!(
        plan_moves(&sources, "/no_such_target", false),
        Err("[2/2] 无效的源路径: '/'".to_string())
    );
}

#[test]
fn plan_moves_refuses_a_taken_place_unless_overwriting() {
    let sources = strings(&["/tmp"]);
    assert_eq!(
        plan_moves(&sources, "/", false),
        Err("[1/1] 目标路径已存在: '/tmp'".to_string())
    );
    assert_eq!(plan_moves(&sources, "/", true), Ok(vec![pair("/tmp", "/tmp")]));
}

#[test]
fn target_collisions_names_taken_places() {
    let sources = strings(&["/tmp", "/no_such_mkline/zz", "/"]);
    assert_eq!(target_collisions(&sources, "/"), strings(&["tmp"]));
    assert!(target_collisions(&sources, "/no_such_target").is_empty());
}

#[test]
fn plan_moves_refuses_a_shared_place() {
    let sources = strings(&["/tmp", "/tmp"]);
    assert_eq!(
        plan_moves(&sources, "/no_such_target", false),
        Err("[2/2] 目标路径冲突: '/no_such_target/tmp'".to_string())
    );
}

#[test]
fn plan_moves_pairs_sources_with_places() {
    let sources = strings(&["/tmp", "/proc"]);
    assert_eq!(
        plan_moves(&sources, "/no_such_target", false),
        Ok(vec![
            pair("/tmp", "/no_such_target/tmp"),
            pair("/proc", "/no_such_target/proc"),
        ])
    );
}

#[test]
fn check_symlinks_finds_links_among_filled_rows() {
    let sources = strings(&["  ", "/tmp", "/proc/self", "/no_such_mkline"]);
    assert_eq!(check_symlinks(&sources), strings(&["/proc/self"]));
}

#[test]
fn notices() {
    assert_eq!(
        symlink_notice(&strings(&["C:\\a", "C:\\b"])),
        "C:\\a\nC:\\b\n是软连接不可迁移"
    );
    assert_eq!(duplicate_notice(&strings(&["x", "y"])), "x 重复\ny 重复");
    assert_eq!(
        collision_question(&strings(&["a", "b"])),
        "目标目录已有[a, b],是否继续迁移并覆盖"
    );
}

#[test]
fn plan_moves_refuses_an_empty_source_as_missing() {
    let sources = strings(&[""]);
    assert_eq!(
        plan_moves(&sources, "E:/t", true),
        Err("[1/1] 源路径不存在: ''".to_string())
    );
}

#[test]
fn plan_moves_given_reports_the_first_faulty_source() {
    let sources = strings(&["/s/a", "/s/b", "/", "/s/a"]);
    // every source there, no place taken: the nameless third one stops it
    assert_eq!(
        plan_moves_given(&sources, "/t", false, &vec![true; 4], &vec![false; 4]),
        Err("[3/4] 无效的源路径: '/'".to_string())
    );
    // the second one missing stops it first
    assert_eq!(
        plan_moves_given(&sources, "/t", false, &vec![true, false, true, true], &vec![false; 4]),
        Err("[2/4] 源路径不存在: '/s/b'".to_string())
    );
    // the first one's place taken stops it, unless overwriting
    assert_eq!(
        plan_moves_given(&sources, "/t", false, &vec![true; 4], &vec![true, false, false, false]),
        Err("[1/4] 目标路径已存在: '/t/a'".to_string())
    );
    let two = strings(&["/s/a", "/u/a"]);
    assert_eq!(
        plan_moves_given(&two, "/t", true, &vec![true; 2], &vec![true; 2]),
        Err("[2/2] 目标路径冲突: '/t/a'".to_string())
    );
    let fine = strings(&["/s/a", "/s/b"]);
    assert_eq!(
        plan_moves_given(&fine, "/t", true, &vec![true; 2], &vec![true; 2]),
        Ok(vec![pair("/s/a", "/t/a"), pair("/s/b", "/t/b")])
    );
}

#[test]
fn plan_backups_given_reports_the_first_faulty_source() {
    let sources = strings(&["/d/a", "/d/b", "/", "/d/a"]);
    assert_eq!(
        plan_backups_given(&sources, &vec![true; 4], &vec![false; 4]),
        Err("无法获取父目录: '/'".to_string())
    );
    assert_eq!(
        plan_backups_given(&sources, &vec![true; 4], &vec![false, true, false, false]),
        Err("备份路径已存在: '/d/b(1)'".to_string())
    );
    assert_eq!(
        plan_backups_given(&sources, &vec![true, false, true, true], &vec![false, true, false, false]),
        Err("源路径不存在: '/d/b'".to_string())
    );
    let twice = strings(&["/d/a", "/d/a"]);
    assert_eq!(
        plan_backups_given(&twice, &vec![true; 2], &vec![false; 2]),
        Err("备份路径冲突: '/d/a(1)'".to_string())
    );
    let fine = strings(&["/d/a", "/d/b"]);
    assert_eq!(
        plan_backups_given(&fine, &vec![true; 2], &vec![false; 2]),
        Ok(vec![pair("/d/a", "/d/a(1)"), pair("/d/b", "/d/b(1)")])
    );
}

#[test]
fn links_among_keeps_filled_rows_answered_yes() {
    let sources = strings(&["/a", "  ", "/b", "/c"]);
    assert_eq!(links_among(&sources, &vec![true, true, false, true]), strings(&["/a", "/c"]));
    assert!(links_among(&sources, &vec![false; 4]).is_empty());
    assert_eq!(links_among(&sources, &vec![false, false, true]), strings(&["/b"]));
}

#[test]
fn collisions_among_names_taken_places() {
    let sources = strings(&["/s/a", "/", "/s/b", "/s/c"]);
    assert_eq!(
        collisions_among(&sources, &vec![true, true, false, true]),
        strings(&["a", "c"])
    );
}

#[test]
fn overwrite_decision_on_each_answer() {
    assert_eq!(overwrite_decision(&Vec::new(), false), Ok(false));
    assert_eq!(overwrite_decision(&Vec::new(), true), Ok(false));
    assert_eq!(overwrite_decision(&strings(&["a"]), true), Ok(true));
    assert_eq!(overwrite_decision(&strings(&["a"]), false), Err("已取消".to_string()));
}

#[test]
fn settle_copies_removes_every_copy_on_failure() {
    assert_eq!(settle_copies(&strings(&["/t/a"]), &Vec::new()), Ok(()));
    assert_eq!(
        settle_copies(&strings(&["/t/a", "/t/b"]), &strings(&["[3/3] x", "[4/4] y"])),
        Err((strings(&["/t/a", "/t/b"]), "[3/3] x\n[4/4] y".to_string()))
    );
}

fn outcome(src: &str, dst: &str, state: LinkState, error: Option<&str>) -> LinkOutcome {
    LinkOutcome {
        src: src.to_string(),
        dst: dst.to_string(),
        state,
        error: error.map(|e| e.to_string()),
    }
}

#[test]
fn settle_links_undoes_the_whole_move_on_failure() {
    let fine = vec![
        outcome("E:/s/a", "E:/t/a", LinkState::Linked, None),
        outcome("E:/s/b", "E:/t/b", LinkState::Linked, None),
    ];
    assert!(settle_links(&fine).is_ok());
    let items = vec![
        outcome("E:/s/a", "E:/t/a", LinkState::Linked, None),
        outcome("E:/s/b", "E:/t/b", LinkState::Intact, Some("e1")),
        outcome("E:/s/c", "E:/t/c", LinkState::Lost, Some("e2")),
    ];
    match settle_links(&items) {
        Err((tasks, message)) => {
            assert_eq!(message, "e1\ne2");
            assert_eq!(
                tasks,
                vec![
                    UndoTask::Restore {
                        src: "E:/s/a".to_string(),
                        dst: "E:/t/a".to_string(),
                        unlink: true
                    },
                    UndoTask::Remove("E:/t/b".to_string()),
                    UndoTask::Restore {
                        src: "E:/s/c".to_string(),
                        dst: "E:/t/c".to_string(),
                        unlink: false
                    },
                ]
            );
        }
        Ok(()) => panic!("expected the move to be undone"),
    }
}

#[test]
fn link_next_walks_each_source() {
    let s = link_next("C:/s", "E:/t", LinkStep::Trash, Ok(()));
    assert!(matches!(s, LinkStep::Link));
    let s = link_next("C:/s", "E:/t", LinkStep::Trash, Err("busy".to_string()));
    assert!(matches!(s, LinkStep::Done(LinkState::Intact, Some(ref m)) if m == "删除源到回收站失败 'C:/s': busy"));
    let s = link_next("C:/s", "E:/t", LinkStep::Link, Ok(()));
    assert!(matches!(s, LinkStep::Done(LinkState::Linked, None)));
    let s = link_next("C:/s", "E:/t", LinkStep::Link, Err("denied".to_string()));
    assert!(matches!(s, LinkStep::Restore(ref e) if e == "denied"));
    let s = link_next("C:/s", "E:/t", LinkStep::Restore("denied".to_string()), Ok(()));
    assert!(matches!(s, LinkStep::Done(LinkState::Intact, Some(ref m)) if m == "创建链接失败 'C:/s' -> 'E:/t': denied (源已恢复)"));
    let s = link_next("C:/s", "E:/t", LinkStep::Restore("denied".to_string()), Err("full".to_string()));
    assert!(matches!(s, LinkStep::Done(LinkState::Lost, Some(ref m)) if m == "创建链接失败且恢复失败 'C:/s' -> 'E:/t': denied / full"));
}

#[test]
fn move_place_joins_the_file_name() {
    assert_eq!(move_place("/s/a", "/t"), Some("/t/a".to_string()));
    assert_eq!(move_place("/", "/t"), None);
}
