use mkline::panel::add_label;
use mkline::state::{Action, Message, MkLineExe, Status};

fn strings(v: &[&str]) -> Vec<String> {
    v.iter().map(|s| s.to_string()).collect()
}

fn form(sources: &[&str], target: &str) -> MkLineExe {
    MkLineExe {
        sources: strings(sources),
        target: target.to_string(),
        status: Status::Idle,
        status_message: "就绪".to_string(),
    }
}

#[test]
fn new_form_has_one_empty_row() {
    let f = MkLineExe::new();
    assert_eq!(f.sources, strings(&[""]));
    assert_eq!(f.target, "");
    assert_eq!(f.status, Status::Idle);
    assert_eq!(f.status_message, "就绪");
}

#[test]
fn add_source_stops_at_ten_rows() {
    let mut f = MkLineExe::new();
    for _ in 0..15 {
        assert!(matches!(f.update_with(Message::AddSource, &Vec::new()), Action::Nothing));
    }
    assert_eq!(f.sources.len(), 10);
}

#[test]
fn remove_source_keeps_the_last_row() {
    let mut f = form(&["/a", "/b"], "");
    f.update_with(Message::RemoveSource(0), &Vec::new());
    assert_eq!(f.sources, strings(&["/b"]));
    f.update_with(Message::RemoveSource(0), &Vec::new());
    assert_eq!(f.sources, strings(&["/b"]));
    f.update_with(Message::RemoveSource(5), &Vec::new());
    assert_eq!(f.sources, strings(&["/b"]));
}

#[test]
fn edits_are_ignored_while_running() {
    let mut f = form(&["/a"], "/t");
    f.status = Status::Running;
    f.update_with(Message::SourcePath(0, "/z".to_string()), &Vec::new());
    f.update_with(Message::TargetPath("/u".to_string()), &Vec::new());
    f.update_with(Message::ClearAll, &Vec::new());
    assert!(matches!(f.update_with(Message::Confirm, &Vec::new()), Action::Nothing));
    assert!(matches!(f.update_with(Message::BackupAll, &Vec::new()), Action::Nothing));
    assert_eq!(f.sources, strings(&["/a"]));
    assert_eq!(f.target, "/t");
    assert_eq!(f.status, Status::Running);
}

#[test]
fn edits_change_rows_and_target() {
    let mut f = form(&["", ""], "");
    f.update_with(Message::SourcePath(1, "/x".to_string()), &Vec::new());
    f.update_with(Message::TargetPath("/t".to_string()), &Vec::new());
    assert_eq!(f.sources, strings(&["", "/x"]));
    assert_eq!(f.target, "/t");
    f.update_with(Message::TargetDirPicked(Some("/u".to_string())), &Vec::new());
    assert_eq!(f.target, "/u");
    f.update_with(Message::TargetDirPicked(None), &Vec::new());
    assert_eq!(f.target, "/u");
}

#[test]
fn browsing_asks_for_the_window_then_the_picker() {
    let mut f = form(&["/a", "", "/b"], "");
    assert!(matches!(
        f.update_with(Message::BrowseSourceDir(1), &Vec::new()),
        Action::RequestSourceParent(1)
    ));
    assert!(matches!(
        f.update_with(Message::BrowseSourceWithParent(1), &Vec::new()),
        Action::PickSources { index: 1, max_take: 8 }
    ));
    assert!(matches!(
        f.update_with(Message::BrowseTargetDir, &Vec::new()),
        Action::RequestTargetParent
    ));
    assert!(matches!(
        f.update_with(Message::BrowseTargetWithParent, &Vec::new()),
        Action::PickTarget
    ));
    assert!(matches!(f.update_with(Message::Cancel, &Vec::new()), Action::Exit));
}

#[test]
fn picked_folders_fill_rows_and_name_duplicates() {
    let mut f = form(&["", "/old/x", ""], "");
    let paths = strings(&["/p/y", "/p/x", "/q/y", "/p/z", "/p/w"]);
    let action = f.update_with(Message::SourceDirsPicked(0, paths), &Vec::new());
    match action {
        Action::Notify(t) => assert_eq!(t, "x 重复\ny 重复"),
        _ => panic!("expected a notice"),
    }
    assert_eq!(f.sources, strings(&["/p/y", "/old/x", "/p/z", "/p/w"]));
}

#[test]
fn picked_nothing_changes_nothing() {
    let mut f = form(&["/a"], "");
    assert!(matches!(
        f.update_with(Message::SourceDirsPicked(0, Vec::new()), &Vec::new()),
        Action::Nothing
    ));
    assert!(matches!(
        f.update_with(Message::SourceDirsPicked(3, strings(&["/b"])), &Vec::new()),
        Action::Nothing
    ));
    assert_eq!(f.sources, strings(&["/a"]));
}

#[test]
fn confirm_without_sources_or_target_is_refused() {
    let mut f = form(&["  "], "/t");
    assert!(matches!(f.update_with(Message::Confirm, &Vec::new()), Action::Nothing));
    assert_eq!(f.status, Status::Error);
    assert_eq!(f.status_message, "请填写源目录和目标目录");
    let mut f = form(&["/a"], "   ");
    f.update_with(Message::Confirm, &Vec::new());
    assert_eq!(f.status, Status::Error);
    assert_eq!(f.status_message, "请填写源目录和目标目录");
}

#[test]
fn confirm_with_shared_names_is_refused() {
    let mut f = form(&["/a/x", "/b/x"], "/t");
    match f.update_with(Message::Confirm, &Vec::new()) {
        Action::Notify(t) => assert_eq!(t, "x 重复"),
        _ => panic!("expected a notice"),
    }
    assert_eq!(f.status, Status::Error);
    assert_eq!(f.status_message, "x 重复");
}

#[test]
fn confirm_with_links_is_refused() {
    let mut f = form(&["/a/x", "/b/y"], "/t");
    match f.update_with(Message::Confirm, &strings(&["/b/y"])) {
        Action::Notify(t) => assert_eq!(t, "/b/y\n是软连接不可迁移"),
        _ => panic!("expected a notice"),
    }
    assert_eq!(f.status, Status::Error);
}

#[test]
fn confirm_starts_with_filled_rows_and_trimmed_target() {
    let mut f = form(&["/a/x", "  ", "/b/y"], "  /t  ");
    match f.update_with(Message::Confirm, &Vec::new()) {
        Action::RunConfirm { sources, target } => {
            assert_eq!(sources, strings(&["/a/x", "/b/y"]));
            assert_eq!(target, "/t");
        },
        _ => panic!("expected the move to start"),
    }
    assert_eq!(f.status, Status::Running);
    assert_eq!(f.status_message, "正在处理...");
    f.update_with(Message::ConfirmResult(Ok("成功处理 2 个源".to_string())), &Vec::new());
    assert_eq!(f.status, Status::Success);
    assert_eq!(f.status_message, "成功处理 2 个源");
}

#[test]
fn backup_checks_then_starts() {
    let mut f = form(&[" "], "");
    f.update_with(Message::BackupAll, &Vec::new());
    assert_eq!(f.status, Status::Error);
    assert_eq!(f.status_message, "没有可备份的源目录");

    let mut f = form(&["/a", "/a"], "");
    match f.update_with(Message::BackupAll, &Vec::new()) {
        Action::Notify(t) => assert_eq!(t, "源路径重复"),
        _ => panic!("expected a notice"),
    }
    assert_eq!(f.status_message, "源路径重复");

    let mut f = form(&["/a/x", "/b/x"], "");
    match f.update_with(Message::BackupAll, &Vec::new()) {
        Action::RunBackup { sources } => assert_eq!(sources, strings(&["/a/x", "/b/x"])),
        _ => panic!("expected the backup to start"),
    }
    assert_eq!(f.status, Status::Running);
    assert_eq!(f.status_message, "正在备份...");
    f.update_with(Message::BackupResult(Err("✗ ✗ oops".to_string())), &Vec::new());
    assert_eq!(f.status, Status::Error);
    assert_eq!(f.status_message, "✗ ✗ oops");
}

#[test]
fn clear_all_empties_rows_and_keeps_their_number() {
    let mut f = form(&["/a", "/b", ""], "/t");
    f.status = Status::Error;
    f.update_with(Message::ClearAll, &Vec::new());
    assert_eq!(f.sources, strings(&["", "", ""]));
    assert_eq!(f.target, "");
    assert_eq!(f.status, Status::Idle);
    assert_eq!(f.status_message, "就绪");
}

#[test]
fn update_probes_disk_only_where_needed() {
    let mut f = form(&["/no_such_mkline/a", "/no_such_mkline/b"], "/t");
    match f.update(Message::Confirm) {
        Action::RunConfirm { sources, target } => {
            assert_eq!(sources, strings(&["/no_such_mkline/a", "/no_such_mkline/b"]));
            assert_eq!(target, "/t");
        },
        _ => panic!("expected the move to start"),
    }
    let mut f = MkLineExe::new();
    assert!(matches!(f.update(Message::AddSource), Action::Nothing));
    assert_eq!(f.sources.len(), 2);
}

#[test]
fn controls_follow_the_form() {
    let f = form(&["/a", ""], "/t");
    let c = f.controls();
    assert!(!c.running);
    assert_eq!(c.filled, 1);
    assert!(c.can_add && c.can_browse && c.can_remove && c.can_confirm && c.can_backup);
    let mut g = form(&[" "], "/t");
    assert!(!g.controls().can_confirm);
    assert!(!g.controls().can_remove);
    g.status = Status::Running;
    let c = g.controls();
    assert!(c.running && !c.can_add && !c.can_browse && !c.can_backup);
    assert_eq!(g.status_line(), "◉  就绪");
    assert_eq!(f.status_line(), "●  就绪");
    assert_eq!(add_label(3), "+ 添加源(3/10)");
}
