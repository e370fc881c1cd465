use dreamcoder::stow::conflict::{ConflictResolver, ConflictType, ResolutionStrategy, TargetProbe};
use dreamcoder::stow::error::StowError;
use dreamcoder::stow::manager::{LinkCheck, SourceEntry, StowManager};
use dreamcoder::stow::operations::{LinkEntry, PackageEntry, StepAction, StowEngine, TargetState};
use dreamcoder::stow::types::{OperationResult, OperationType, StowConfig, SymlinkOperation};

fn config(backup: bool, simulate: bool) -> StowConfig {
    StowConfig {
        source_dir: "/src".to_string(),
        target_dir: "/home/u".to_string(),
        backup_existing: backup,
        simulate,
    }
}

fn file(path: &str, target: TargetState) -> PackageEntry {
    PackageEntry { source_path: path.to_string(), is_dir: false, target }
}

fn dir(path: &str, target: TargetState) -> PackageEntry {
    PackageEntry { source_path: path.to_string(), is_dir: true, target }
}

#[test]
fn plan_links_a_new_file() {
    let manager = StowManager::new(config(true, false));
    let entries = vec![file("/src/test-pkg/.bashrc", TargetState::Missing)];
    let ops = manager.plan("test-pkg", &entries).ok().unwrap();
    assert_eq!(ops.len(), 1);
    assert_eq!(ops[0].op_type, OperationType::CreateSymlink);
    assert_eq!(ops[0].source, "/src/test-pkg/.bashrc");
    assert_eq!(ops[0].target, "/home/u/.bashrc");
    assert!(!ops[0].is_dir);
    assert_eq!(ops[0].description, "Create symlink for \".bashrc\"");
}

#[test]
fn plan_nested_directories() {
    let engine = StowEngine::new(config(true, false));
    let entries = vec![
        dir("/src/nvim/.config", TargetState::Missing),
        dir("/src/nvim/.config/nvim", TargetState::Occupied),
        file("/src/nvim/.config/nvim/init.lua", TargetState::Missing),
    ];
    let ops = engine.plan_stow("/src/nvim", &entries).ok().unwrap();
    assert_eq!(ops.len(), 2);
    assert_eq!(ops[0].op_type, OperationType::CreateDir);
    assert_eq!(ops[0].target, "/home/u/.config");
    assert!(ops[0].is_dir);
    assert_eq!(ops[0].description, "Create directory \".config\"");
    assert_eq!(ops[1].op_type, OperationType::CreateSymlink);
    assert_eq!(ops[1].target, "/home/u/.config/nvim/init.lua");
}

#[test]
fn plan_backs_up_an_existing_file() {
    let engine = StowEngine::new(config(true, false));
    let entries = vec![file("/src/test-pkg/.bashrc", TargetState::Occupied)];
    let ops = engine.plan_stow("/src/test-pkg", &entries).ok().unwrap();
    assert_eq!(ops.len(), 2);
    assert_eq!(ops[0].op_type, OperationType::Backup);
    assert_eq!(ops[0].source, "/home/u/.bashrc");
    assert_eq!(ops[0].target, "/home/u/.bashrc");
    assert_eq!(ops[0].description, "Backup existing file \"/home/u/.bashrc\"");
    assert_eq!(ops[1].op_type, OperationType::CreateSymlink);
}

#[test]
fn plan_without_backups_links_over_a_file() {
    let engine = StowEngine::new(config(false, false));
    let entries = vec![file("/src/p/.bashrc", TargetState::Occupied)];
    let ops = engine.plan_stow("/src/p", &entries).ok().unwrap();
    assert_eq!(ops.len(), 1);
    assert_eq!(ops[0].op_type, OperationType::CreateSymlink);
}

#[test]
fn plan_replaces_a_foreign_symlink() {
    let engine = StowEngine::new(config(true, false));
    let entries = vec![file("/src/p/.vimrc", TargetState::Symlink { points_to: "/elsewhere/.vimrc".to_string() })];
    let ops = engine.plan_stow("/src/p", &entries).ok().unwrap();
    assert_eq!(ops.len(), 2);
    assert_eq!(ops[0].op_type, OperationType::RemoveSymlink);
    assert_eq!(ops[0].description, "Remove existing symlink \"/home/u/.vimrc\"");
    assert_eq!(ops[1].op_type, OperationType::CreateSymlink);
}

#[test]
fn restow_of_a_linked_package_plans_nothing() {
    let engine = StowEngine::new(config(true, false));
    let entries = vec![
        dir("/src/p/.config", TargetState::Occupied),
        file("/src/p/.config/a", TargetState::Symlink { points_to: "/src/p/.config/a".to_string() }),
        file("/src/p/.zshrc", TargetState::Symlink { points_to: "/src//p/./.zshrc".to_string() }),
    ];
    let ops = engine.plan_stow("/src/p", &entries).ok().unwrap();
    assert_eq!(ops.len(), 0);
}

#[test]
fn plan_refuses_an_entry_outside_the_package() {
    let engine = StowEngine::new(config(true, false));
    let entries = vec![file("/other/.bashrc", TargetState::Missing)];
    match engine.plan_stow("/src/p", &entries) {
        Err(StowError::InvalidPath(m)) => assert_eq!(m, "Cannot strip prefix"),
        _ => panic!("expected an invalid path"),
    }
}

#[test]
fn target_for_joins_the_relative_path() {
    let engine = StowEngine::new(config(true, false));
    assert_eq!(engine.target_for("/src/p", "/src/p/a/b"), Some("/home/u/a/b".to_string()));
    assert_eq!(engine.target_for("/src/p", "/src/q/a"), None);
}

#[test]
fn unstow_removes_package_links_innermost_first() {
    let engine = StowEngine::new(config(true, false));
    let links = vec![
        LinkEntry { path: "/home/u/.bashrc".to_string(), points_to: "/src/test-pkg/.bashrc".to_string(), is_dir: false },
        LinkEntry { path: "/home/u/.vimrc".to_string(), points_to: "/src/other/.vimrc".to_string(), is_dir: false },
        LinkEntry { path: "/home/u/.config/a".to_string(), points_to: "/src/test-pkg/.config/a".to_string(), is_dir: false },
    ];
    let ops = engine.plan_unstow("/src/test-pkg", &links);
    assert_eq!(ops.len(), 3);
    assert_eq!(ops[0].op_type, OperationType::RemoveSymlink);
    assert_eq!(ops[0].target, "/home/u/.config/a");
    assert_eq!(ops[1].op_type, OperationType::RemoveDir);
    assert_eq!(ops[1].target, "/home/u/.config");
    assert_eq!(ops[1].description, "Remove empty dir \"/home/u/.config\"");
    assert_eq!(ops[2].op_type, OperationType::RemoveSymlink);
    assert_eq!(ops[2].target, "/home/u/.bashrc");
    assert_eq!(ops[2].source, "/src/test-pkg/.bashrc");
    assert_eq!(ops[2].description, "Remove symlink \"/home/u/.bashrc\"");
}

#[test]
fn nested_link_goes_before_its_directory() {
    let engine = StowEngine::new(config(true, false));
    let links = vec![LinkEntry {
        path: "/home/u/.config/nvim/init.lua".to_string(),
        points_to: "/src/nvim/.config/nvim/init.lua".to_string(),
        is_dir: false,
    }];
    let ops = engine.plan_unstow("/src/nvim", &links);
    assert_eq!(ops.len(), 2);
    assert_eq!(ops[0].op_type, OperationType::RemoveSymlink);
    assert_eq!(ops[1].op_type, OperationType::RemoveDir);
    assert_eq!(ops[1].target, "/home/u/.config/nvim");
}

#[test]
fn plan_replaces_a_dangling_symlink() {
    let engine = StowEngine::new(config(true, false));
    let entries = vec![file("/src/p/.bashrc", TargetState::Dangling { points_to: "/gone/.bashrc".to_string() })];
    let ops = engine.plan_stow("/src/p", &entries).ok().unwrap();
    assert_eq!(ops.len(), 2);
    assert_eq!(ops[0].op_type, OperationType::RemoveSymlink);
    assert_eq!(ops[0].target, "/home/u/.bashrc");
    assert_eq!(ops[1].op_type, OperationType::CreateSymlink);
}

#[test]
fn stow_over_a_file_backs_it_up() {
    // A file in the way of a link is moved aside, not reported as a conflict.
    let engine = StowEngine::new(config(true, false));
    let entries = vec![file("/src/test-pkg/.bashrc", TargetState::Occupied)];
    let ops = engine.plan_stow("/src/test-pkg", &entries).ok().unwrap();
    let probes = vec![TargetProbe::File, TargetProbe::File];
    let conflicts = ConflictResolver::detect_conflicts(&ops, &probes);
    assert_eq!(conflicts.len(), 0);
    assert!(StowManager::check_conflicts(&conflicts).is_ok());
    match engine.action_at(&ops[0], "20240101-000000") {
        Ok(StepAction::MoveAside { backup, .. }) => assert!(backup.starts_with("/home/u/.bashrc.backup")),
        _ => panic!("expected a move"),
    }
    let without_backup = StowEngine::new(config(false, false));
    let ops = without_backup.plan_stow("/src/test-pkg", &entries).ok().unwrap();
    let conflicts = ConflictResolver::detect_conflicts(&ops, &vec![TargetProbe::File]);
    assert_eq!(conflicts.len(), 1);
}

fn link_op(source: &str, target: &str) -> SymlinkOperation {
    SymlinkOperation {
        op_type: OperationType::CreateSymlink,
        source: source.to_string(),
        target: target.to_string(),
        is_dir: false,
        description: String::new(),
    }
}

#[test]
fn conflicts_are_found_at_link_targets() {
    let ops = vec![
        link_op("/src/p/a", "/home/u/a"),
        link_op("/src/p/b", "/home/u/b"),
        link_op("/src/p/c", "/home/u/c"),
        link_op("/src/p/d", "/home/u/d"),
        link_op("/src/p/e", "/home/u/e"),
    ];
    let probes = vec![
        TargetProbe::File,
        TargetProbe::Dir { empty: true },
        TargetProbe::Dir { empty: false },
        TargetProbe::Symlink { points_to: "/src/p/d".to_string() },
        TargetProbe::Symlink { points_to: "/x/e".to_string() },
    ];
    let cs = ConflictResolver::detect_conflicts(&ops, &probes);
    assert_eq!(cs.len(), 3);
    assert_eq!(cs[0].conflict_type, ConflictType::RegularFile);
    assert_eq!(cs[0].path, "/home/u/a");
    assert_eq!(cs[0].new_target, "/src/p/a");
    assert_eq!(cs[1].conflict_type, ConflictType::NonEmptyDir);
    assert_eq!(cs[2].conflict_type, ConflictType::WrongSymlinkTarget);
    assert_eq!(cs[2].existing_target, Some("/x/e".to_string()));

    let err = StowManager::check_conflicts(&cs);
    match err {
        Err(StowError::Conflict { message, path, existing }) => {
            assert_eq!(message, "3 conflicts detected");
            assert_eq!(path, "/home/u/a");
            assert_eq!(existing, None);
        }
        _ => panic!("expected a conflict"),
    }
    assert!(StowManager::check_conflicts(&Vec::new()).is_ok());
}

#[test]
fn conflicts_are_resolved_by_strategy() {
    let cs = ConflictResolver::detect_conflicts(&vec![link_op("/s/a", "/t/a")], &vec![TargetProbe::File]);
    let backups = ConflictResolver::resolve_conflicts(&cs, ResolutionStrategy::Backup).ok().unwrap();
    assert_eq!(backups.len(), 1);
    assert_eq!(backups[0].op_type, OperationType::Backup);
    assert_eq!(backups[0].target, "/t/a");
    assert_eq!(backups[0].description, "Backup conflicting file \"/t/a\"");
    assert_eq!(ConflictResolver::resolve_conflicts(&cs, ResolutionStrategy::Skip).ok().unwrap().len(), 0);
    match ConflictResolver::resolve_conflicts(&cs, ResolutionStrategy::Abort) {
        Err(StowError::Conflict { message, .. }) => assert_eq!(message, "Cannot resolve conflict at \"/t/a\""),
        _ => panic!("expected a conflict"),
    }
}

#[test]
fn source_must_exist() {
    let manager = StowManager::new(config(true, false));
    assert_eq!(manager.check_source("shell", true).ok().unwrap(), "/src/shell");
    match manager.check_source("shell", false) {
        Err(e) => assert_eq!(e.message(), "Source directory does not exist: /src/shell"),
        Ok(_) => panic!("expected an error"),
    }
}

#[test]
fn test_list_packages_sorted() {
    let entries = vec![
        SourceEntry { name: Some("tmux".to_string()), is_dir: true },
        SourceEntry { name: Some("README".to_string()), is_dir: false },
        SourceEntry { name: Some("nvim".to_string()), is_dir: true },
        SourceEntry { name: Some("shell".to_string()), is_dir: true },
    ];
    let names = StowManager::list_packages(&entries).ok().unwrap();
    assert_eq!(names, vec!["nvim".to_string(), "shell".to_string(), "tmux".to_string()]);
    let bad = vec![SourceEntry { name: None, is_dir: true }];
    match StowManager::list_packages(&bad) {
        Err(StowError::InvalidPath(m)) => assert_eq!(m, "Invalid package name"),
        _ => panic!("expected an invalid name"),
    }
}

#[test]
fn verify_finds_broken_links() {
    let manager = StowManager::new(config(true, false));
    let links = vec![
        LinkCheck { link: "/home/u/.bashrc".to_string(), target: "/src/p/.bashrc".to_string(), target_exists: false },
        LinkCheck { link: "/home/u/.vimrc".to_string(), target: "/src/p/.vimrc".to_string(), target_exists: true },
        LinkCheck { link: "/home/u/x".to_string(), target: "/elsewhere/x".to_string(), target_exists: false },
    ];
    let broken = manager.verify(&links);
    assert_eq!(broken.len(), 1);
    assert_eq!(broken[0].link, "/home/u/.bashrc");
    assert_eq!(broken[0].reason, "Target does not exist");
}

#[test]
fn reports_count_results() {
    let results = vec![
        OperationResult { success: true, operation: link_op("/a", "/b"), error: None },
        OperationResult { success: false, operation: link_op("/c", "/d"), error: Some("IO error: x".to_string()) },
        OperationResult { success: true, operation: link_op("/e", "/f"), error: None },
    ];
    let r = StowManager::stow_report("pkg", &results);
    assert_eq!((r.operations, r.symlinks_created, r.errors), (3, 2, 1));
    assert_eq!(r.package, "pkg");
    let u = StowManager::unstow_report("pkg", &results);
    assert_eq!((u.operations, u.symlinks_created, u.errors), (3, 0, 1));
}

#[test]
fn steps_become_file_system_actions() {
    let engine = StowEngine::new(config(true, false));
    let op = link_op("/src/p/a", "/home/u/a");
    match engine.action_at(&op, "20240101-000000") {
        Ok(StepAction::Link { source, target, is_dir }) => {
            assert_eq!(source, "/src/p/a");
            assert_eq!(target, "/home/u/a");
            assert!(!is_dir);
        }
        _ => panic!("expected a link"),
    }
    let backup = SymlinkOperation { op_type: OperationType::Backup, ..link_op("/home/u/.bashrc", "/home/u/.bashrc") };
    match engine.action_at(&backup, "20240101-120000") {
        Ok(StepAction::MoveAside { target, backup }) => {
            assert_eq!(target, "/home/u/.bashrc");
            assert_eq!(backup, "/home/u/.bashrc.backup.20240101-120000");
        }
        _ => panic!("expected a move"),
    }
    match engine.action_for(&backup) {
        Ok(StepAction::MoveAside { backup, .. }) => assert!(backup.starts_with("/home/u/.bashrc.backup.")),
        _ => panic!("expected a move"),
    }
    let rootless = SymlinkOperation { op_type: OperationType::Backup, ..link_op("/", "/") };
    match engine.action_at(&rootless, "x") {
        Err(e) => assert_eq!(e.message(), "Invalid path: Invalid file name"),
        Ok(_) => panic!("expected an error"),
    }
    let simulated = StowEngine::new(config(true, true));
    assert!(matches!(simulated.action_at(&backup, "x"), Ok(StepAction::Skip)));
}

#[test]
fn outcomes_are_recorded() {
    let op = link_op("/a", "/b");
    let ok = StowEngine::record(&op, None);
    assert!(ok.success && ok.error.is_none());
    let failed = StowEngine::record(&op, Some("IO error: denied".to_string()));
    assert!(!failed.success);
    assert_eq!(failed.error, Some("IO error: denied".to_string()));
    assert_eq!(failed.operation.target, "/b");
}

#[test]
fn unstow_removes_what_stow_linked() {
    let engine = StowEngine::new(config(true, false));
    let entries = vec![
        dir("/src/nvim/.config", TargetState::Missing),
        dir("/src/nvim/.config/nvim", TargetState::Missing),
        file("/src/nvim/.config/nvim/init.lua", TargetState::Missing),
        file("/src/nvim/.vimrc", TargetState::Missing),
    ];
    let ops = engine.plan_stow("/src/nvim", &entries).ok().unwrap();
    let found: Vec<LinkEntry> = ops
        .iter()
        .filter(|o| o.op_type == OperationType::CreateSymlink)
        .map(|o| LinkEntry { path: o.target.clone(), points_to: o.source.clone(), is_dir: false })
        .collect();
    assert_eq!(found.len(), 2);
    let undo = engine.plan_unstow("/src/nvim", &found);
    for l in &found {
        let j = undo
            .iter()
            .position(|o| o.op_type == OperationType::RemoveSymlink && o.target == l.path)
            .unwrap();
        if l.path == "/home/u/.config/nvim/init.lua" {
            assert_eq!(undo[j + 1].op_type, OperationType::RemoveDir);
            assert_eq!(undo[j + 1].target, "/home/u/.config/nvim");
        }
    }
    assert_eq!(undo.len(), 3);
}

#[test]
fn conflicts_of_two_parts_are_joined() {
    let a = vec![link_op("/src/p/a", "/home/u/a"), link_op("/src/p/b", "/home/u/b")];
    let pa = vec![TargetProbe::File, TargetProbe::Absent];
    let b = vec![link_op("/src/p/c", "/home/u/c")];
    let pb = vec![TargetProbe::Dir { empty: false }];
    let whole = vec![
        link_op("/src/p/a", "/home/u/a"),
        link_op("/src/p/b", "/home/u/b"),
        link_op("/src/p/c", "/home/u/c"),
    ];
    let probes = vec![TargetProbe::File, TargetProbe::Absent, TargetProbe::Dir { empty: false }];
    let joined = ConflictResolver::detect_conflicts(&whole, &probes);
    let first = ConflictResolver::detect_conflicts(&a, &pa);
    let second = ConflictResolver::detect_conflicts(&b, &pb);
    assert_eq!(joined.len(), first.len() + second.len());
    assert_eq!(joined[0].path, first[0].path);
    assert_eq!(joined[1].path, second[0].path);
    assert_eq!(joined[1].conflict_type, ConflictType::NonEmptyDir);
}
