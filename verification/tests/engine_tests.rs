use dreamcoder::engine::apply::{ApplyStep, DreamcoderEngine};
use dreamcoder::engine::backup::{get_dir_size, Backup, BackupEntry, BackupManager};
use dreamcoder::engine::config::{Config, SecretProviderType, VERSION};
use dreamcoder::engine::modules::{DirEntryInfo, LinkProbe, LinkStep, Module, ModuleInstall, ModuleManager, Symlink, WalkItem};
use dreamcoder::engine::operation::{
    every_success, ActionType, ApplyOptions, InputType, MetaValue, Operation, Status, SystemInfo,
};
use dreamcoder::engine::state::{ModuleState, State, StateManager};

fn module(name: &str, hook: Option<&str>, links: Vec<Symlink>) -> Module {
    Module {
        name: name.to_string(),
        path: format!("/repo/{}", name),
        description: None,
        symlinks: links,
        dependencies: Vec::new(),
        pre_install_hook: None,
        post_install_hook: hook.map(|h| h.to_string()),
        os_specific: None,
    }
}

fn op(status: Status) -> Operation {
    Operation {
        id: "op".to_string(),
        action: ActionType::Install,
        status,
        message: String::new(),
        requires_input: None,
        metadata: Vec::new(),
    }
}

#[test]
fn default_config_for_a_home() {
    let c = Config::for_home("/home/u");
    assert_eq!(c.version, VERSION);
    assert_eq!(c.dotfiles_root, "/home/u/Documents/PROYECTOS/Dreamcoder_dots");
    assert_eq!(c.backup_dir, "/home/u/.config/dreamcoder-backups");
    assert_eq!(c.state_dir, "/home/u/.config/dreamcoder-manager");
    assert_eq!(c.max_backups, 5);
    assert_eq!(c.secrets_provider.provider_type, SecretProviderType::Disabled);
    assert!(c.ai.structured_output && c.ai.json_pretty && !c.ai.auto_confirm);
}

#[test]
fn state_reads_back_what_was_registered() {
    let config = Config::for_home("/home/u");
    let mut manager = StateManager::with_state(&config, State::empty());
    assert_eq!(manager.state_file(), "/home/u/.config/dreamcoder-manager/state.json");
    assert!(!manager.is_module_installed("shell"));
    let record = ModuleState {
        name: "shell".to_string(),
        installed: true,
        install_date: Some(1700000000),
        symlinks: vec!["/home/u/.zshrc".to_string()],
        checksum: "abc".to_string(),
    };
    manager.register_module(record);
    assert!(manager.is_module_installed("shell"));
    let read = manager.get_module_state("shell").unwrap();
    assert_eq!(read.checksum, "abc");
    assert!(manager.get_module_state("nvim").is_none());
    let again = ModuleState {
        name: "shell".to_string(),
        installed: true,
        install_date: None,
        symlinks: Vec::new(),
        checksum: "def".to_string(),
    };
    manager.register_module(again);
    assert_eq!(manager.get_module_state("shell").unwrap().checksum, "def");
    assert_eq!(manager.state.module_states.len(), 1);
    assert_eq!(manager.state.installed_modules.len(), 2);
}

#[test]
fn backups_are_listed_newest_first_and_rotated() {
    let manager = BackupManager { backup_dir: "/b".to_string(), max_backups: 2 };
    let entries = vec![
        BackupEntry { name: "backup-20240101-000000".to_string(), path: "/b/backup-20240101-000000".to_string() },
        BackupEntry { name: ".last-hash".to_string(), path: "/b/.last-hash".to_string() },
        BackupEntry { name: "backup-20240301-000000".to_string(), path: "/b/backup-20240301-000000".to_string() },
        BackupEntry { name: "backup-garbage".to_string(), path: "/b/backup-garbage".to_string() },
        BackupEntry { name: "backup-20240201-000000".to_string(), path: "/b/backup-20240201-000000".to_string() },
    ];
    let list = manager.list(&entries);
    assert_eq!(list.len(), 3);
    assert_eq!(list[0].path, "/b/backup-20240301-000000");
    assert_eq!(list[1].path, "/b/backup-20240201-000000");
    assert_eq!(list[2].path, "/b/backup-20240101-000000");
    assert_eq!(list[2].timestamp, 1704067200);
    let removed = manager.backups_to_remove(&list);
    assert_eq!(removed, vec!["/b/backup-20240101-000000".to_string()]);
    let few: Vec<Backup> = Vec::new();
    assert!(manager.backups_to_remove(&few).is_empty());
    assert_eq!(manager.backup_path_at("20240101-000000"), "/b/backup-20240101-000000");
    assert_eq!(manager.last_hash_file(), "/b/.last-hash");
}

#[test]
fn state_hash_and_changes() {
    let manager = BackupManager { backup_dir: "/b".to_string(), max_backups: 5 };
    let contents = vec![Some(b"export A=1".to_vec()), None];
    let hash = manager.calculate_state_hash(&contents);
    assert_eq!(hash, "a5398cba80de2c6e5e412408bfa4b51a3199e8d60f198bcf6656bfff3e2ff86e");
    assert!(!manager.has_changes(&contents, &Some(hash.clone())));
    let edited = vec![Some(b"export A=2".to_vec()), None];
    assert!(manager.has_changes(&edited, &Some(hash.clone())));
    assert!(manager.has_changes(&contents, &None));
    // No managed file at all: the digest of nothing.
    let empty: Vec<Option<Vec<u8>>> = Vec::new();
    assert_eq!(manager.calculate_state_hash(&empty), "e3b0c44298fc1c149afbf4c8996fb92427ae41e4649b934ca495991b7852b855");
}

#[test]
fn managed_files_and_sizes() {
    let names = vec!["nvim".to_string(), "dreamcoder-zeta".to_string(), "dreamcoder-alpha".to_string()];
    let files = BackupManager::managed_files("/home/u", &names);
    assert_eq!(
        files,
        vec![
            "/home/u/.config/dreamcoder-alpha".to_string(),
            "/home/u/.config/dreamcoder-zeta".to_string(),
            "/home/u/.zshrc".to_string(),
            "/home/u/.bashrc".to_string(),
            "/home/u/.tmux.conf".to_string(),
            "/home/u/.gitconfig".to_string(),
        ]
    );
    assert_eq!(BackupManager::copy_path("/b/backup-1", "/home/u/.zshrc"), "/b/backup-1/.zshrc");
    assert_eq!(get_dir_size(&vec![10, 20, 30]).ok().unwrap(), 60);
    assert_eq!(get_dir_size(&vec![u64::MAX, 1]).ok().unwrap(), u64::MAX);
    let manager = BackupManager { backup_dir: "/b".to_string(), max_backups: 5 };
    assert!(manager.new_backup_path().starts_with("/b/backup-"));
}

#[test]
fn modules_are_found_and_linked() {
    let entries = vec![
        DirEntryInfo { name: "DreamcoderShell".to_string(), is_dir: true },
        DirEntryInfo { name: "Dreamcoder.md".to_string(), is_dir: false },
        DirEntryInfo { name: "other".to_string(), is_dir: true },
        DirEntryInfo { name: "DreamcoderNvim".to_string(), is_dir: true },
    ];
    assert_eq!(
        ModuleManager::module_candidates(&entries),
        vec!["DreamcoderShell".to_string(), "DreamcoderNvim".to_string()]
    );
    let items = vec![
        WalkItem { path: "/repo/DreamcoderShell/.zshrc".to_string(), is_file: true, is_dir: false },
        WalkItem { path: "/repo/DreamcoderShell/.config".to_string(), is_file: false, is_dir: true },
        WalkItem { path: "/repo/DreamcoderShell/sock".to_string(), is_file: false, is_dir: false },
    ];
    let links = ModuleManager::links_for_home("/home/u", "/repo/DreamcoderShell", &items).ok().unwrap();
    assert_eq!(links.len(), 2);
    assert_eq!(links[0].source, "/repo/DreamcoderShell/.zshrc");
    assert_eq!(links[0].target, "/home/u/.zshrc");
    assert!(links[0].backup_existing);
    assert_eq!(links[1].target, "/home/u/.config");
    let stray = vec![WalkItem { path: "/elsewhere/x".to_string(), is_file: true, is_dir: false }];
    assert!(ModuleManager::links_for_home("/home/u", "/repo/DreamcoderShell", &stray).is_err());
}

#[test]
fn modules_are_ordered_by_name() {
    let ordered = ModuleManager::order_modules(vec![
        module("DreamcoderTmux", None, Vec::new()),
        module("DreamcoderNvim", None, Vec::new()),
        module("DreamcoderShell", None, Vec::new()),
    ]);
    let names: Vec<&str> = ordered.iter().map(|m| m.name.as_str()).collect();
    assert_eq!(names, vec!["DreamcoderNvim", "DreamcoderShell", "DreamcoderTmux"]);
}

#[test]
fn conflicts_block_install() {
    let m = module(
        "DreamcoderShell",
        None,
        vec![
            Symlink { source: "/r/a".to_string(), target: "/home/u/a".to_string(), backup_existing: true },
            Symlink { source: "/r/b".to_string(), target: "/home/u/b".to_string(), backup_existing: true },
            Symlink { source: "/r/c".to_string(), target: "/home/u/c".to_string(), backup_existing: true },
        ],
    );
    let probes = vec![
        LinkProbe { exists: true, is_symlink: false },
        LinkProbe { exists: true, is_symlink: true },
        LinkProbe { exists: false, is_symlink: false },
    ];
    assert_eq!(ModuleManager::check_conflicts(&m, &probes), Some(vec!["/home/u/a".to_string()]));
    let clear = vec![
        LinkProbe { exists: false, is_symlink: false },
        LinkProbe { exists: false, is_symlink: false },
        LinkProbe { exists: false, is_symlink: false },
    ];
    assert_eq!(ModuleManager::check_conflicts(&m, &clear), None);

    let op = DreamcoderEngine::conflict_operation(&m, &vec!["/home/u/a".to_string()]);
    assert_eq!(op.status, Status::PendingInput);
    assert_eq!(op.message, "Conflicts detected for module DreamcoderShell");
    let q = op.requires_input.unwrap();
    assert_eq!(q.input_type, InputType::Confirm);
    assert_eq!(q.message, "Overwrite existing files? [\"/home/u/a\"]");
    assert_eq!(q.default, Some("false".to_string()));
}

#[test]
fn install_steps_move_files_aside_and_link() {
    let link = Symlink { source: "/r/.zshrc".to_string(), target: "/home/u/.zshrc".to_string(), backup_existing: true };
    let mut steps = Vec::new();
    ModuleManager::link_steps(&link, &LinkProbe { exists: true, is_symlink: false }, 1700000000, &mut steps);
    assert_eq!(steps.len(), 3);
    match &steps[0] {
        LinkStep::MoveAside { from, to } => {
            assert_eq!(from, "/home/u/.zshrc");
            assert_eq!(to, "/home/u/.zshrc.backup.1700000000");
        }
        _ => panic!("expected a move"),
    }
    assert!(matches!(&steps[1], LinkStep::MakeDirAll { dir } if dir == "/home/u"));
    assert!(matches!(&steps[2], LinkStep::Link { source, target } if source == "/r/.zshrc" && target == "/home/u/.zshrc"));

    let mut install = ModuleInstall::new(vec![
        link,
        Symlink { source: "/r/.vimrc".to_string(), target: "/home/u/.vimrc".to_string(), backup_existing: true },
    ]);
    assert_eq!(install.next_target(), Some("/home/u/.zshrc".to_string()));
    let replaced = install.next_steps(LinkProbe { exists: true, is_symlink: true });
    assert_eq!(replaced.len(), 3);
    assert!(matches!(&replaced[1], LinkStep::RemoveLink { path } if path == "/home/u/.zshrc"));
    assert_eq!(install.next_target(), Some("/home/u/.vimrc".to_string()));
    let moved = install.next_steps(LinkProbe { exists: true, is_symlink: false });
    assert_eq!(moved.len(), 3);
    assert!(matches!(&moved[0], LinkStep::MoveAside { from, to } if from == "/home/u/.vimrc" && to.starts_with("/home/u/.vimrc.backup.")));
    assert_eq!(install.next_target(), None);
    assert_eq!(ModuleManager::backup_path_for("/home/u/.zshrc", -5), "/home/u/.zshrc.backup.-5");
}

#[test]
fn apply_plan_orders_backup_installs_and_hooks() {
    let options = ApplyOptions {
        modules: vec![
            module("A", Some("echo a"), Vec::new()),
            module("B", None, Vec::new()),
            module("C", Some("echo c"), Vec::new()),
        ],
        backup: true,
        dry_run: false,
        skip_hooks: false,
    };
    let steps = DreamcoderEngine::apply_steps(&options);
    assert_eq!(
        steps,
        vec![
            ApplyStep::Backup,
            ApplyStep::Install(0),
            ApplyStep::Install(1),
            ApplyStep::Install(2),
            ApplyStep::Hook(0),
            ApplyStep::Hook(2),
        ]
    );
}

#[test]
fn operations_report_each_step() {
    let skipped = DreamcoderEngine::skipped_backup_operation();
    assert_eq!((skipped.action, skipped.status), (ActionType::Backup, Status::Skipped));
    assert_eq!(skipped.message, "No changes detected");
    let created = DreamcoderEngine::created_backup_operation("/b/backup-1", 42);
    assert_eq!(created.message, "Backup created at \"/b/backup-1\"");
    assert!(matches!(&created.metadata[1].1, MetaValue::Bytes(42)));
    let m = module("DreamcoderShell", None, vec![Symlink { source: "/a".to_string(), target: "/b".to_string(), backup_existing: true }]);
    let installed = DreamcoderEngine::installed_operation(&m);
    assert_eq!(installed.message, "Module DreamcoderShell installed successfully");
    assert!(matches!(&installed.metadata[1].1, MetaValue::Count(1)));
    let failed = DreamcoderEngine::hook_operation("make", &m, false, "boom", Some(2));
    assert_eq!(failed.status, Status::Failed);
    assert_eq!(failed.message, "boom");
    assert_eq!(failed.requires_input.unwrap().message, "Hook failed, continue?");
    assert!(matches!(&failed.metadata[2].1, MetaValue::Code(2)));
    let ok = DreamcoderEngine::hook_operation("make", &m, true, "done", None);
    assert!(ok.requires_input.is_none());
    assert!(matches!(&ok.metadata[2].1, MetaValue::Null));
    assert_ne!(ok.id, failed.id);
}

#[test]
fn results_succeed_only_when_every_operation_does() {
    let r = DreamcoderEngine::apply_result(vec![op(Status::Success), op(Status::Success)], 42);
    assert!(r.success);
    assert_eq!(r.timestamp, 42);
    assert!(!every_success(&vec![op(Status::Success), op(Status::Skipped)]));
    assert!(!DreamcoderEngine::finish_apply(vec![op(Status::Failed)]).success);
}

#[test]
fn action_names() {
    assert_eq!(ActionType::PackageInstall.to_string(), "package-install");
    assert_eq!(ActionType::Hook.to_string(), "hook");
}

#[test]
fn username_prefers_user() {
    assert_eq!(SystemInfo::username_from(Some("a".to_string()), Some("b".to_string())), "a");
    assert_eq!(SystemInfo::username_from(None, Some("b".to_string())), "b");
    assert_eq!(SystemInfo::username_from(None, None), "");
}

#[test]
fn backups_of_the_same_time_keep_their_order() {
    let manager = BackupManager { backup_dir: "/b".to_string(), max_backups: 1 };
    let entries = vec![
        BackupEntry { name: "backup-backup-20240101-000000".to_string(), path: "/b/x".to_string() },
        BackupEntry { name: "backup-20240101-000000".to_string(), path: "/b/y".to_string() },
        BackupEntry { name: "backup-20230101-000000".to_string(), path: "/b/z".to_string() },
    ];
    let list = manager.list(&entries);
    let paths: Vec<&str> = list.iter().map(|b| b.path.as_str()).collect();
    assert_eq!(paths, vec!["/b/x", "/b/y", "/b/z"]);
    assert_eq!(manager.backups_to_remove(&list), vec!["/b/y".to_string(), "/b/z".to_string()]);
}

#[test]
fn dry_runs_and_skipped_hooks() {
    let options = ApplyOptions {
        modules: vec![module("A", Some("echo a"), Vec::new())],
        backup: true,
        dry_run: true,
        skip_hooks: false,
    };
    assert!(DreamcoderEngine::apply_steps(&options).is_empty());
    let report = DreamcoderEngine::dry_run_result(&options);
    assert_eq!(report.operations.len(), 3);
    assert!(report.operations.iter().all(|o| o.status == Status::Pending));
    assert_eq!(report.operations[0].message, "Backup would be created");
    assert_eq!(report.operations[1].message, "Module A would be installed");
    assert_eq!(report.operations[2].message, "Post-install hook of A would run");
    let no_hooks = ApplyOptions {
        modules: vec![module("A", Some("echo a"), Vec::new())],
        backup: false,
        dry_run: false,
        skip_hooks: true,
    };
    assert_eq!(DreamcoderEngine::apply_steps(&no_hooks), vec![ApplyStep::Install(0)]);
}

#[test]
fn a_new_backup_is_listed_first() {
    let manager = BackupManager { backup_dir: "/b".to_string(), max_backups: 1 };
    let path = manager.new_backup_path();
    let name = path.strip_prefix("/b/").unwrap().to_string();
    assert!(!name.contains('/'));
    assert_eq!(name.len(), "backup-".len() + 15);
    let entries = vec![
        BackupEntry { name: "backup-20000101-000000".to_string(), path: "/b/backup-20000101-000000".to_string() },
        BackupEntry { name: name.clone(), path: path.clone() },
    ];
    let listed = manager.list(&entries);
    assert_eq!(listed.len(), 2);
    assert_eq!(listed[0].path, path);
    assert_eq!(manager.backups_to_remove(&listed), vec!["/b/backup-20000101-000000".to_string()]);
}
