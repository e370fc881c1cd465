use dreamcoder::cli::args::{ApplyArgs, Cli, Commands, StatusArgs};
use dreamcoder::cli::commands::{
    apply_flow, apply_options, apply_overrides, log_level, menu_choice, read_menu_line, select_modules, summarize, trim, MenuChoice,
};
use dreamcoder::cli::output::{ActionType as AiActionType, AiData, AiResponse, AiStatus};
use dreamcoder::cli::tui::{AppState, Key, KeyOutcome, Navigation, Tab};
use dreamcoder::engine::apply::DreamcoderEngine;
use dreamcoder::engine::config::{Config, VERSION};
use dreamcoder::engine::modules::Module;
use dreamcoder::engine::operation::{ActionType, InputRequest, InputType, Operation, OperationResult, Status};

fn module(name: &str) -> Module {
    Module {
        name: name.to_string(),
        path: String::new(),
        description: None,
        symlinks: Vec::new(),
        dependencies: Vec::new(),
        pre_install_hook: None,
        post_install_hook: None,
        os_specific: None,
    }
}

fn op(id: &str, status: Status, question: Option<(InputType, &str, Option<&str>)>) -> Operation {
    Operation {
        id: id.to_string(),
        action: ActionType::Install,
        status,
        message: String::new(),
        requires_input: question.map(|(t, m, d)| InputRequest {
            input_type: t,
            message: m.to_string(),
            default: d.map(|x| x.to_string()),
        }),
        metadata: Vec::new(),
    }
}

fn cli(root: Option<&str>, non_interactive: bool, yes: bool) -> Cli {
    Cli {
        command: Commands::Status(StatusArgs { detailed: false }),
        non_interactive,
        json: true,
        yes,
        root: root.map(|r| r.to_string()),
        verbose: 0,
    }
}

#[test]
fn command_line_overrides_the_config() {
    let base = Config::for_home("/home/u");
    let c = apply_overrides(base, &cli(Some("/dots"), true, false));
    assert_eq!(c.dotfiles_root, "/dots");
    assert!(c.ai.non_interactive);
    assert!(!c.ai.auto_confirm);
    assert_eq!(c.backup_dir, "/home/u/.config/dreamcoder-backups");
    let kept = apply_overrides(Config::for_home("/home/u"), &cli(None, false, true));
    assert_eq!(kept.dotfiles_root, "/home/u/Documents/PROYECTOS/Dreamcoder_dots");
    assert!(kept.ai.auto_confirm);
}

#[test]
fn named_modules_are_selected_in_found_order() {
    let all = vec![module("A"), module("B"), module("C")];
    let picked = select_modules(all, &vec!["C".to_string(), "A".to_string(), "Z".to_string()]);
    let names: Vec<&str> = picked.iter().map(|m| m.name.as_str()).collect();
    assert_eq!(names, vec!["A", "C"]);
    let every = select_modules(vec![module("A"), module("B")], &Vec::new());
    assert_eq!(every.len(), 2);
}

#[test]
fn apply_options_follow_the_flags() {
    let args = ApplyArgs { modules: Vec::new(), dry_run: true, no_backup: true, no_hooks: false, force: false };
    let o = apply_options(&args, vec![module("A")]);
    assert!(!o.backup && o.dry_run && !o.skip_hooks);
    assert_eq!(o.modules.len(), 1);
}

#[test]
fn summary_counts_and_lists_questions() {
    let ops = vec![
        op("1", Status::Success, None),
        op("2", Status::Failed, None),
        op("3", Status::PendingInput, Some((InputType::Confirm, "Overwrite ~/.zshrc?", Some("false")))),
        op("4", Status::Skipped, None),
    ];
    let s = summarize(&ops);
    assert_eq!(s.success_count, 1);
    assert_eq!(s.failed_count, 3);
    assert_eq!(s.pending, vec![("install".to_string(), "Overwrite ~/.zshrc?".to_string())]);
}

#[test]
fn verbosity_sets_the_log_level() {
    assert_eq!(log_level(0), "info");
    assert_eq!(log_level(1), "debug");
    assert_eq!(log_level(2), "trace");
    assert_eq!(log_level(9), "trace");
}

#[test]
fn menu_reads_trimmed_answers() {
    assert_eq!(trim("  2 \n"), "2");
    assert_eq!(trim("\t\u{3000}x y\u{2003}"), "x y");
    assert_eq!(trim("   "), "");
    assert_eq!(read_menu_line("1\n"), MenuChoice::ListModules);
    assert_eq!(read_menu_line(" Q "), MenuChoice::Quit);
    assert_eq!(menu_choice("3"), MenuChoice::Backup);
    assert_eq!(menu_choice("4"), MenuChoice::Status);
    assert_eq!(menu_choice("q"), MenuChoice::Quit);
    assert_eq!(menu_choice("x"), MenuChoice::Invalid);
}

#[test]
fn response_asks_the_first_pending_question() {
    let result = OperationResult {
        success: false,
        operations: vec![
            op("op-000", Status::Success, None),
            op("op-001", Status::PendingInput, Some((InputType::Confirm, "Overwrite ~/.bashrc?", Some("false")))),
            op("op-002", Status::PendingInput, Some((InputType::Text, "Name?", None))),
        ],
        timestamp: 0,
    };
    let r = AiResponse::from_parts(result, "2025-02-02T15:30:00Z".to_string(), "id-1".to_string());
    assert_eq!(r.version, VERSION);
    assert_eq!(r.timestamp, "2025-02-02T15:30:00Z");
    assert_eq!(r.request_id, "id-1");
    assert_eq!(r.status, AiStatus::RequiresInput);
    let a = r.requires_action.unwrap();
    assert_eq!(a.action_type, AiActionType::Confirm);
    assert_eq!(a.action_type.to_string(), "confirm");
    assert_eq!(a.message, "Overwrite ~/.bashrc?");
    assert_eq!(a.default, Some("false".to_string()));
    assert!(a.options.is_none());
    match r.data {
        AiData::Operations(ops) => assert_eq!(ops.len(), 3),
        _ => panic!("expected operations"),
    }
}

#[test]
fn response_status_follows_the_operations() {
    let all_ok = OperationResult { success: true, operations: vec![op("a", Status::Success, None)], timestamp: 0 };
    let r = AiResponse::from_result(all_ok);
    assert_eq!(r.status, AiStatus::Success);
    assert!(r.requires_action.is_none());
    assert!(!r.request_id.is_empty());
    assert!(!r.timestamp.is_empty());
    let skipped = OperationResult {
        success: false,
        operations: vec![op("a", Status::Skipped, None), op("b", Status::Success, None)],
        timestamp: 0,
    };
    assert_eq!(AiResponse::from_result(skipped).status, AiStatus::Success);
    let partial = OperationResult {
        success: false,
        operations: vec![op("a", Status::Failed, None), op("b", Status::Success, None)],
        timestamp: 0,
    };
    assert_eq!(AiResponse::from_result(partial).status, AiStatus::Partial);
    let failed = OperationResult { success: false, operations: vec![op("a", Status::Failed, None)], timestamp: 0 };
    assert_eq!(AiResponse::from_result(failed).status, AiStatus::Failed);
    let waiting = OperationResult { success: false, operations: vec![op("a", Status::PendingInput, None)], timestamp: 0 };
    let w = AiResponse::from_result(waiting);
    assert_eq!(w.status, AiStatus::RequiresInput);
    assert!(w.requires_action.is_none());
}

#[test]
fn conflicting_install_asks_for_confirmation() {
    let m = module("shell");
    let pending = DreamcoderEngine::conflict_operation(&m, &vec!["/home/u/.zshrc".to_string()]);
    let result = DreamcoderEngine::apply_result(vec![pending], 0);
    let r = AiResponse::from_result(result);
    assert_eq!(r.status, AiStatus::RequiresInput);
    let a = r.requires_action.unwrap();
    assert_eq!(a.action_type, AiActionType::Confirm);
    assert_eq!(a.message, "Overwrite existing files? [\"/home/u/.zshrc\"]");
    assert_eq!(a.default, Some("false".to_string()));
}

#[test]
fn keys_drive_the_interface() {
    let mut n = Navigation::new(3);
    assert_eq!(n.state, AppState::Splash);
    assert_eq!(n.on_key(Key::Char('x')), KeyOutcome::Continue);
    assert_eq!(n.state, AppState::Main);
    n.on_key(Key::Char('m'));
    assert_eq!(n.current_tab, Tab::Modules);
    assert_eq!(n.tab_index(), 1);
    n.on_key(Key::Down);
    n.on_key(Key::Char('j'));
    n.on_key(Key::Down);
    assert_eq!(n.selected_module, 2);
    n.on_key(Key::Char('k'));
    assert_eq!(n.selected_module().unwrap(), 1);
    assert_eq!(n.on_key(Key::Enter), KeyOutcome::Install(1));
    assert_eq!(n.state, AppState::Installing);
    n.finish_install();
    assert_eq!(n.state, AppState::Main);
    assert_eq!(n.on_key(Key::Char('q')), KeyOutcome::Quit);
    assert!(n.should_quit);
    assert_eq!(n.tab_titles(), vec!["Dashboard", "Modules", "Backups", "Settings"]);
}

#[test]
fn empty_list_selects_nothing() {
    let mut n = Navigation::new(0);
    n.on_key(Key::Enter);
    assert_eq!(n.on_key(Key::Down), KeyOutcome::Continue);
    assert_eq!(n.selected_module, 0);
    assert_eq!(n.on_key(Key::Enter), KeyOutcome::Continue);
    assert!(n.selected_module().is_none());
}

#[test]
fn splash_gives_way_after_three_seconds() {
    let mut n = Navigation::new(1);
    n.on_tick(3_000_000_000);
    assert_eq!(n.state, AppState::Splash);
    n.on_tick(3_000_000_001);
    assert_eq!(n.state, AppState::Main);
}

#[test]
fn apply_flow_follows_the_flags() {
    let interactive = apply_flow(&cli(None, false, false), true);
    assert!(interactive.show_plan && interactive.ask_confirmation && interactive.show_progress);
    assert!(!interactive.print_json && !interactive.print_summary);
    let automated = apply_flow(&cli(None, true, false), true);
    assert!(!automated.show_plan && !automated.ask_confirmation && !automated.show_progress);
    assert!(automated.print_json);
    let confirmed = apply_flow(&cli(None, false, true), false);
    assert!(confirmed.show_plan && !confirmed.ask_confirmation && !confirmed.show_progress);
}

#[test]
fn state_answers_report_success() {
    let r = AiResponse::from_state("{\"version\":\"2.0.0\"}".to_string());
    assert_eq!(r.status, AiStatus::Success);
    assert!(r.requires_action.is_none());
    assert!(matches!(r.data, AiData::State(t) if t == "{\"version\":\"2.0.0\"}"));
}

#[test]
fn test_ai_protocol_operation_result_structure() {
    let mut metadata = serde_json::Map::new();
    metadata.insert("package".to_string(), serde_json::Value::from("test-pkg"));
    metadata.insert("symlinks_created".to_string(), serde_json::Value::from(3));
    let mut fields = serde_json::Map::new();
    fields.insert("id".to_string(), serde_json::Value::from("op-001"));
    fields.insert("action".to_string(), serde_json::Value::from("install"));
    fields.insert("status".to_string(), serde_json::Value::from("success"));
    fields.insert("message".to_string(), serde_json::Value::from("Package installed"));
    fields.insert("requires_input".to_string(), serde_json::Value::Null);
    fields.insert("metadata".to_string(), serde_json::Value::Object(metadata));
    let op = serde_json::Value::Object(fields);

    assert!(op["id"].is_string());
    assert!(op["action"].is_string());
    assert!(op["status"].is_string());
    assert!(op["message"].is_string());

    let valid_statuses = ["pending", "running", "success", "failed", "skipped", "pending_input"];
    let status = op["status"].as_str().unwrap();
    assert!(valid_statuses.contains(&status));

    println!("✓ Operation structure validated");
}

#[test]
fn test_ai_protocol_status_command() {
    let json = AiResponse::from_state("{\"modules\":[]}".to_string());
    assert!(!json.version.is_empty(), "Missing version field");
    assert!(!json.timestamp.is_empty(), "Missing timestamp field");
    assert!(
        [AiStatus::Success, AiStatus::RequiresInput, AiStatus::Failed].contains(&json.status),
        "Invalid status value"
    );
    assert!(matches!(json.data, AiData::State(_)), "Missing data field");
}
