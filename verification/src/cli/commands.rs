//! The decisions of the command-line commands: the configuration they run
//! with, which modules they apply, what they report, and how the simple
//! interactive menu reads its input.
use vstd::prelude::*;
use crate::engine::config::Config;
use crate::engine::modules::Module;
use crate::engine::operation::{action_text, ApplyOptions, Operation, Status};
use crate::text::{chars_of, string_of};
use super::args::{ApplyArgs, Cli};

verus! {

/// `c` is `base` with the command line's overrides: the repository given
/// with `--root`, and the automation flags switched on by
/// `--non-interactive` and `--yes`.
pub open spec fn overridden(c: Config, base: Config, cli: Cli) -> bool {
    &&& c.dotfiles_root@ == match cli.root {
        Some(r) => r@,
        None => base.dotfiles_root@,
    }
    &&& c.ai.non_interactive == (base.ai.non_interactive || cli.non_interactive)
    &&& c.ai.auto_confirm == (base.ai.auto_confirm || cli.yes)
    &&& c.version == base.version
    &&& c.backup_dir == base.backup_dir
    &&& c.state_dir == base.state_dir
    &&& c.max_backups == base.max_backups
    &&& c.detect_changes == base.detect_changes
    &&& c.auto_backup == base.auto_backup
    &&& c.generate_reports == base.generate_reports
    &&& c.secrets_provider == base.secrets_provider
    &&& c.package_manager == base.package_manager
    &&& c.ai.structured_output == base.ai.structured_output
    &&& c.ai.json_pretty == base.ai.json_pretty
}

/// The configuration with the command line's overrides.
pub fn apply_overrides(config: Config, cli: &Cli) -> (r: Config)
    ensures
        overridden(r, config, *cli),
{
    let mut c = config;
    match &cli.root {
        Some(root) => {
            c.dotfiles_root = root.clone();
        },
        None => {},
    }
    if cli.non_interactive {
        c.ai.non_interactive = true;
    }
    if cli.yes {
        c.ai.auto_confirm = true;
    }
    c
}

/// The configuration a command runs with: the loaded one (the defaults),
/// with the command line's overrides.
pub fn load_config(cli: &Cli) -> (r: Config)
    ensures
        exists|base: Config, home: Seq<char>|
            crate::engine::config::is_default_config(base, home) && overridden(r, base, *cli),
{
    let base = match Config::load() {
        Ok(c) => c,
        Err(_) => Config::default(),
    };
    apply_overrides(base, cli)
}

/// The modules among `all` that `apply` installs: all of them when none is
/// named, else those named, in the order found.
pub open spec fn selected(all: Seq<Module>, names: Seq<Seq<char>>) -> Seq<Module>
    decreases all.len(),
{
    if names.len() == 0 {
        all
    } else if all.len() == 0 {
        seq![]
    } else {
        let rest = selected(all.drop_last(), names);
        if names.contains(all.last().name@) {
            rest.push(all.last())
        } else {
            rest
        }
    }
}

/// Whether `name` is among `names`.
fn contains_name(names: &Vec<String>, name: &String) -> (r: bool)
    ensures
        r == names.deep_view().contains(name@),
{
    let mut i: usize = 0;
    while i < names.len()
        invariant
            i <= names.len(),
            forall|k: int| 0 <= k < i ==> names.deep_view()[k] != name@,
        decreases names.len() - i,
    {
        if names[i] == *name {
            assert(names.deep_view()[i as int] == name@);
            return true;
        }
        i = i + 1;
    }
    false
}

/// The modules `apply` installs.
pub fn select_modules(all: Vec<Module>, names: &Vec<String>) -> (r: Vec<Module>)
    ensures
        r@ == selected(all@, names.deep_view()),
{
    if names.len() == 0 {
        return all;
    }
    let ghost orig = all@;
    let mut rest = all;
    let mut kept: Vec<Module> = Vec::new();
    let ghost mut i: int = 0;
    assert(orig.skip(0) =~= orig);
    while rest.len() > 0
        invariant
            names.len() > 0,
            0 <= i <= orig.len(),
            rest@ == orig.skip(i),
            kept@ == selected(orig.take(i), names.deep_view()),
        decreases rest.len(),
    {
        let m = rest.remove(0);
        proof {
            assert(m == orig[i]);
            assert(rest@ =~= orig.skip(i + 1));
            let t = orig.take(i + 1);
            assert(t.drop_last() =~= orig.take(i));
            assert(t.last() == orig[i]);
        }
        if contains_name(names, &m.name) {
            kept.push(m);
        }
        proof {
            i = i + 1;
        }
    }
    assert(orig.take(i) =~= orig);
    kept
}

/// The options `apply` runs with.
pub fn apply_options(args: &ApplyArgs, modules: Vec<Module>) -> (r: ApplyOptions)
    ensures
        r.modules == modules,
        r.backup == !args.no_backup,
        r.dry_run == args.dry_run,
        r.skip_hooks == args.no_hooks,
{
    ApplyOptions { modules, backup: !args.no_backup, dry_run: args.dry_run, skip_hooks: args.no_hooks }
}

/// How `apply` talks to the user.
pub struct ApplyFlow {
    /// List the modules about to be installed.
    pub show_plan: bool,
    /// Ask before applying.
    pub ask_confirmation: bool,
    /// Show a progress bar while applying.
    pub show_progress: bool,
    /// Write the result as JSON.
    pub print_json: bool,
    /// Print the summary afterwards.
    pub print_summary: bool,
}

/// How `apply` talks to the user, given the command line and whether the
/// output is a terminal: the plan is shown and confirmed unless running
/// non-interactively (or, for the confirmation, with `--yes`); a progress bar
/// is shown on an interactive terminal; otherwise the result is written as
/// JSON when asked for; the summary is printed unless JSON is asked for.
pub fn apply_flow(cli: &Cli, is_term: bool) -> (r: ApplyFlow)
    ensures
        r.show_plan == !cli.non_interactive,
        r.ask_confirmation == (!cli.non_interactive && !cli.yes),
        r.show_progress == (is_term && !cli.non_interactive),
        r.print_json == (!(is_term && !cli.non_interactive) && cli.json),
        r.print_summary == !cli.json,
{
    let show_progress = is_term && !cli.non_interactive;
    ApplyFlow {
        show_plan: !cli.non_interactive,
        ask_confirmation: !cli.non_interactive && !cli.yes,
        show_progress,
        print_json: !show_progress && cli.json,
        print_summary: !cli.json,
    }
}

/// What the summary of an apply shows.
pub struct Summary {
    /// Operations that succeeded.
    pub success_count: usize,
    /// All the others.
    pub failed_count: usize,
    /// The action and question of each operation that waits for input.
    pub pending: Vec<(String, String)>,
}

/// The number of operations that succeeded.
pub open spec fn count_status(ops: Seq<Operation>, s: Status) -> nat
    decreases ops.len(),
{
    if ops.len() == 0 {
        0
    } else {
        count_status(ops.drop_last(), s) + if ops.last().status == s { 1nat } else { 0nat }
    }
}

/// The questions of the operations that wait for input, with their actions.
pub open spec fn pending_questions(ops: Seq<Operation>) -> Seq<(Seq<char>, Seq<char>)>
    decreases ops.len(),
{
    if ops.len() == 0 {
        seq![]
    } else {
        let rest = pending_questions(ops.drop_last());
        let o = ops.last();
        if o.status == Status::PendingInput && o.requires_input is Some {
            rest.push((action_text(o.action), o.requires_input.unwrap().message@))
        } else {
            rest
        }
    }
}

proof fn lemma_count_bound(ops: Seq<Operation>, s: Status)
    ensures
        count_status(ops, s) <= ops.len(),
    decreases ops.len(),
{
    if ops.len() > 0 {
        lemma_count_bound(ops.drop_last(), s);
    }
}

/// The summary of the operations of an apply.
pub fn summarize(ops: &Vec<Operation>) -> (r: Summary)
    ensures
        r.success_count == count_status(ops@, Status::Success),
        r.failed_count == ops.len() - count_status(ops@, Status::Success),
        r.pending.deep_view() == pending_questions(ops@),
{
    let mut ok: usize = 0;
    let mut pending: Vec<(String, String)> = Vec::new();
    let mut i: usize = 0;
    while i < ops.len()
        invariant
            i <= ops.len(),
            ok == count_status(ops@.take(i as int), Status::Success),
            ok <= i,
            pending.deep_view() == pending_questions(ops@.take(i as int)),
        decreases ops.len() - i,
    {
        proof {
            let t = ops@.take(i + 1);
            assert(t.drop_last() =~= ops@.take(i as int));
            assert(t.last() == ops@[i as int]);
        }
        let o = &ops[i];
        if o.status == Status::Success {
            ok = ok + 1;
        }
        if o.status == Status::PendingInput {
            match &o.requires_input {
                Some(q) => {
                    let ghost before = pending.deep_view();
                    pending.push((o.action.to_string(), q.message.clone()));
                    assert(pending.deep_view() =~= before.push((action_text(o.action), q.message@)));
                },
                None => {},
            }
        }
        i = i + 1;
    }
    assert(ops@.take(i as int) =~= ops@);
    proof {
        lemma_count_bound(ops@, Status::Success);
    }
    Summary { success_count: ok, failed_count: ops.len() - ok, pending }
}

/// The log level for a verbosity: `info`, then `debug`, then `trace`.
pub open spec fn level_for(verbosity: u8) -> Seq<char> {
    if verbosity == 0 {
        "info"@
    } else if verbosity == 1 {
        "debug"@
    } else {
        "trace"@
    }
}

/// The log level for the number of `-v` flags.
pub fn log_level(verbosity: u8) -> (r: String)
    ensures
        r@ == level_for(verbosity),
{
    let s = if verbosity == 0 {
        "info"
    } else if verbosity == 1 {
        "debug"
    } else {
        "trace"
    };
    s.to_string()
}

/// Whether `c` has Unicode's `White_Space` property (the characters
/// `char::is_whitespace` accepts): tab, line feed, vertical tab, form feed,
/// carriage return, space, U+0085, U+00A0, U+1680, U+2000 to U+200A, U+2028,
/// U+2029, U+202F, U+205F and U+3000.
pub open spec fn white_space(c: char) -> bool {
    let n = c as u32;
    ||| 0x09 <= n <= 0x0D
    ||| n == 0x20
    ||| n == 0x85
    ||| n == 0xA0
    ||| n == 0x1680
    ||| 0x2000 <= n <= 0x200A
    ||| n == 0x2028
    ||| n == 0x2029
    ||| n == 0x202F
    ||| n == 0x205F
    ||| n == 0x3000
}

/// Whether `c` is white space.
fn is_white_space(c: char) -> (r: bool)
    ensures
        r == white_space(c),
{
    let n = c as u32;
    (0x09 <= n && n <= 0x0D) || n == 0x20 || n == 0x85 || n == 0xA0 || n == 0x1680 || (0x2000 <= n && n <= 0x200A)
        || n == 0x2028 || n == 0x2029 || n == 0x202F || n == 0x205F || n == 0x3000
}

/// `s` without the white space at its start and end.
pub open spec fn trimmed(s: Seq<char>, from: int, to: int) -> bool {
    &&& 0 <= from <= to <= s.len()
    &&& forall|k: int| 0 <= k < from ==> white_space(#[trigger] s[k])
    &&& forall|k: int| to <= k < s.len() ==> white_space(#[trigger] s[k])
    &&& from < to ==> !white_space(s[from]) && !white_space(s[to - 1])
}

/// `str::trim`: the text without leading and trailing white space.
pub fn trim(s: &str) -> (r: String)
    ensures
        exists|from: int, to: int| trimmed(s@, from, to) && r@ == s@.subrange(from, to),
{
    let cs = chars_of(s);
    let mut from: usize = 0;
    while from < cs.len() && is_white_space(cs[from])
        invariant
            from <= cs.len(),
            cs@ == s@,
            forall|k: int| 0 <= k < from ==> white_space(#[trigger] cs@[k]),
        decreases cs.len() - from,
    {
        from = from + 1;
    }
    let mut to: usize = cs.len();
    while to > from && is_white_space(cs[to - 1])
        invariant
            from <= to <= cs.len(),
            cs@ == s@,
            forall|k: int| to <= k < cs.len() ==> white_space(#[trigger] cs@[k]),
        decreases to,
    {
        to = to - 1;
    }
    let mut part: Vec<char> = Vec::new();
    let mut i: usize = from;
    while i < to
        invariant
            from <= i <= to <= cs.len(),
            part@ == cs@.subrange(from as int, i as int),
        decreases to - i,
    {
        part.push(cs[i]);
        assert(part@ =~= cs@.subrange(from as int, i + 1));
        i = i + 1;
    }
    assert(trimmed(s@, from as int, to as int));
    string_of(part.as_slice())
}

/// An entry of the interactive menu.
#[derive(Clone, Copy, Debug, PartialEq, Eq, Structural)]
pub enum MenuChoice {
    ListModules,
    ApplyAll,
    Backup,
    Status,
    Quit,
    Invalid,
}

/// The entry a (trimmed) answer picks.
pub open spec fn choice_for(answer: Seq<char>) -> MenuChoice {
    if answer == "1"@ {
        MenuChoice::ListModules
    } else if answer == "2"@ {
        MenuChoice::ApplyAll
    } else if answer == "3"@ {
        MenuChoice::Backup
    } else if answer == "4"@ {
        MenuChoice::Status
    } else if answer == "q"@ || answer == "Q"@ {
        MenuChoice::Quit
    } else {
        MenuChoice::Invalid
    }
}

/// The entry the trimmed answer picks.
pub fn menu_choice(answer: &str) -> (r: MenuChoice)
    ensures
        r == choice_for(answer@),
{
    let a = answer.to_string();
    if a == "1".to_string() {
        MenuChoice::ListModules
    } else if a == "2".to_string() {
        MenuChoice::ApplyAll
    } else if a == "3".to_string() {
        MenuChoice::Backup
    } else if a == "4".to_string() {
        MenuChoice::Status
    } else if a == "q".to_string() || a == "Q".to_string() {
        MenuChoice::Quit
    } else {
        MenuChoice::Invalid
    }
}

/// The entry a line typed at the menu picks: its text without surrounding
/// white space decides.
pub fn read_menu_line(line: &str) -> (r: MenuChoice)
    ensures
        exists|from: int, to: int| trimmed(line@, from, to) && r == choice_for(line@.subrange(from, to)),
{
    let t = trim(line);
    menu_choice(t.as_str())
}

}
