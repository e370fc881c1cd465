//! The terminal interface's navigation: the screen it shows, the tab, the
//! selected module, and what each key does. Drawing and the progress bar
//! live outside the library.
use vstd::prelude::*;
use crate::text::{concat, decimal, decimal_string};

verus! {

/// The tabs of the interface.
#[derive(Clone, Copy, Debug, PartialEq, Eq, Structural)]
pub enum Tab {
    Dashboard,
    Modules,
    Backups,
    Settings,
}

/// The screen the interface shows.
#[derive(Clone, Copy, Debug, PartialEq, Eq, Structural)]
pub enum AppState {
    Splash,
    Main,
    Installing,
    Error,
}

/// A key the interface reacts to.
#[derive(Clone, Copy, Debug, PartialEq, Eq, Structural)]
pub enum Key {
    Char(char),
    Up,
    Down,
    Enter,
    Other,
}

/// What the interface does after a key.
#[derive(Clone, Copy, Debug, PartialEq, Eq, Structural)]
pub enum KeyOutcome {
    /// Keep running.
    Continue,
    /// Leave the interface.
    Quit,
    /// Install the module at this index, and keep running.
    Install(usize),
}

/// The navigation state of the interface.
pub struct Navigation {
    pub state: AppState,
    pub selected_module: usize,
    pub current_tab: Tab,
    pub should_quit: bool,
    /// How many modules are listed.
    pub module_count: usize,
}

/// The tab a key switches to, if it switches.
pub open spec fn tab_for(k: Key) -> Option<Tab> {
    match k {
        Key::Char(c) => if c == 'm' {
            Some(Tab::Modules)
        } else if c == 'd' {
            Some(Tab::Dashboard)
        } else if c == 'b' {
            Some(Tab::Backups)
        } else if c == 's' {
            Some(Tab::Settings)
        } else {
            None
        },
        _ => None,
    }
}

/// The key moves the selection down.
pub open spec fn is_down(k: Key) -> bool {
    k == Key::Down || k == Key::Char('j')
}

/// The key moves the selection up.
pub open spec fn is_up(k: Key) -> bool {
    k == Key::Up || k == Key::Char('k')
}

/// What a key does to the navigation `n`, giving the next navigation and
/// the outcome: on the splash screen any key shows the main screen; `q`
/// quits; `m`, `d`, `b`, `s` switch tabs; down and `j` move the selection to
/// the next module, up and `k` to the previous one, within the list; Enter
/// installs the selected module, if there is one.
pub open spec fn after_key(n: Navigation, k: Key) -> (Navigation, KeyOutcome) {
    if n.state == AppState::Splash {
        (Navigation { state: AppState::Main, ..n }, KeyOutcome::Continue)
    } else if k == Key::Char('q') {
        (Navigation { should_quit: true, ..n }, KeyOutcome::Quit)
    } else if tab_for(k) is Some {
        (Navigation { current_tab: tab_for(k).unwrap(), ..n }, KeyOutcome::Continue)
    } else if is_down(k) {
        if n.module_count > 0 && n.selected_module < n.module_count - 1 {
            (Navigation { selected_module: (n.selected_module + 1) as usize, ..n }, KeyOutcome::Continue)
        } else {
            (n, KeyOutcome::Continue)
        }
    } else if is_up(k) {
        if n.selected_module > 0 {
            (Navigation { selected_module: (n.selected_module - 1) as usize, ..n }, KeyOutcome::Continue)
        } else {
            (n, KeyOutcome::Continue)
        }
    } else if k == Key::Enter && n.selected_module < n.module_count {
        (Navigation { state: AppState::Installing, ..n }, KeyOutcome::Install(n.selected_module))
    } else {
        (n, KeyOutcome::Continue)
    }
}

/// The titles of the tabs, in order.
pub open spec fn titles() -> Seq<Seq<char>> {
    seq!["Dashboard"@, "Modules"@, "Backups"@, "Settings"@]
}

impl Navigation {
    /// The navigation at start: the splash screen, the dashboard, the first
    /// module selected.
    pub fn new(module_count: usize) -> (r: Navigation)
        ensures
            r.state == AppState::Splash,
            r.selected_module == 0,
            r.current_tab == Tab::Dashboard,
            !r.should_quit,
            r.module_count == module_count,
    {
        Navigation {
            state: AppState::Splash,
            selected_module: 0,
            current_tab: Tab::Dashboard,
            should_quit: false,
            module_count,
        }
    }

    /// Reacts to a key.
    pub fn on_key(&mut self, key: Key) -> (r: KeyOutcome)
        ensures
            (*final(self), r) == after_key(*old(self), key),
    {
        if self.state == AppState::Splash {
            self.state = AppState::Main;
            return KeyOutcome::Continue;
        }
        match key {
            Key::Char('q') => {
                self.should_quit = true;
                KeyOutcome::Quit
            },
            Key::Char('m') => {
                self.current_tab = Tab::Modules;
                KeyOutcome::Continue
            },
            Key::Char('d') => {
                self.current_tab = Tab::Dashboard;
                KeyOutcome::Continue
            },
            Key::Char('b') => {
                self.current_tab = Tab::Backups;
                KeyOutcome::Continue
            },
            Key::Char('s') => {
                self.current_tab = Tab::Settings;
                KeyOutcome::Continue
            },
            Key::Down | Key::Char('j') => {
                if self.module_count > 0 && self.selected_module < self.module_count - 1 {
                    self.selected_module = self.selected_module + 1;
                }
                KeyOutcome::Continue
            },
            Key::Up | Key::Char('k') => {
                if self.selected_module > 0 {
                    self.selected_module = self.selected_module - 1;
                }
                KeyOutcome::Continue
            },
            Key::Enter => {
                if self.selected_module < self.module_count {
                    self.state = AppState::Installing;
                    KeyOutcome::Install(self.selected_module)
                } else {
                    KeyOutcome::Continue
                }
            },
            _ => KeyOutcome::Continue,
        }
    }

    /// The splash screen gives way to the main screen once more than three
    /// seconds have passed.
    pub fn on_tick(&mut self, splash_elapsed_nanos: u128)
        ensures
            final(self).state == if old(self).state == AppState::Splash && splash_elapsed_nanos > 3_000_000_000 {
                AppState::Main
            } else {
                old(self).state
            },
            final(self).selected_module == old(self).selected_module,
            final(self).current_tab == old(self).current_tab,
            final(self).should_quit == old(self).should_quit,
            final(self).module_count == old(self).module_count,
    {
        if self.state == AppState::Splash && splash_elapsed_nanos > 3_000_000_000 {
            self.state = AppState::Main;
        }
    }

    /// An install that was shown in progress is done: back to the main screen.
    pub fn finish_install(&mut self)
        ensures
            final(self).state == if old(self).state == AppState::Installing { AppState::Main } else { old(self).state },
            final(self).selected_module == old(self).selected_module,
            final(self).current_tab == old(self).current_tab,
            final(self).should_quit == old(self).should_quit,
            final(self).module_count == old(self).module_count,
    {
        if self.state == AppState::Installing {
            self.state = AppState::Main;
        }
    }

    /// The selected module's index, if the list has one there.
    pub fn selected_module(&self) -> (r: Option<usize>)
        ensures
            r == if self.selected_module < self.module_count { Some(self.selected_module) } else { None },
    {
        if self.selected_module < self.module_count {
            Some(self.selected_module)
        } else {
            None
        }
    }

    /// The titles of the tabs.
    pub fn tab_titles(&self) -> (r: Vec<String>)
        ensures
            r.deep_view() == titles(),
    {
        let mut v: Vec<String> = Vec::new();
        v.push("Dashboard".to_string());
        v.push("Modules".to_string());
        v.push("Backups".to_string());
        v.push("Settings".to_string());
        assert(v.deep_view() =~= titles());
        v
    }

    /// The position of the current tab among the titles.
    pub fn tab_index(&self) -> (r: usize)
        ensures
            r < 4,
            r == match self.current_tab {
                Tab::Dashboard => 0usize,
                Tab::Modules => 1usize,
                Tab::Backups => 2usize,
                Tab::Settings => 3usize,
            },
    {
        match self.current_tab {
            Tab::Dashboard => 0,
            Tab::Modules => 1,
            Tab::Backups => 2,
            Tab::Settings => 3,
        }
    }
}

/// The selection always stays within the list: starting from a selection in
/// the list (or at the start of an empty one), any key keeps it there.
pub proof fn law_selection_in_bounds(n: Navigation, k: Key)
    requires
        n.selected_module < n.module_count || n.selected_module == 0,
    ensures
        after_key(n, k).0.selected_module < n.module_count || after_key(n, k).0.selected_module == 0,
        after_key(n, k).0.module_count == n.module_count,
{
}

/// The row of the module list for a module: a marker when it is selected,
/// its name and how many files it links.
pub open spec fn row_text(selected: bool, name: Seq<char>, files: nat) -> Seq<char> {
    (if selected { "\u{25b6}"@ } else { "  "@ }) + " "@ + name + " ("@ + decimal(files) + " files)"@
}

/// The text of the status bar.
pub open spec fn status_text(state: AppState) -> Seq<char> {
    (if state == AppState::Installing { "Installing..."@ } else { "Ready"@ })
        + " | Press 'q' to quit | [d]ashboard [m]odules [b]ackups [s]ettings"@
}

/// The text of the dashboard's system panel.
pub open spec fn dashboard_text(modules: nat) -> Seq<char> {
    "OS: Linux\nArch: x86_64\nModules: "@ + decimal(modules) + " available\nStatus: Ready"@
}

/// The row of the module list for the module at `index`.
pub fn module_row(nav: &Navigation, index: usize, name: &str, files: usize) -> (r: String)
    ensures
        r@ == row_text(index == nav.selected_module, name@, files as nat),
{
    let marker = if index == nav.selected_module { "\u{25b6}" } else { "  " };
    let a = concat(marker, " ");
    let b = concat(a.as_str(), name);
    let c = concat(b.as_str(), " (");
    let n = decimal_string(files);
    let d = concat(c.as_str(), n.as_str());
    concat(d.as_str(), " files)")
}

/// The text of the status bar for the navigation's screen.
pub fn status_line(nav: &Navigation) -> (r: String)
    ensures
        r@ == status_text(nav.state),
{
    let head = if nav.state == AppState::Installing { "Installing..." } else { "Ready" };
    concat(head, " | Press 'q' to quit | [d]ashboard [m]odules [b]ackups [s]ettings")
}

/// The text of the dashboard's system panel.
pub fn dashboard_info(nav: &Navigation) -> (r: String)
    ensures
        r@ == dashboard_text(nav.module_count as nat),
{
    let n = decimal_string(nav.module_count);
    let a = concat("OS: Linux\nArch: x86_64\nModules: ", n.as_str());
    concat(a.as_str(), " available\nStatus: Ready")
}

}
