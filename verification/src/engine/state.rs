//! The state the manager keeps between runs: which modules are installed.
use vstd::prelude::*;
use crate::paths::{join, join_path};
use super::config::Config;

verus! {

/// What is recorded of an installed module.
pub struct ModuleState {
    pub name: String,
    pub installed: bool,
    /// Seconds since the Unix epoch.
    pub install_date: Option<i64>,
    pub symlinks: Vec<String>,
    /// A hash of the module, to notice changes.
    pub checksum: String,
}

/// The persistent state.
pub struct State {
    pub version: String,
    /// Module names in the order they were registered (a name registered
    /// twice appears twice).
    pub installed_modules: Vec<String>,
    /// Seconds since the Unix epoch.
    pub last_backup: Option<i64>,
    /// The record of each module, one per name.
    pub module_states: Vec<ModuleState>,
    pub system_info: Vec<(String, String)>,
}

/// Holds the state and knows where it is saved.
pub struct StateManager {
    pub state_dir: String,
    pub state: State,
}

/// The index of the first record named `name`, if any.
pub open spec fn record_index(records: Seq<ModuleState>, name: Seq<char>) -> Option<int>
    decreases records.len(),
{
    if records.len() == 0 {
        None
    } else {
        match record_index(records.drop_last(), name) {
            Some(i) => Some(i),
            None => if records.last().name@ == name { Some(records.len() - 1) } else { None },
        }
    }
}

/// The record named `name`: the first one with that name.
pub open spec fn record_for(records: Seq<ModuleState>, name: Seq<char>) -> Option<ModuleState> {
    match record_index(records, name) {
        Some(i) => Some(records[i]),
        None => None,
    }
}

/// No two records have the same name, as in a map keyed by name.
pub open spec fn unique_names(records: Seq<ModuleState>) -> bool {
    forall|a: int, b: int| 0 <= a < b < records.len() ==> (#[trigger] records[a]).name@ != (#[trigger] records[b]).name@
}

/// The records after `m` is registered: it replaces the record with its
/// name, or is added at the end.
pub open spec fn registered(records: Seq<ModuleState>, m: ModuleState) -> Seq<ModuleState> {
    match record_index(records, m.name@) {
        Some(i) => records.update(i, m),
        None => records.push(m),
    }
}

proof fn lemma_record_index_bounds(records: Seq<ModuleState>, name: Seq<char>)
    ensures
        record_index(records, name) matches Some(i) ==> 0 <= i < records.len() && records[i].name@ == name,
        record_index(records, name) is None ==> forall|k: int| 0 <= k < records.len() ==> (#[trigger] records[k]).name@ != name,
        record_index(records, name) matches Some(i) ==> forall|k: int| 0 <= k < i ==> (#[trigger] records[k]).name@ != name,
    decreases records.len(),
{
    if records.len() > 0 {
        lemma_record_index_bounds(records.drop_last(), name);
        let d = records.drop_last();
        assert forall|k: int| 0 <= k < d.len() implies d[k] == records[k] by {}
    }
}

/// Finding the first record with a name.
proof fn lemma_record_index_first(records: Seq<ModuleState>, name: Seq<char>, i: int)
    requires
        0 <= i < records.len(),
        records[i].name@ == name,
        forall|k: int| 0 <= k < i ==> (#[trigger] records[k]).name@ != name,
    ensures
        record_index(records, name) == Some(i),
    decreases records.len(),
{
    lemma_record_index_bounds(records, name);
    if i < records.len() - 1 {
        let d = records.drop_last();
        assert forall|k: int| 0 <= k < i implies (#[trigger] d[k]).name@ != name by {
            assert(d[k] == records[k]);
        }
        lemma_record_index_first(d, name, i);
    } else {
        lemma_record_index_bounds(records.drop_last(), name);
        let d = records.drop_last();
        assert forall|k: int| 0 <= k < d.len() implies (#[trigger] d[k]).name@ != name by {
            assert(d[k] == records[k]);
        }
    }
}

/// Reading a record back after registering it gives what was registered;
/// the other names read as before.
pub proof fn lemma_registered_reads(records: Seq<ModuleState>, m: ModuleState, name: Seq<char>)
    ensures
        name == m.name@ ==> record_for(registered(records, m), name) == Some(m),
        name != m.name@ ==> record_for(registered(records, m), name) == record_for(records, name),
{
    lemma_record_index_bounds(records, m.name@);
    lemma_record_index_bounds(records, name);
    let r = registered(records, m);
    match record_index(records, m.name@) {
        Some(i) => {
            if name == m.name@ {
                assert forall|k: int| 0 <= k < i implies (#[trigger] r[k]).name@ != name by {
                    assert(r[k] == records[k]);
                }
                lemma_record_index_first(r, name, i);
            } else {
                match record_index(records, name) {
                    Some(j) => {
                        assert(j != i);
                        assert forall|k: int| 0 <= k < j implies (#[trigger] r[k]).name@ != name by {
                            if k != i {
                                assert(r[k] == records[k]);
                            }
                        }
                        lemma_record_index_first(r, name, j);
                    },
                    None => {
                        lemma_record_index_bounds(r, name);
                        if record_index(r, name) is Some {
                            let j = record_index(r, name).unwrap();
                            if j != i {
                                assert(r[j] == records[j]);
                            }
                        }
                    },
                }
            }
        },
        None => {
            if name == m.name@ {
                let last = records.len() as int;
                assert forall|k: int| 0 <= k < last implies (#[trigger] r[k]).name@ != name by {
                    assert(r[k] == records[k]);
                }
                lemma_record_index_first(r, name, last);
            } else {
                match record_index(records, name) {
                    Some(j) => {
                        assert forall|k: int| 0 <= k < j implies (#[trigger] r[k]).name@ != name by {
                            assert(r[k] == records[k]);
                        }
                        lemma_record_index_first(r, name, j);
                    },
                    None => {
                        lemma_record_index_bounds(r, name);
                        if record_index(r, name) is Some {
                            let j = record_index(r, name).unwrap();
                            if j < records.len() {
                                assert(r[j] == records[j]);
                            }
                        }
                    },
                }
            }
        },
    }
}

/// The place of the state file in the state directory.
pub open spec fn state_file_in(state_dir: Seq<char>) -> Seq<char> {
    join(state_dir, "state.json"@)
}

impl State {
    /// A state with nothing recorded.
    pub fn empty() -> (r: State)
        ensures
            unique_names(r.module_states@),
            r.version@.len() == 0,
            r.installed_modules@.len() == 0,
            r.last_backup is None,
            r.module_states@.len() == 0,
            r.system_info@.len() == 0,
    {
        State {
            version: String::new(),
            installed_modules: Vec::new(),
            last_backup: None,
            module_states: Vec::new(),
            system_info: Vec::new(),
        }
    }
}

impl StateManager {
    /// A manager for the configured state directory holding `state` (the
    /// one read from its file, or an empty one).
    pub fn with_state(config: &Config, state: State) -> (r: StateManager)
        ensures
            r.state_dir@ == config.state_dir@,
            r.state == state,
    {
        StateManager { state_dir: config.state_dir.clone(), state }
    }

    /// The file the state is saved in.
    pub fn state_file(&self) -> (r: String)
        ensures
            r@ == state_file_in(self.state_dir@),
    {
        join_path(self.state_dir.as_str(), "state.json")
    }

    /// Whether the module named `name` was registered.
    pub fn is_module_installed(&self, name: &str) -> (r: bool)
        ensures
            r == self.state.installed_modules.deep_view().contains(name@),
    {
        let wanted = name.to_string();
        let mut i: usize = 0;
        while i < self.state.installed_modules.len()
            invariant
                i <= self.state.installed_modules.len(),
                wanted@ == name@,
                forall|k: int| 0 <= k < i ==> self.state.installed_modules.deep_view()[k] != name@,
            decreases self.state.installed_modules.len() - i,
        {
            if self.state.installed_modules[i] == wanted {
                assert(self.state.installed_modules.deep_view()[i as int] == name@);
                return true;
            }
            i = i + 1;
        }
        false
    }

    /// The index of the first record named `name`.
    fn find_record(&self, name: &str) -> (r: Option<usize>)
        ensures
            match r {
                Some(i) => record_index(self.state.module_states@, name@) == Some(i as int),
                None => record_index(self.state.module_states@, name@) is None,
            },
    {
        let wanted = name.to_string();
        let mut i: usize = 0;
        while i < self.state.module_states.len()
            invariant
                i <= self.state.module_states.len(),
                wanted@ == name@,
                forall|k: int| 0 <= k < i ==> (#[trigger] self.state.module_states@[k]).name@ != name@,
            decreases self.state.module_states.len() - i,
        {
            if self.state.module_states[i].name == wanted {
                proof {
                    lemma_record_index_first(self.state.module_states@, name@, i as int);
                }
                return Some(i);
            }
            i = i + 1;
        }
        proof {
            lemma_record_index_bounds(self.state.module_states@, name@);
            if record_index(self.state.module_states@, name@) is Some {
                let j = record_index(self.state.module_states@, name@).unwrap();
                assert(self.state.module_states@[j].name@ != name@);
            }
        }
        None
    }

    /// Registers a module: its name is added to the installed modules and
    /// its record replaces the one with the same name (or is added). The
    /// state file is written by the caller.
    pub fn register_module(&mut self, module_state: ModuleState)
        ensures
            final(self).state_dir == old(self).state_dir,
            final(self).state.installed_modules.deep_view() == old(self).state.installed_modules.deep_view().push(module_state.name@),
            final(self).state.module_states@ == registered(old(self).state.module_states@, module_state),
            unique_names(old(self).state.module_states@) ==> unique_names(final(self).state.module_states@),
            final(self).state.version == old(self).state.version,
            final(self).state.last_backup == old(self).state.last_backup,
            final(self).state.system_info == old(self).state.system_info,
    {
        let ghost before = self.state.installed_modules.deep_view();
        self.state.installed_modules.push(module_state.name.clone());
        assert(self.state.installed_modules.deep_view() =~= before.push(module_state.name@));
        let ghost before_records = self.state.module_states@;
        proof {
            lemma_record_index_bounds(before_records, module_state.name@);
        }
        match self.find_record(module_state.name.as_str()) {
            Some(i) => {
                self.state.module_states.set(i, module_state);
                proof {
                    let after = self.state.module_states@;
                    if unique_names(before_records) {
                        assert forall|a: int, b: int| 0 <= a < b < after.len() implies (#[trigger] after[a]).name@ != (#[trigger] after[b]).name@ by {
                            if a != i && b != i {
                                assert(after[a] == before_records[a] && after[b] == before_records[b]);
                            } else if a == i {
                                assert(after[b] == before_records[b]);
                                assert(before_records[i as int].name@ != before_records[b].name@);
                            } else {
                                assert(after[a] == before_records[a]);
                                assert(before_records[a].name@ != before_records[i as int].name@);
                            }
                        }
                    }
                }
            },
            None => {
                self.state.module_states.push(module_state);
                proof {
                    let after = self.state.module_states@;
                    if unique_names(before_records) {
                        assert forall|a: int, b: int| 0 <= a < b < after.len() implies (#[trigger] after[a]).name@ != (#[trigger] after[b]).name@ by {
                            assert(after[a] == before_records[a]);
                            if b < before_records.len() {
                                assert(after[b] == before_records[b]);
                            }
                        }
                    }
                }
            },
        }
    }

    /// The record of the module named `name`.
    pub fn get_module_state(&self, name: &str) -> (r: Option<&ModuleState>)
        ensures
            match r {
                Some(m) => record_for(self.state.module_states@, name@) == Some(*m),
                None => record_for(self.state.module_states@, name@) is None,
            },
    {
        match self.find_record(name) {
            Some(i) => {
                proof {
                    lemma_record_index_bounds(self.state.module_states@, name@);
                }
                Some(&self.state.module_states[i])
            },
            None => None,
        }
    }
}

/// What a read gives back of a write: after `register_module(m)`, the module
/// reads as installed and its record is `m`.
pub proof fn law_register_then_read(before: StateManager, after: StateManager, m: ModuleState)
    requires
        after.state.installed_modules.deep_view() == before.state.installed_modules.deep_view().push(m.name@),
        after.state.module_states@ == registered(before.state.module_states@, m),
    ensures
        after.state.installed_modules.deep_view().contains(m.name@),
        record_for(after.state.module_states@, m.name@) == Some(m),
        forall|n: Seq<char>| n != m.name@ ==> #[trigger] record_for(after.state.module_states@, n) == record_for(before.state.module_states@, n),
{
    let v = before.state.installed_modules.deep_view().push(m.name@);
    assert(v[v.len() - 1] == m.name@);
    lemma_registered_reads(before.state.module_states@, m, m.name@);
    assert forall|n: Seq<char>| n != m.name@ implies #[trigger] record_for(after.state.module_states@, n) == record_for(before.state.module_states@, n) by {
        lemma_registered_reads(before.state.module_states@, m, n);
    }
}

}
