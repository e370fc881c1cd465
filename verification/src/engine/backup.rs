//! Backups of the managed files: when one is due, where it goes, which old
//! ones are removed.
use vstd::prelude::*;
use crate::paths::{components, file_name, join, join_path, lemma_components_join, path_file_name};
use crate::sort::{lex_before, sorted, stable_from, stable_sort, Ordered};
use crate::text::{concat, push_char, has_prefix, starts_with_str, trim_prefix_all, trim_start_matches};
use super::config::Config;
use super::error::DreamcoderError;

verus! {

broadcast use vstd::seq_lib::group_to_multiset_ensures;

/// The SHA-256 digest of `data`.
pub uninterp spec fn sha256(data: Seq<u8>) -> Seq<u8>;

/// `sha2::Sha256::digest`: the digest of `data`, which depends on `data`
/// alone and is 32 bytes long.
#[verifier::external_body]
fn sha256_digest(data: &[u8]) -> (r: Vec<u8>)
    ensures
        r@ == sha256(data@),
        r@.len() == 32,
{
    <sha2::Sha256 as sha2::Digest>::digest(data).to_vec()
}

/// The lowercase hexadecimal digit for `n < 16`.
pub open spec fn hex_digit(n: u8) -> char {
    if n < 10 {
        (('0' as u8) + n) as char
    } else {
        (('a' as u8) + (n - 10)) as char
    }
}

/// `bytes` in lowercase hexadecimal, two digits per byte, high half first.
pub open spec fn hex_lower(bytes: Seq<u8>) -> Seq<char>
    decreases bytes.len(),
{
    if bytes.len() == 0 {
        seq![]
    } else {
        hex_lower(bytes.drop_last()) + seq![hex_digit(bytes.last() / 16), hex_digit(bytes.last() % 16)]
    }
}

/// The lowercase hexadecimal digit for `n < 16`.
fn hex_char(n: u8) -> (c: char)
    requires
        n < 16,
    ensures
        c == hex_digit(n),
{
    if n < 10 {
        (48u8 + n) as char
    } else {
        (97u8 + (n - 10)) as char
    }
}

/// The bytes in lowercase hexadecimal, two digits per byte, the high half first.
fn hex_encode(bytes: &[u8]) -> (r: String)
    ensures
        r@ == hex_lower(bytes@),
{
    let mut out = String::new();
    let mut i: usize = 0;
    while i < bytes.len()
        invariant
            i <= bytes.len(),
            out@ == hex_lower(bytes@.take(i as int)),
        decreases bytes.len() - i,
    {
        let b = bytes[i];
        push_char(&mut out, hex_char(b / 16));
        push_char(&mut out, hex_char(b % 16));
        i = i + 1;
        proof {
            let t = bytes@.take(i as int);
            assert(t.drop_last() =~= bytes@.take(i - 1));
            assert(t.last() == b);
            assert(out@ =~= hex_lower(t));
        }
    }
    assert(bytes@.take(i as int) =~= bytes@);
    out
}

/// The pattern backup names are stamped with (`chrono`'s `strftime` syntax).
pub const STAMP_FORMAT: &'static str = "%Y%m%d-%H%M%S";

/// The time that `stamp` denotes when read with the pattern `fmt`, in
/// seconds since the Unix epoch, if it is valid.
pub uninterp spec fn stamp_seconds(stamp: Seq<char>, fmt: Seq<char>) -> Option<i64>;

/// `chrono::NaiveDateTime::parse_from_str(stamp, fmt)`, read as UTC: the
/// result depends on the text and the pattern alone.
#[verifier::external_body]
fn parse_stamp(stamp: &str, fmt: &str) -> (r: Option<i64>)
    ensures
        r == stamp_seconds(stamp@, fmt@),
{
    chrono::NaiveDateTime::parse_from_str(stamp, fmt).ok().map(|t| t.and_utc().timestamp())
}

/// A stamp as the clock writes it with the backup pattern: not empty, free
/// of separators, and either a text of digits that `fmt` reads back or,
/// after the year 9999, a text led by a sign.
pub open spec fn written_stamp(s: Seq<char>, fmt: Seq<char>) -> bool {
    &&& s.len() > 0
    &&& !s.contains('/')
    &&& ('0' <= s[0] && s[0] <= '9' && stamp_seconds(s, fmt) is Some) || s[0] == '+'
}

/// `chrono::Utc::now().format(fmt)`, written out: the current time as a
/// stamp. Its value depends on the clock; what holds of every value is that
/// the pattern writes digits and `-` only (the year zero-padded to four
/// digits, the other fields to two), which the same pattern reads back,
/// except that a year after 9999 is written with a leading `+` and is then
/// not read back. Only the backup pattern is admitted, as writing out a
/// pattern that chrono cannot format panics.
#[verifier::external_body]
pub(crate) fn stamp_now(fmt: &str) -> (r: String)
    requires
        fmt@ == STAMP_FORMAT@,
    ensures
        written_stamp(r@, fmt@),
{
    chrono::Utc::now().format(fmt).to_string()
}

/// The digest that stands for one managed file: the SHA-256 digest of its
/// content, or 32 zero bytes where it cannot be read (it does not exist).
pub open spec fn digest_of(content: Option<Seq<u8>>) -> Seq<u8> {
    match content {
        Some(b) => sha256(b),
        None => Seq::new(32, |i: int| 0u8),
    }
}

/// The digests of the managed files, one after the other.
pub open spec fn digests(contents: Seq<Option<Seq<u8>>>) -> Seq<u8>
    decreases contents.len(),
{
    if contents.len() == 0 {
        seq![]
    } else {
        digests(contents.drop_last()) + digest_of(contents.last())
    }
}

/// The hash the state is summed up by: the SHA-256 digest, in lowercase
/// hexadecimal, of the digests of the managed files' contents, in order.
pub open spec fn state_hash(contents: Seq<Option<Seq<u8>>>) -> Seq<char> {
    hex_lower(sha256(digests(contents)))
}

/// The contents of the managed files as plain values.
pub open spec fn contents_view(v: Seq<Option<Vec<u8>>>) -> Seq<Option<Seq<u8>>> {
    v.map_values(|o: Option<Vec<u8>>| match o {
        Some(b) => Some(b@),
        None => None,
    })
}

/// The text of an optional string.
pub open spec fn opt_text(o: Option<String>) -> Option<Seq<char>> {
    match o {
        Some(s) => Some(s@),
        None => None,
    }
}

/// The state, whose managed files hold `contents`, changed since the backup
/// that recorded `last_hash` (or no backup recorded one).
pub open spec fn changed_since(contents: Seq<Option<Seq<u8>>>, last_hash: Option<Seq<char>>) -> bool {
    match last_hash {
        Some(h) => h != state_hash(contents),
        None => true,
    }
}

/// The files a backup covers, under the home directory `home`: the entries
/// of `~/.config` whose names start with `dreamcoder`, in name order, then
/// `.zshrc`, `.bashrc`, `.tmux.conf` and `.gitconfig`.
pub open spec fn managed_paths(home: Seq<char>, config_matches: Seq<Seq<char>>) -> Seq<Seq<char>> {
    config_matches.map_values(|n: Seq<char>| join(join(home, ".config"@), n)) + seq![
        join(home, ".zshrc"@),
        join(home, ".bashrc"@),
        join(home, ".tmux.conf"@),
        join(home, ".gitconfig"@),
    ]
}

/// The names among `names` that start with `dreamcoder`, in order.
pub open spec fn dreamcoder_names(names: Seq<Seq<char>>) -> Seq<Seq<char>>
    decreases names.len(),
{
    if names.len() == 0 {
        seq![]
    } else {
        let rest = dreamcoder_names(names.drop_last());
        if has_prefix(names.last(), "dreamcoder"@) {
            rest.push(names.last())
        } else {
            rest
        }
    }
}

/// The sum of the sizes, or the largest `u64` where it does not fit.
pub open spec fn total_size(sizes: Seq<u64>) -> int
    decreases sizes.len(),
{
    if sizes.len() == 0 {
        0
    } else {
        let t = total_size(sizes.drop_last()) + sizes.last();
        if t > u64::MAX { u64::MAX as int } else { t }
    }
}

/// A backup on disk.
pub struct Backup {
    pub path: String,
    /// Seconds since the Unix epoch.
    pub timestamp: i64,
    pub hash: String,
}

impl Ordered for Backup {
    /// Newer backups come first.
    open spec fn before(self, other: Self) -> bool {
        self.timestamp > other.timestamp
    }

    proof fn before_asymmetric(a: Self, b: Self) {
    }

    proof fn before_transitive(a: Self, b: Self, c: Self) {
    }

    proof fn before_weak(a: Self, b: Self, c: Self) {
    }

    fn comes_before(&self, other: &Self) -> (r: bool) {
        self.timestamp > other.timestamp
    }
}

/// An entry of the backup directory.
pub struct BackupEntry {
    pub name: String,
    pub path: String,
}

/// The backups among the entries, in listing order: entries named
/// `backup-<stamp>` with a valid stamp.
pub open spec fn backups_of(es: Seq<BackupEntry>) -> Seq<(Seq<char>, i64)>
    decreases es.len(),
{
    if es.len() == 0 {
        seq![]
    } else {
        let rest = backups_of(es.drop_last());
        let e = es.last();
        if has_prefix(e.name@, "backup-"@) {
            match stamp_seconds(trim_prefix_all(e.name@, "backup-"@), STAMP_FORMAT@) {
                Some(t) => rest.push((e.path@, t)),
                None => rest,
            }
        } else {
            rest
        }
    }
}

/// The path and time of each backup.
pub open spec fn backups_view(v: Seq<Backup>) -> Seq<(Seq<char>, i64)> {
    v.map_values(|b: Backup| (b.path@, b.timestamp))
}

/// `r` is `v` reordered (`r[i]` is `v[from[i]]`), backups of the same time
/// keeping their order in `v`.
pub open spec fn kept_in_order(r: Seq<(Seq<char>, i64)>, v: Seq<(Seq<char>, i64)>, from: Seq<int>) -> bool {
    &&& from.len() == r.len()
    &&& forall|i: int| 0 <= i < r.len() ==> 0 <= #[trigger] from[i] < v.len() && r[i] == v[from[i]]
    &&& forall|i: int, j: int| 0 <= i < j < r.len() ==> #[trigger] from[i] != #[trigger] from[j]
    &&& forall|i: int, j: int| 0 <= i < j < r.len() && r[i].1 == r[j].1 ==> #[trigger] from[i] < #[trigger] from[j]
}

/// Creates, lists and rotates backups.
pub struct BackupManager {
    pub backup_dir: String,
    pub max_backups: usize,
}

impl BackupManager {
    /// A manager for the configured backup directory and limit.
    pub fn new(config: &Config) -> (r: BackupManager)
        ensures
            r.backup_dir@ == config.backup_dir@,
            r.max_backups == config.max_backups,
    {
        BackupManager { backup_dir: config.backup_dir.clone(), max_backups: config.max_backups }
    }

    /// The hash of the state whose managed files hold `contents` (`None`
    /// for a file that cannot be read).
    pub fn calculate_state_hash(&self, contents: &Vec<Option<Vec<u8>>>) -> (r: String)
        ensures
            r@ == state_hash(contents_view(contents@)),
    {
        let mut all: Vec<u8> = Vec::new();
        let mut i: usize = 0;
        while i < contents.len()
            invariant
                i <= contents.len(),
                all@ == digests(contents_view(contents@.take(i as int))),
            decreases contents.len() - i,
        {
            let ghost before = all@;
            let d: Vec<u8> = match &contents[i] {
                Some(b) => sha256_digest(b.as_slice()),
                None => {
                    let mut z: Vec<u8> = Vec::new();
                    let mut k: usize = 0;
                    while k < 32
                        invariant
                            k <= 32,
                            z@ == Seq::new(k as nat, |q: int| 0u8),
                        decreases 32 - k,
                    {
                        z.push(0u8);
                        assert(z@ =~= Seq::new((k + 1) as nat, |q: int| 0u8));
                        k = k + 1;
                    }
                    z
                },
            };
            let ghost dv = d@;
            let mut dd = d;
            all.append(&mut dd);
            proof {
                let t = contents_view(contents@.take(i + 1));
                assert(t.drop_last() =~= contents_view(contents@.take(i as int)));
                assert(t.last() == contents_view(contents@)[i as int]);
                assert(dv == digest_of(t.last()));
                assert(all@ =~= before + dv);
            }
            i = i + 1;
        }
        assert(contents@.take(i as int) =~= contents@);
        let digest = sha256_digest(all.as_slice());
        hex_encode(digest.as_slice())
    }

    /// The files a backup covers, under the home directory `home`, given the
    /// names of the entries of `~/.config`.
    pub fn managed_files(home: &str, config_entries: &Vec<String>) -> (r: Vec<String>)
        ensures
            exists|matches: Seq<Seq<char>>| #[trigger] managed_paths(home@, matches) == r.deep_view()
                && matches.to_multiset() == dreamcoder_names(config_entries.deep_view()).to_multiset()
                && forall|a: int, b: int| 0 <= a < b < matches.len() ==> !lex_before(#[trigger] matches[b], #[trigger] matches[a]),
    {
        let mut names: Vec<String> = Vec::new();
        let mut i: usize = 0;
        while i < config_entries.len()
            invariant
                i <= config_entries.len(),
                names.deep_view() == dreamcoder_names(config_entries.deep_view().take(i as int)),
            decreases config_entries.len() - i,
        {
            proof {
                let t = config_entries.deep_view().take(i + 1);
                assert(t.drop_last() =~= config_entries.deep_view().take(i as int));
                assert(t.last() == config_entries[i as int]@);
            }
            if starts_with_str(config_entries[i].as_str(), "dreamcoder") {
                let ghost before = names.deep_view();
                names.push(config_entries[i].clone());
                assert(names.deep_view() =~= before.push(config_entries[i as int]@));
            }
            i = i + 1;
        }
        assert(config_entries.deep_view().take(i as int) =~= config_entries.deep_view());
        let sorted_names = stable_sort(names);
        let config_dir = join_path(home, ".config");
        let mut out: Vec<String> = Vec::new();
        let mut k: usize = 0;
        while k < sorted_names.len()
            invariant
                k <= sorted_names.len(),
                config_dir@ == join(home@, ".config"@),
                out.deep_view() == sorted_names.deep_view().take(k as int).map_values(|n: Seq<char>| join(join(home@, ".config"@), n)),
            decreases sorted_names.len() - k,
        {
            let ghost before = out.deep_view();
            let item = join_path(config_dir.as_str(), sorted_names[k].as_str());
            out.push(item);
            assert(sorted_names.deep_view()[k as int] == sorted_names@[k as int]@);
            assert(out.deep_view() =~= before.push(item@));
            assert(out.deep_view() =~= sorted_names.deep_view().take(k + 1).map_values(|n: Seq<char>| join(join(home@, ".config"@), n)));
            k = k + 1;
        }
        assert(sorted_names.deep_view().take(k as int) =~= sorted_names.deep_view());
        let ghost mid = out.deep_view();
        out.push(join_path(home, ".zshrc"));
        out.push(join_path(home, ".bashrc"));
        out.push(join_path(home, ".tmux.conf"));
        out.push(join_path(home, ".gitconfig"));
        proof {
            let ms = sorted_names.deep_view();
            assert(out.deep_view() =~= managed_paths(home@, ms));
            crate::sort::lemma_map_multiset(sorted_names@, names@, |s: String| s@);
            assert(ms =~= sorted_names@.map_values(|s: String| s@));
            assert(names.deep_view() =~= names@.map_values(|s: String| s@));
            assert forall|a: int, b: int| 0 <= a < b < ms.len() implies !lex_before(#[trigger] ms[b], #[trigger] ms[a]) by {
                assert(!sorted_names@[b].before(sorted_names@[a]));
            }
        }
        out
    }

    /// Where a backup at `backup_path` keeps its copy of the managed file `file`.
    pub fn copy_path(backup_path: &str, file: &str) -> (r: String)
        ensures
            r@ == match file_name(file@) {
                Some(n) => join(backup_path@, n),
                None => backup_path@,
            },
    {
        match path_file_name(file) {
            Some(n) => join_path(backup_path, n.as_str()),
            None => backup_path.to_string(),
        }
    }

    /// Where a new backup goes: named after the current time.
    pub fn new_backup_path(&self) -> (r: String)
        ensures
            exists|stamp: Seq<char>|
                #[trigger] written_stamp(stamp, STAMP_FORMAT@) && r@ == join(self.backup_dir@, "backup-"@ + stamp),
    {
        let stamp = stamp_now(STAMP_FORMAT);
        self.backup_path_at(stamp.as_str())
    }

    /// The file that holds the hash of the last backed-up state.
    pub fn last_hash_file(&self) -> (r: String)
        ensures
            r@ == join(self.backup_dir@, ".last-hash"@),
    {
        join_path(self.backup_dir.as_str(), ".last-hash")
    }

    /// Whether the state, whose managed files hold `contents`, changed since
    /// the last backup, given the content of the hash file (`None` where
    /// there is no such file).
    pub fn has_changes(&self, contents: &Vec<Option<Vec<u8>>>, last_hash: &Option<String>) -> (r: bool)
        ensures
            r == changed_since(contents_view(contents@), opt_text(*last_hash)),
    {
        match last_hash {
            None => true,
            Some(h) => {
                let current = self.calculate_state_hash(contents);
                current != *h
            },
        }
    }

    /// Where a backup made at `stamp` goes.
    pub fn backup_path_at(&self, stamp: &str) -> (r: String)
        ensures
            r@ == join(self.backup_dir@, "backup-"@ + stamp@),
    {
        let name = concat("backup-", stamp);
        join_path(self.backup_dir.as_str(), name.as_str())
    }

    /// The backups among the entries of the backup directory, newest first
    /// (backups of the same time keep their listing order).
    pub fn list(&self, entries: &Vec<BackupEntry>) -> (r: Vec<Backup>)
        ensures
            backups_view(r@).to_multiset() == backups_of(entries@).to_multiset(),
            sorted(r@),
            exists|from: Seq<int>| kept_in_order(backups_view(r@), backups_of(entries@), from),
            forall|i: int| 0 <= i < r@.len() ==> (#[trigger] r@[i]).hash@.len() == 0,
    {
        let mut found: Vec<Backup> = Vec::new();
        let mut i: usize = 0;
        while i < entries.len()
            invariant
                i <= entries.len(),
                backups_view(found@) == backups_of(entries@.take(i as int)),
                forall|k: int| 0 <= k < found@.len() ==> (#[trigger] found@[k]).hash@.len() == 0,
            decreases entries.len() - i,
        {
            let e = &entries[i];
            proof {
                let t = entries@.take(i + 1);
                assert(t.drop_last() =~= entries@.take(i as int));
                assert(t.last() == entries@[i as int]);
            }
            if starts_with_str(e.name.as_str(), "backup-") {
                let stamp = trim_start_matches(e.name.as_str(), "backup-");
                match parse_stamp(stamp.as_str(), STAMP_FORMAT) {
                    Some(t) => {
                        let ghost before = backups_view(found@);
                        found.push(Backup { path: e.path.clone(), timestamp: t, hash: String::new() });
                        assert(backups_view(found@) =~= before.push((e.path@, t)));
                    },
                    None => {},
                }
            }
            i = i + 1;
        }
        assert(entries@.take(i as int) =~= entries@);
        let ghost unsorted = found@;
        let r = stable_sort(found);
        proof {
            let from = choose|from: Seq<int>| stable_from(r@, unsorted, from);
            let rv = backups_view(r@);
            let uv = backups_view(unsorted);
            assert forall|i: int, j: int| 0 <= i < j < rv.len() && rv[i].1 == rv[j].1 implies #[trigger] from[i] < #[trigger] from[j] by {
                assert(!r@[i].before(r@[j]) && !r@[j].before(r@[i]));
            }
            assert forall|i: int| 0 <= i < rv.len() implies 0 <= #[trigger] from[i] < uv.len() && rv[i] == uv[from[i]] by {
                assert(r@[i] == unsorted[from[i]]);
            }
            assert(kept_in_order(rv, uv, from));
            crate::sort::lemma_map_multiset(r@, found@, |b: Backup| (b.path@, b.timestamp));
            assert forall|k: int| 0 <= k < r@.len() implies (#[trigger] r@[k]).hash@.len() == 0 by {
                assert(r@.to_multiset().count(r@[k]) > 0);
                assert(found@.to_multiset().count(r@[k]) > 0);
                assert(found@.contains(r@[k]));
            }
        }
        r
    }

    /// The backups to remove so that at most the limit remain: those after
    /// the first `max_backups` (the list is newest first).
    pub fn backups_to_remove(&self, backups: &Vec<Backup>) -> (r: Vec<String>)
        ensures
            backups.len() <= self.max_backups ==> r@.len() == 0,
            backups.len() > self.max_backups ==> r.deep_view() == backups@.skip(self.max_backups as int).map_values(|b: Backup| b.path@),
    {
        let mut out: Vec<String> = Vec::new();
        if backups.len() <= self.max_backups {
            return out;
        }
        let mut i: usize = self.max_backups;
        while i < backups.len()
            invariant
                self.max_backups <= i <= backups.len(),
                out.deep_view() == backups@.subrange(self.max_backups as int, i as int).map_values(|b: Backup| b.path@),
            decreases backups.len() - i,
        {
            let ghost before = out.deep_view();
            out.push(backups[i].path.clone());
            assert(out.deep_view() =~= before.push(backups@[i as int].path@));
            assert(out.deep_view() =~= backups@.subrange(self.max_backups as int, i + 1).map_values(|b: Backup| b.path@));
            i = i + 1;
        }
        assert(backups@.subrange(self.max_backups as int, i as int) =~= backups@.skip(self.max_backups as int));
        out
    }
}

/// The size of a directory, given the sizes of the files found under it:
/// their sum (the largest `u64` where it does not fit).
pub fn get_dir_size(file_sizes: &Vec<u64>) -> (r: Result<u64, DreamcoderError>)
    ensures
        r matches Ok(n) && n == total_size(file_sizes@),
{
    let mut total: u64 = 0;
    let mut i: usize = 0;
    while i < file_sizes.len()
        invariant
            i <= file_sizes.len(),
            total == total_size(file_sizes@.take(i as int)),
        decreases file_sizes.len() - i,
    {
        proof {
            let t = file_sizes@.take(i + 1);
            assert(t.drop_last() =~= file_sizes@.take(i as int));
            assert(t.last() == file_sizes@[i as int]);
        }
        total = total.saturating_add(file_sizes[i]);
        i = i + 1;
    }
    assert(file_sizes@.take(i as int) =~= file_sizes@);
    Ok(total)
}

/// Rotation keeps the newest backups: in a list sorted newest first, each
/// of the first `max_backups` (those kept) is at least as new as each one
/// after them (those removed).
pub proof fn law_rotation_keeps_newest(backups: Seq<Backup>, max_backups: usize, kept: int, removed: int)
    requires
        sorted(backups),
        0 <= kept < max_backups,
        max_backups <= removed < backups.len(),
    ensures
        backups[kept].timestamp >= backups[removed].timestamp,
        backups.skip(max_backups as int).len() + max_backups == backups.len(),
{
    assert(!backups[removed].before(backups[kept]));
}

/// Right after a backup has recorded the hash of the state, no change is
/// seen: a second backup would be skipped.
pub proof fn law_no_change_after_backup(contents: Seq<Option<Seq<u8>>>, recorded: Seq<char>)
    requires
        recorded == state_hash(contents),
    ensures
        !changed_since(contents, Some(recorded)),
        forall|h: Seq<char>| #[trigger] changed_since(contents, Some(h)) <==> h != recorded,
{
}


proof fn lemma_backup_name(stamp: Seq<char>)
    requires
        written_stamp(stamp, STAMP_FORMAT@),
    ensures
        !("backup-"@ + stamp).contains('/'),
        ("backup-"@ + stamp).len() > 7,
        has_prefix("backup-"@ + stamp, "backup-"@),
        trim_prefix_all("backup-"@ + stamp, "backup-"@) == stamp,
{
    reveal_strlit("backup-");
    let p = "backup-"@;
    let n = p + stamp;
    assert(n.take(7) =~= p);
    assert(n.skip(7) =~= stamp);
    if n.contains('/') {
        let i = choose|i: int| 0 <= i < n.len() && n[i] == '/';
        if i >= 7 {
            assert(stamp[i - 7] == '/');
            assert(stamp.contains('/'));
        }
    }
    assert(!has_prefix(stamp, p)) by {
        if has_prefix(stamp, p) {
            assert(stamp.take(7)[0] == stamp[0]);
            assert(p[0] == 'b');
        }
    }
    assert(trim_prefix_all(stamp, p) == stamp);
    assert(trim_prefix_all(n, p) == trim_prefix_all(stamp, p));
}

/// A new backup lies directly in the backup directory: its path is that
/// directory's followed by one more component, its name, `backup-` and the
/// stamp.
pub proof fn law_new_backup_lies_in_dir(dir: Seq<char>, stamp: Seq<char>)
    requires
        written_stamp(stamp, STAMP_FORMAT@),
    ensures
        components(join(dir, "backup-"@ + stamp)) == components(dir).push("backup-"@ + stamp),
        file_name(join(dir, "backup-"@ + stamp)) == Some("backup-"@ + stamp),
{
    lemma_backup_name(stamp);
    let n = "backup-"@ + stamp;
    assert(n != seq!['.']);
    assert(n != seq!['.', '.']);
    lemma_components_join(dir, n);
}

/// An entry of the backup directory named after a stamp that reads back is
/// listed, with the time the stamp denotes.
pub proof fn law_backup_entry_is_listed(es: Seq<BackupEntry>, i: int, stamp: Seq<char>)
    requires
        0 <= i < es.len(),
        es[i].name@ == "backup-"@ + stamp,
        written_stamp(stamp, STAMP_FORMAT@),
        stamp_seconds(stamp, STAMP_FORMAT@) is Some,
    ensures
        backups_of(es).contains((es[i].path@, stamp_seconds(stamp, STAMP_FORMAT@)->Some_0)),
    decreases es.len(),
{
    lemma_backup_name(stamp);
    let x = (es[i].path@, stamp_seconds(stamp, STAMP_FORMAT@)->Some_0);
    let rest = backups_of(es.drop_last());
    if i == es.len() - 1 {
        assert(backups_of(es) == rest.push(x));
        assert(backups_of(es)[rest.len() as int] == x);
    } else {
        assert(es.drop_last()[i] == es[i]);
        law_backup_entry_is_listed(es.drop_last(), i, stamp);
        let k = choose|k: int| 0 <= k < rest.len() && rest[k] == x;
        let e = es.last();
        if has_prefix(e.name@, "backup-"@) && stamp_seconds(trim_prefix_all(e.name@, "backup-"@), STAMP_FORMAT@) is Some {
            assert(backups_of(es)[k] == x);
        }
    }
}

/// Once a backup newer than every other is in the backup directory, it is
/// the first that `list` gives, and so the last that rotation removes.
pub proof fn law_new_backup_listed_first(es: Seq<BackupEntry>, i: int, stamp: Seq<char>, listed: Seq<Backup>)
    requires
        0 <= i < es.len(),
        es[i].name@ == "backup-"@ + stamp,
        written_stamp(stamp, STAMP_FORMAT@),
        stamp_seconds(stamp, STAMP_FORMAT@) is Some,
        forall|x: (Seq<char>, i64)|
            #[trigger] backups_of(es).contains(x) ==> x == (es[i].path@, stamp_seconds(stamp, STAMP_FORMAT@)->Some_0)
                || x.1 < stamp_seconds(stamp, STAMP_FORMAT@)->Some_0,
        backups_view(listed).to_multiset() == backups_of(es).to_multiset(),
        sorted(listed),
    ensures
        listed.len() > 0,
        backups_view(listed)[0] == (es[i].path@, stamp_seconds(stamp, STAMP_FORMAT@)->Some_0),
{
    let t = stamp_seconds(stamp, STAMP_FORMAT@)->Some_0;
    let x = (es[i].path@, t);
    law_backup_entry_is_listed(es, i, stamp);
    let v = backups_view(listed);
    assert(backups_of(es).to_multiset().count(x) > 0);
    assert(v.contains(x));
    let k = choose|k: int| 0 <= k < v.len() && v[k] == x;
    assert(v.to_multiset().count(v[0]) > 0);
    assert(backups_of(es).contains(v[0]));
    if v[0] != x {
        assert(k > 0);
        assert(!listed[k].before(listed[0]));
        assert(listed[k].timestamp == t);
        assert(false);
    }
}

}
