//! Secrets: which provider is used, and the commands that encrypt and
//! decrypt with it. The commands run outside the library.
use vstd::prelude::*;
use crate::engine::config::Config;
use crate::paths::{join, join_path};
use crate::system::{home_dir, program_available};
use crate::text::concat;

verus! {

/// Why a secrets operation failed.
pub enum SecretError {
    ProviderNotAvailable(String),
    Encryption(String),
    Decryption(String),
    Io(String),
    ExternalCommand(String),
}

/// The text an error is shown with.
pub open spec fn secret_error_text(e: SecretError) -> Seq<char> {
    match e {
        SecretError::ProviderNotAvailable(m) => "Provider not available: "@ + m@,
        SecretError::Encryption(m) => "Encryption failed: "@ + m@,
        SecretError::Decryption(m) => "Decryption failed: "@ + m@,
        SecretError::Io(m) => "IO error: "@ + m@,
        SecretError::ExternalCommand(m) => "External command failed: "@ + m@,
    }
}

impl SecretError {
    /// The text the error is shown with.
    pub fn message(&self) -> (r: String)
        ensures
            r@ == secret_error_text(*self),
    {
        match self {
            SecretError::ProviderNotAvailable(m) => concat("Provider not available: ", m.as_str()),
            SecretError::Encryption(m) => concat("Encryption failed: ", m.as_str()),
            SecretError::Decryption(m) => concat("Decryption failed: ", m.as_str()),
            SecretError::Io(m) => concat("IO error: ", m.as_str()),
            SecretError::ExternalCommand(m) => concat("External command failed: ", m.as_str()),
        }
    }
}

/// A command to run: a program and its arguments.
pub struct CommandPlan {
    pub program: String,
    pub args: Vec<String>,
}

/// A command as plain values.
pub open spec fn plan_view(p: CommandPlan) -> (Seq<char>, Seq<Seq<char>>) {
    (p.program@, p.args.deep_view())
}

/// A provider of secrets, which users may implement.
pub trait SecretProvider {
    /// The provider's name.
    fn name(&self) -> String;

    /// Whether the provider's tool is installed.
    fn is_available(&self) -> bool;

    /// The command that encrypts the file `input` into `output`.
    fn encrypt_command(&self, input: &str, output: &str) -> Result<CommandPlan, SecretError>;

    /// The command that decrypts the file `input` (into `output` when given).
    fn decrypt_command(&self, input: &str, output: Option<&str>) -> Result<CommandPlan, SecretError>;
}

/// The `age` tool: files encrypted offline with a key file.
pub struct AgeProvider {
    pub identity_file: Option<String>,
}

/// The 1Password command-line tool.
pub struct OnePasswordProvider;

/// The Bitwarden command-line tool.
pub struct BitwardenProvider;

/// The key file of `age` under a home directory.
pub open spec fn age_key_under(home: Seq<char>) -> Seq<char> {
    join(join(join(home, ".config"@), "dreamcoder"@), "age.key"@)
}

fn strings(parts: Vec<&str>) -> (r: Vec<String>)
    ensures
        r.deep_view() == parts@.map_values(|s: &str| s@),
{
    let mut out: Vec<String> = Vec::new();
    let mut i: usize = 0;
    while i < parts.len()
        invariant
            i <= parts.len(),
            out.deep_view() == parts@.take(i as int).map_values(|s: &str| s@),
        decreases parts.len() - i,
    {
        let ghost before = out.deep_view();
        let item: String = parts[i].to_owned();
        assert(item@ == parts@[i as int]@);
        out.push(item);
        assert(out.deep_view() =~= before.push(parts@[i as int]@));
        assert(parts@.take(i + 1).map_values(|s: &str| s@) =~= parts@.take(i as int).map_values(|s: &str| s@).push(parts@[i as int]@));
        i = i + 1;
    }
    assert(parts@.take(i as int) =~= parts@);
    out
}

impl AgeProvider {
    /// A provider whose key file is `~/.config/dreamcoder/age.key` (none
    /// where there is no home directory).
    pub fn new() -> (r: AgeProvider)
        ensures
            match r.identity_file {
                Some(f) => exists|home: Seq<char>| f@ == age_key_under(home),
                None => true,
            },
    {
        match home_dir() {
            Some(h) => AgeProvider { identity_file: Some(Self::key_file_under(h.as_str())) },
            None => AgeProvider { identity_file: None },
        }
    }

    /// The key file under the home directory `home`.
    pub fn key_file_under(home: &str) -> (r: String)
        ensures
            r@ == age_key_under(home@),
    {
        let a = join_path(home, ".config");
        let b = join_path(a.as_str(), "dreamcoder");
        join_path(b.as_str(), "age.key")
    }
}

impl OnePasswordProvider {
    pub fn new() -> (r: OnePasswordProvider) {
        OnePasswordProvider
    }
}

impl BitwardenProvider {
    pub fn new() -> (r: BitwardenProvider) {
        BitwardenProvider
    }
}

impl SecretProvider for AgeProvider {
    fn name(&self) -> (r: String)
        ensures
            r@ == "age"@,
    {
        "age".to_string()
    }

    fn is_available(&self) -> (r: bool) {
        program_available("age")
    }

    /// `age -r <key file> -o <output> <input>`; an error without a key file.
    fn encrypt_command(&self, input: &str, output: &str) -> (r: Result<CommandPlan, SecretError>)
        ensures
            match self.identity_file {
                Some(k) => r matches Ok(p) && plan_view(p) == ("age"@, seq!["-r"@, k@, "-o"@, output@, input@]),
                None => r matches Err(SecretError::Encryption(m)) && m@ == "No identity file"@,
            },
    {
        match &self.identity_file {
            Some(k) => {
                let args = strings(vec!["-r", k.as_str(), "-o", output, input]);
                assert(args.deep_view() =~= seq!["-r"@, k@, "-o"@, output@, input@]);
                Ok(CommandPlan { program: "age".to_string(), args })
            },
            None => Err(SecretError::Encryption("No identity file".to_string())),
        }
    }

    /// `age -d -i <key file> <input>`, with `-o <output>` when given; an
    /// error without a key file.
    fn decrypt_command(&self, input: &str, output: Option<&str>) -> (r: Result<CommandPlan, SecretError>)
        ensures
            match self.identity_file {
                Some(k) => r matches Ok(p) && plan_view(p) == ("age"@, seq!["-d"@, "-i"@, k@, input@] + match output {
                    Some(o) => seq!["-o"@, o@],
                    None => Seq::<Seq<char>>::empty(),
                }),
                None => r matches Err(SecretError::Decryption(m)) && m@ == "No identity file"@,
            },
    {
        match &self.identity_file {
            Some(k) => {
                let mut args = strings(vec!["-d", "-i", k.as_str(), input]);
                let ghost first = args.deep_view();
                match output {
                    Some(o) => {
                        let mut more = strings(vec!["-o", o]);
                        let ghost m = more.deep_view();
                        assert(m =~= seq!["-o"@, o@]);
                        args.append(&mut more);
                        assert(args.deep_view() =~= first + m);
                    },
                    None => {},
                }
                assert(args.deep_view() =~= seq!["-d"@, "-i"@, k@, input@] + match output {
                    Some(o) => seq!["-o"@, o@],
                    None => Seq::<Seq<char>>::empty(),
                });
                Ok(CommandPlan { program: "age".to_string(), args })
            },
            None => Err(SecretError::Decryption("No identity file".to_string())),
        }
    }
}

impl SecretProvider for OnePasswordProvider {
    fn name(&self) -> (r: String)
        ensures
            r@ == "1password"@,
    {
        "1password".to_string()
    }

    fn is_available(&self) -> (r: bool) {
        program_available("op")
    }

    /// 1Password stores secrets, not files: always an error.
    fn encrypt_command(&self, input: &str, output: &str) -> (r: Result<CommandPlan, SecretError>)
        ensures
            r matches Err(SecretError::ProviderNotAvailable(m))
                && m@ == "1Password stores secrets, not files. Use 'op create item' or combine with age"@,
    {
        Err(SecretError::ProviderNotAvailable(
            "1Password stores secrets, not files. Use 'op create item' or combine with age".to_string(),
        ))
    }

    /// `op read op://Personal/dotfiles/config`.
    fn decrypt_command(&self, input: &str, output: Option<&str>) -> (r: Result<CommandPlan, SecretError>)
        ensures
            r matches Ok(p) && plan_view(p) == ("op"@, seq!["read"@, "op://Personal/dotfiles/config"@]),
    {
        let args = strings(vec!["read", "op://Personal/dotfiles/config"]);
        assert(args.deep_view() =~= seq!["read"@, "op://Personal/dotfiles/config"@]);
        Ok(CommandPlan { program: "op".to_string(), args })
    }
}

impl SecretProvider for BitwardenProvider {
    fn name(&self) -> (r: String)
        ensures
            r@ == "bitwarden"@,
    {
        "bitwarden".to_string()
    }

    fn is_available(&self) -> (r: bool) {
        program_available("bw")
    }

    /// Bitwarden stores secrets, not files: always an error.
    fn encrypt_command(&self, input: &str, output: &str) -> (r: Result<CommandPlan, SecretError>)
        ensures
            r matches Err(SecretError::ProviderNotAvailable(m))
                && m@ == "Bitwarden stores secrets, not files. Use 'bw create item' or combine with age"@,
    {
        Err(SecretError::ProviderNotAvailable(
            "Bitwarden stores secrets, not files. Use 'bw create item' or combine with age".to_string(),
        ))
    }

    /// `bw get item dotfiles`.
    fn decrypt_command(&self, input: &str, output: Option<&str>) -> (r: Result<CommandPlan, SecretError>)
        ensures
            r matches Ok(p) && plan_view(p) == ("bw"@, seq!["get"@, "item"@, "dotfiles"@]),
    {
        let args = strings(vec!["get", "item", "dotfiles"]);
        assert(args.deep_view() =~= seq!["get"@, "item"@, "dotfiles"@]);
        Ok(CommandPlan { program: "bw".to_string(), args })
    }
}

/// The outcome of a command that encrypted (or decrypted): on failure, the
/// error with what the command wrote to its error stream; on success, what
/// it wrote to its output.
pub fn command_outcome(encrypting: bool, success: bool, stdout: String, stderr: String) -> (r: Result<String, SecretError>)
    ensures
        success ==> (r matches Ok(out) && out@ == stdout@),
        !success && encrypting ==> (r matches Err(SecretError::Encryption(m)) && m@ == stderr@),
        !success && !encrypting ==> (r matches Err(SecretError::Decryption(m)) && m@ == stderr@),
{
    if success {
        Ok(stdout)
    } else if encrypting {
        Err(SecretError::Encryption(stderr))
    } else {
        Err(SecretError::Decryption(stderr))
    }
}

/// One of the providers the manager knows.
pub enum Provider {
    Age(AgeProvider),
    OnePassword(OnePasswordProvider),
    Bitwarden(BitwardenProvider),
}

/// A provider's name.
pub open spec fn provider_name(p: Provider) -> Seq<char> {
    match p {
        Provider::Age(_) => "age"@,
        Provider::OnePassword(_) => "1password"@,
        Provider::Bitwarden(_) => "bitwarden"@,
    }
}

/// The name of the first available provider, or `age` when none is.
pub open spec fn first_available(names: Seq<Seq<char>>, available: Seq<bool>) -> Seq<char>
    decreases names.len(),
{
    if names.len() == 0 || available.len() == 0 {
        "age"@
    } else if available[0] {
        names[0]
    } else {
        first_available(names.drop_first(), available.drop_first())
    }
}

/// Encrypts and decrypts with the active provider.
pub struct SecretManager {
    pub providers: Vec<Provider>,
    pub active_provider: String,
}

impl Provider {
    pub fn name(&self) -> (r: String)
        ensures
            r@ == provider_name(*self),
    {
        match self {
            Provider::Age(p) => p.name(),
            Provider::OnePassword(p) => p.name(),
            Provider::Bitwarden(p) => p.name(),
        }
    }

    pub fn is_available(&self) -> (r: bool) {
        match self {
            Provider::Age(p) => p.is_available(),
            Provider::OnePassword(p) => p.is_available(),
            Provider::Bitwarden(p) => p.is_available(),
        }
    }

    pub fn encrypt_command(&self, input: &str, output: &str) -> (r: Result<CommandPlan, SecretError>)
        ensures
            encrypt_outcome(*self, input@, output@, r),
    {
        match self {
            Provider::Age(p) => p.encrypt_command(input, output),
            Provider::OnePassword(p) => p.encrypt_command(input, output),
            Provider::Bitwarden(p) => p.encrypt_command(input, output),
        }
    }

    pub fn decrypt_command(&self, input: &str, output: Option<&str>) -> (r: Result<CommandPlan, SecretError>)
        ensures
            decrypt_outcome(*self, input@, opt_str(output), r),
    {
        match self {
            Provider::Age(p) => p.decrypt_command(input, output),
            Provider::OnePassword(p) => p.decrypt_command(input, output),
            Provider::Bitwarden(p) => p.decrypt_command(input, output),
        }
    }
}

/// The names of the providers.
/// The text of an optional string slice.
pub open spec fn opt_str(o: Option<&str>) -> Option<Seq<char>> {
    match o {
        Some(s) => Some(s@),
        None => None,
    }
}

/// `r` is what the provider `p` answers when asked to encrypt `input` into `output`.
pub open spec fn encrypt_outcome(p: Provider, input: Seq<char>, output: Seq<char>, r: Result<CommandPlan, SecretError>) -> bool {
    match p {
        Provider::Age(a) => match a.identity_file {
            Some(k) => r matches Ok(c) && plan_view(c) == ("age"@, seq!["-r"@, k@, "-o"@, output, input]),
            None => r matches Err(SecretError::Encryption(m)) && m@ == "No identity file"@,
        },
        Provider::OnePassword(_) => r matches Err(SecretError::ProviderNotAvailable(m))
            && m@ == "1Password stores secrets, not files. Use 'op create item' or combine with age"@,
        Provider::Bitwarden(_) => r matches Err(SecretError::ProviderNotAvailable(m))
            && m@ == "Bitwarden stores secrets, not files. Use 'bw create item' or combine with age"@,
    }
}

/// `r` is what the provider `p` answers when asked to decrypt `input`
/// (into `output` when given).
pub open spec fn decrypt_outcome(p: Provider, input: Seq<char>, output: Option<Seq<char>>, r: Result<CommandPlan, SecretError>) -> bool {
    match p {
        Provider::Age(a) => match a.identity_file {
            Some(k) => r matches Ok(c) && plan_view(c) == ("age"@, seq!["-d"@, "-i"@, k@, input] + match output {
                Some(o) => seq!["-o"@, o],
                None => Seq::<Seq<char>>::empty(),
            }),
            None => r matches Err(SecretError::Decryption(m)) && m@ == "No identity file"@,
        },
        Provider::OnePassword(_) => r matches Ok(c) && plan_view(c) == ("op"@, seq!["read"@, "op://Personal/dotfiles/config"@]),
        Provider::Bitwarden(_) => r matches Ok(c) && plan_view(c) == ("bw"@, seq!["get"@, "item"@, "dotfiles"@]),
    }
}

/// The `i`-th provider is the first one named `name`.
pub open spec fn first_named(ps: Seq<Provider>, name: Seq<char>, i: int) -> bool {
    &&& 0 <= i < ps.len()
    &&& provider_name(ps[i]) == name
    &&& forall|k: int| 0 <= k < i ==> provider_name(#[trigger] ps[k]) != name
}

pub open spec fn provider_names(ps: Seq<Provider>) -> Seq<Seq<char>> {
    ps.map_values(|p: Provider| provider_name(p))
}

impl SecretManager {
    /// The name of the first provider that is available, or `age`.
    pub fn choose_active(names: &Vec<String>, available: &Vec<bool>) -> (r: String)
        requires
            names.len() == available.len(),
        ensures
            r@ == first_available(names.deep_view(), available@),
    {
        let mut i: usize = 0;
        assert(names.deep_view().skip(0) =~= names.deep_view());
        assert(available@.skip(0) =~= available@);
        while i < names.len()
            invariant
                names.len() == available.len(),
                i <= names.len(),
                first_available(names.deep_view(), available@)
                    == first_available(names.deep_view().skip(i as int), available@.skip(i as int)),
            decreases names.len() - i,
        {
            proof {
                let a = names.deep_view().skip(i as int);
                let b = available@.skip(i as int);
                assert(a.drop_first() =~= names.deep_view().skip(i + 1));
                assert(b.drop_first() =~= available@.skip(i + 1));
                assert(a[0] == names[i as int]@);
                assert(b[0] == available@[i as int]);
            }
            if available[i] {
                return names[i].clone();
            }
            i = i + 1;
        }
        "age".to_string()
    }

    /// The manager with the age, 1Password and Bitwarden providers, in that
    /// order; the active one is the first whose tool is installed, or age.
    pub fn new(config: &Config) -> (r: SecretManager)
        ensures
            provider_names(r.providers@) == seq!["age"@, "1password"@, "bitwarden"@],
            exists|available: Seq<bool>| available.len() == 3
                && r.active_provider@ == first_available(provider_names(r.providers@), available),
    {
        let mut providers: Vec<Provider> = Vec::new();
        providers.push(Provider::Age(AgeProvider::new()));
        providers.push(Provider::OnePassword(OnePasswordProvider::new()));
        providers.push(Provider::Bitwarden(BitwardenProvider::new()));
        let mut names: Vec<String> = Vec::new();
        let mut available: Vec<bool> = Vec::new();
        let mut i: usize = 0;
        while i < providers.len()
            invariant
                i <= providers.len(),
                names.len() == i,
                available.len() == i,
                names.deep_view() == provider_names(providers@).take(i as int),
            decreases providers.len() - i,
        {
            let ghost before = names.deep_view();
            names.push(providers[i].name());
            available.push(providers[i].is_available());
            assert(names.deep_view() =~= provider_names(providers@).take(i + 1));
            i = i + 1;
        }
        assert(provider_names(providers@).take(i as int) =~= provider_names(providers@));
        let active_provider = Self::choose_active(&names, &available);
        assert(provider_names(providers@) =~= seq!["age"@, "1password"@, "bitwarden"@]);
        SecretManager { providers, active_provider }
    }

    /// The provider named as the active one.
    pub fn get_active_provider(&self) -> (r: Option<&Provider>)
        ensures
            match r {
                Some(p) => exists|i: int| #[trigger] first_named(self.providers@, self.active_provider@, i)
                    && self.providers@[i] == *p,
                None => !provider_names(self.providers@).contains(self.active_provider@),
            },
    {
        let mut i: usize = 0;
        while i < self.providers.len()
            invariant
                i <= self.providers.len(),
                forall|k: int| 0 <= k < i ==> provider_name(#[trigger] self.providers@[k]) != self.active_provider@,
            decreases self.providers.len() - i,
        {
            let n = self.providers[i].name();
            if n == self.active_provider {
                assert(first_named(self.providers@, self.active_provider@, i as int));
                return Some(&self.providers[i]);
            }
            i = i + 1;
        }
        proof {
            if provider_names(self.providers@).contains(self.active_provider@) {
                let k = choose|k: int| 0 <= k < self.providers@.len() && provider_names(self.providers@)[k] == self.active_provider@;
                assert(provider_name(self.providers@[k]) == self.active_provider@);
            }
        }
        None
    }

    /// The command that encrypts `input` into `output` with the active
    /// provider; an error when it is not among the providers.
    pub fn encrypt(&self, input: &str, output: &str) -> (r: Result<CommandPlan, SecretError>)
        ensures
            !provider_names(self.providers@).contains(self.active_provider@) ==>
                (r matches Err(SecretError::ProviderNotAvailable(m)) && m@ == self.active_provider@),
            provider_names(self.providers@).contains(self.active_provider@) ==> exists|i: int|
                #[trigger] first_named(self.providers@, self.active_provider@, i)
                && encrypt_outcome(self.providers@[i], input@, output@, r),
    {
        match self.get_active_provider() {
            Some(p) => {
                proof {
                    let i = choose|i: int| #[trigger] first_named(self.providers@, self.active_provider@, i)
                        && self.providers@[i] == *p;
                    assert(provider_names(self.providers@)[i] == self.active_provider@);
                }
                p.encrypt_command(input, output)
            },
            None => Err(SecretError::ProviderNotAvailable(self.active_provider.clone())),
        }
    }

    /// The command that decrypts `input` with the active provider; an error
    /// when it is not among the providers.
    pub fn decrypt(&self, input: &str, output: Option<&str>) -> (r: Result<CommandPlan, SecretError>)
        ensures
            !provider_names(self.providers@).contains(self.active_provider@) ==>
                (r matches Err(SecretError::ProviderNotAvailable(m)) && m@ == self.active_provider@),
            provider_names(self.providers@).contains(self.active_provider@) ==> exists|i: int|
                #[trigger] first_named(self.providers@, self.active_provider@, i)
                && decrypt_outcome(self.providers@[i], input@, opt_str(output), r),
    {
        match self.get_active_provider() {
            Some(p) => {
                proof {
                    let i = choose|i: int| #[trigger] first_named(self.providers@, self.active_provider@, i)
                        && self.providers@[i] == *p;
                    assert(provider_names(self.providers@)[i] == self.active_provider@);
                }
                p.decrypt_command(input, output)
            },
            None => Err(SecretError::ProviderNotAvailable(self.active_provider.clone())),
        }
    }
}


/// The active provider is the first available one: where the provider at
/// `k` is available and none before it is, it is that provider; where none
/// is available, it is `age`.
pub proof fn law_first_available_provider(names: Seq<Seq<char>>, available: Seq<bool>)
    requires
        names.len() == available.len(),
    ensures
        forall|k: int|
            0 <= k < names.len() && #[trigger] available[k] && (forall|j: int| 0 <= j < k ==> !available[j])
                ==> first_available(names, available) == names[k],
        (forall|j: int| 0 <= j < available.len() ==> !available[j]) ==> first_available(names, available) == "age"@,
    decreases names.len(),
{
    if names.len() > 0 {
        let n1 = names.drop_first();
        let a1 = available.drop_first();
        law_first_available_provider(n1, a1);
        assert forall|k: int|
            0 <= k < names.len() && #[trigger] available[k] && (forall|j: int| 0 <= j < k ==> !available[j])
                implies first_available(names, available) == names[k] by {
            if k > 0 {
                assert(!available[0]);
                assert(a1[k - 1] == available[k]);
                assert(n1[k - 1] == names[k]);
                assert forall|j: int| 0 <= j < k - 1 implies !a1[j] by {
                    assert(a1[j] == available[j + 1]);
                }
            }
        }
        if forall|j: int| 0 <= j < available.len() ==> !available[j] {
            assert(!available[0]);
            assert forall|j: int| 0 <= j < a1.len() implies !a1[j] by {
                assert(a1[j] == available[j + 1]);
            }
        }
    }
}

}
