//! The values templates are rendered with, the decisions of the template
//! helpers, and the errors of rendering. Rendering itself, through the
//! template engine, happens outside the library.
use vstd::prelude::*;
use crate::text::concat;

verus! {

/// The machine a template is rendered on.
pub struct SystemInfo {
    pub os: String,
    pub arch: String,
    pub hostname: String,
}

/// The user a template is rendered for.
pub struct UserInfo {
    pub name: String,
    pub email: String,
    pub home: String,
}

/// Why rendering a template failed.
pub enum TemplateError {
    /// The template engine refused the template (its message).
    Render(String),
    /// The template file could not be read (the error's text).
    Io(String),
}

impl TemplateError {
    /// The text the error is shown with.
    pub fn message(&self) -> (r: String)
        ensures
            r@ == match self {
                TemplateError::Render(m) => "Template render error: "@ + m@,
                TemplateError::Io(m) => "IO error: "@ + m@,
            },
    {
        match self {
            TemplateError::Render(m) => concat("Template render error: ", m.as_str()),
            TemplateError::Io(m) => concat("IO error: ", m.as_str()),
        }
    }
}

/// The error of a render that failed with `message`.
pub fn render_error(message: String) -> (r: TemplateError)
    ensures
        r matches TemplateError::Render(m) && m@ == message@,
{
    TemplateError::Render(message)
}

/// `p` starts with a `~` that stands alone or before a separator (`/`, or
/// on Windows also `\`).
pub open spec fn tilde_led(p: Seq<char>) -> bool {
    p.len() > 0 && p[0] == '~' && (p.len() == 1 || p[1] == '/' || p[1] == '\\')
}

/// `p` starts with `~` followed by a backslash, which is a separator on
/// Windows only.
pub open spec fn backslash_led(p: Seq<char>) -> bool {
    p.len() > 1 && p[0] == '~' && p[1] == '\\'
}

/// What expanding a leading `~` of `p` gives with the home directory
/// `home`: the home directory followed by the rest of `p` when `p` starts
/// with a `~` that stands alone or before a separator and the home
/// directory is known; `p` itself otherwise.
pub open spec fn tilde_expanded(p: Seq<char>, home: Option<Seq<char>>) -> Seq<char> {
    if tilde_led(p) {
        match home {
            Some(h) => h + p.drop_first(),
            None => p,
        }
    } else {
        p
    }
}

/// `shellexpand::tilde_with_context` with `home` as the home directory: a
/// leading `~` that stands alone or before a separator is replaced by the
/// home directory when one is given; other text comes back unchanged. A
/// backslash counts as a separator on Windows only, so after `~\` either
/// outcome is left open.
#[verifier::external_body]
fn expand_tilde_with(path: &str, home: Option<&str>) -> (r: String)
    ensures
        !backslash_led(path@) ==> r@ == tilde_expanded(path@, match home {
            Some(h) => Some(h@),
            None => None,
        }),
        backslash_led(path@) ==> (r@ == path@ || r@ == tilde_expanded(path@, match home {
            Some(h) => Some(h@),
            None => None,
        })),
{
    shellexpand::tilde_with_context(path, || home).into_owned()
}

/// The path whose existence decides whether an `if_exists` block is
/// rendered: the helper's first argument (empty where it is missing or not
/// a string), with a leading `~` expanded to the home directory `home`.
pub fn exists_probe_path(param: Option<&str>, home: Option<&str>) -> (r: String)
    ensures
        match param {
            Some(p) => if backslash_led(p@) {
                r@ == p@ || r@ == tilde_expanded(p@, match home {
                    Some(h) => Some(h@),
                    None => None,
                })
            } else {
                r@ == tilde_expanded(p@, match home {
                    Some(h) => Some(h@),
                    None => None,
                })
            },
            None => r@.len() == 0,
        },
{
    match param {
        Some(p) => expand_tilde_with(p, home),
        None => {
            proof {
                reveal_strlit("");
            }
            let r = expand_tilde_with("", home);
            r
        },
    }
}

/// Whether an `if_os` block is rendered: the helper's first argument
/// (empty where it is missing or not a string) names the current system.
pub fn os_block_renders(param: Option<&str>, current_os: &str) -> (r: bool)
    ensures
        r == match param {
            Some(p) => p@ == current_os@,
            None => current_os@.len() == 0,
        },
{
    match param {
        Some(p) => p.to_string() == current_os.to_string(),
        None => {
            let r = current_os.to_string() == String::new();
            assert(current_os@.len() == 0 ==> current_os@ =~= Seq::<char>::empty());
            r
        },
    }
}

}
