//! Where the browser keeps its data.

use vstd::prelude::*;

use crate::text;

verus! {

/// The path `rel` seen from `base`: `rel` itself where it is absolute, else
/// `base`, a slash where one is missing, and `rel`.
pub open spec fn path_join(base: Seq<char>, rel: Seq<char>) -> Seq<char> {
    if rel.len() > 0 && rel[0] == '/' {
        rel
    } else if base.len() == 0 || base.last() == '/' {
        base + rel
    } else {
        base + "/"@ + rel
    }
}

/// The path `rel` seen from `base`.
pub fn join_path(base: &str, rel: &str) -> (r: String)
    ensures
        r@ == path_join(base@, rel@),
{
    let b = text::chars_of(base);
    let c = text::chars_of(rel);
    if c.len() > 0 && c[0] == '/' {
        rel.to_owned()
    } else if b.len() == 0 || b[b.len() - 1] == '/' {
        text::joined(base, rel)
    } else {
        let mut r = base.to_owned();
        r.append("/");
        r.append(rel);
        r
    }
}

/// A value that may be absent, or a default.
pub open spec fn text_or(value: Option<String>, default: Seq<char>) -> Seq<char> {
    match value {
        Some(v) => v@,
        None => default,
    }
}

/// The directory for data, given the values of `XDG_DATA_HOME` and `HOME`
/// where they are set. An empty `XDG_DATA_HOME` counts as not set.
pub open spec fn data_directory(xdg: Option<String>, home: Option<String>) -> Seq<char> {
    let base = if xdg is Some && xdg->0@.len() > 0 {
        xdg->0@
    } else {
        path_join(text_or(home, "/tmp"@), ".local/share"@)
    };
    path_join(base, "wynn-browser"@)
}

/// Simple home-directory fallback.
pub fn dirs_fallback(home: Option<String>) -> (r: String)
    ensures
        r@ == text_or(home, "/tmp"@),
{
    match home {
        Some(dir) => dir,
        None => "/tmp".to_owned(),
    }
}

/// Return the directory where the browser stores its data.
///
/// Respects `$XDG_DATA_HOME`; falls back to `~/.local/share` where it is not
/// set or empty.
pub fn data_dir(xdg_data_home: Option<String>, home: Option<String>) -> (r: String)
    ensures
        r@ == data_directory(xdg_data_home, home),
{
    if let Some(dir) = xdg_data_home {
        if !dir.as_str().is_empty() {
            return join_path(dir.as_str(), "wynn-browser");
        }
    }
    let home_dir = dirs_fallback(home);
    let base = join_path(home_dir.as_str(), ".local/share");
    join_path(base.as_str(), "wynn-browser")
}

/// The database file in the data directory.
pub fn database_path(data_dir: &str) -> (r: String)
    ensures
        r@ == path_join(data_dir@, "wynn.db"@),
{
    join_path(data_dir, "wynn.db")
}

// Laws.

/// A path that begins with a slash is taken as it is; any other stands behind
/// the base, and behind exactly one slash more than the base lacks.
pub proof fn law_path_join(base: Seq<char>, rel: Seq<char>)
    ensures
        rel.len() > 0 && rel[0] == '/' ==> path_join(base, rel) == rel,
        (rel.len() == 0 || rel[0] != '/') && base.len() > 0 && base.last() != '/' ==> path_join(
            base,
            rel,
        ) == base + seq!['/'] + rel,
        (rel.len() == 0 || rel[0] != '/') && (base.len() == 0 || base.last() == '/') ==> path_join(
            base,
            rel,
        ) == base + rel,
{
    reveal_strlit("/");
    assert("/"@ =~= seq!['/']);
}

/// Where data is kept: under `XDG_DATA_HOME` where it says something, else
/// under the home directory, and always in a directory of the browser's own.
pub proof fn law_data_directory(xdg: Option<String>, home: Option<String>)
    ensures
        xdg is Some && xdg->0@.len() > 0 ==> data_directory(xdg, home) == path_join(
            xdg->0@,
            "wynn-browser"@,
        ),
        (xdg is None || xdg->0@.len() == 0) && home is Some ==> data_directory(xdg, home) == path_join(
            path_join(home->0@, ".local/share"@),
            "wynn-browser"@,
        ),
        (xdg is None || xdg->0@.len() == 0) && home is None ==> data_directory(xdg, home) == path_join(
            path_join("/tmp"@, ".local/share"@),
            "wynn-browser"@,
        ),
{
}

} // verus!
