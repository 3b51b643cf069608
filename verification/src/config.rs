//! Resolved configuration values and the rules that produce them.
//!
//! Reading and writing the configuration file, and discovering default
//! directories from the environment, are the surrounding application's
//! work; this module holds the resolution rules: defaults, the clamp on
//! the load limit, home expansion and the sample file text.
use vstd::prelude::*;

use crate::text::{chars_of, string_from_chars, strip_prefix};

verus! {

/// The resolved configuration the session runs with.
#[derive(Debug, Clone)]
pub struct Config {
    pub scrollback_dir: String,
    pub scrollback_load_limit: usize,
    pub save_scrollback: bool,
    pub notify: bool,
}

/// Why a configured value was rejected.
#[derive(Debug)]
pub enum ConfigError {
    /// A path entry resolved to nothing.
    EmptyPath,
}

impl Config {
    /// Applies defaults and bounds to the optional values a
    /// configuration file carries: the load limit defaults to 500 and is
    /// clamped to [50, 100000]; persistence and notification default on.
    pub fn resolve(
        scrollback_dir: String,
        scrollback_load_limit: Option<usize>,
        save_scrollback: Option<bool>,
        notify: Option<bool>,
    ) -> (r: Config)
        ensures
            r.scrollback_dir@ == scrollback_dir@,
            r.scrollback_load_limit == (match scrollback_load_limit {
                Some(n) => if n < 50 {
                    50usize
                } else if n > 100000 {
                    100000usize
                } else {
                    n
                },
                None => 500usize,
            }),
            r.save_scrollback == (match save_scrollback {
                Some(b) => b,
                None => true,
            }),
            r.notify == (match notify {
                Some(b) => b,
                None => true,
            }),
    {
        let limit: usize = match scrollback_load_limit {
            Some(n) => if n < 50 {
                50
            } else if n > 100000 {
                100000
            } else {
                n
            },
            None => 500,
        };
        Config {
            scrollback_dir,
            scrollback_load_limit: limit,
            save_scrollback: match save_scrollback {
                Some(b) => b,
                None => true,
            },
            notify: match notify {
                Some(b) => b,
                None => true,
            },
        }
    }
}

/// Expands a configured path: surrounding whitespace is dropped, an
/// empty entry is rejected, and a leading `~/` is replaced by the home
/// directory.
pub fn expand_path(s: &str, home: &str) -> (r: Result<String, ConfigError>)
    ensures
        ({
            let t = crate::text::spec_trim(s@);
            match r {
                Ok(p) => t.len() > 0 && (if seq!['~', '/'].is_prefix_of(t) {
                    p@ == home@ + seq!['/'] + t.skip(2)
                } else {
                    p@ == t
                }),
                Err(_) => t.len() == 0,
            }
        }),
{
    let cv = chars_of(s);
    let tv = crate::text::trim_chars(&cv);
    if tv.len() == 0 {
        return Err(ConfigError::EmptyPath);
    }
    let t = string_from_chars(&tv);
    proof {
        reveal_strlit("~/");
    }
    match strip_prefix(t.as_str(), "~/") {
        Some(rest) => {
            let mut out: Vec<char> = Vec::new();
            let hv = chars_of(home);
            let mut k: usize = 0;
            while k < hv.len()
                invariant
                    k <= hv@.len(),
                    hv@ == home@,
                    out@ == home@.subrange(0, k as int),
                decreases hv@.len() - k,
            {
                out.push(hv[k]);
                k += 1;
                assert(out@ =~= home@.subrange(0, k as int));
            }
            assert(out@ =~= home@);
            out.push('/');
            let rv = chars_of(rest.as_str());
            let mut q: usize = 0;
            while q < rv.len()
                invariant
                    q <= rv@.len(),
                    rv@ == rest@,
                    out@ == home@ + seq!['/'] + rest@.subrange(0, q as int),
                decreases rv@.len() - q,
            {
                out.push(rv[q]);
                q += 1;
                assert(out@ =~= home@ + seq!['/'] + rest@.subrange(0, q as int));
            }
            assert(out@ =~= home@ + seq!['/'] + rest@);
            proof {
                assert("~/"@ =~= seq!['~', '/']);
                assert(rest@ =~= crate::text::spec_trim(s@).skip(2));
            }
            Ok(string_from_chars(&out))
        },
        None => {
            proof {
                assert("~/"@ =~= seq!['~', '/']);
            }
            Ok(t)
        },
    }
}

/// The sample configuration text written on first start, with the
/// default scrollback directory spliced in.
pub fn default_config_text(default_scrollback: &str) -> (r: String)
    ensures
        r@ == "# client configuration\n#\n# Location of scrollback (saved chat history, one JSON line per message):\n\nscrollback_dir = \""@
            + default_scrollback@
            + "\"\nscrollback_load_limit = 500\nsave_scrollback = true\nnotify = true\n"@,
{
    let mut out = String::from_str(
        "# client configuration\n#\n# Location of scrollback (saved chat history, one JSON line per message):\n\nscrollback_dir = \"",
    );
    out.append(default_scrollback);
    out.append("\"\nscrollback_load_limit = 500\nsave_scrollback = true\nnotify = true\n");
    out
}

} // verus!
