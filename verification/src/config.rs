//! Where the configuration lives and what it holds: the task directory,
//! written as one line of text.
//!
//! Paths are held as text. Reading and writing the configuration file is
//! left to the caller, which hands over the file's contents.
use vstd::prelude::*;
use crate::text::{chars_of, string_of};
use vstd::string::StringExecFns;
use vstd::string::StrSliceExecFns;

verus! {

/// The configuration.
#[derive(Debug)]
pub struct AppConfig {
    pub task_dir: String,
}

/// The configuration directory and the configuration file in it.
#[derive(Debug)]
pub struct ConfigPaths {
    pub root: String,
    pub config_file: String,
}

/// Why a configuration file was refused.
#[derive(Debug, Clone, Copy, PartialEq, Eq, Structural)]
pub enum ConfigError {
    /// The file holds no path.
    Empty,
    /// The file holds more than one line.
    MultipleLines,
}

/// `rel` appended to the path `base` (`rel` relative): a `/` goes between
/// them unless `base` is empty or already ends with one.
pub open spec fn joined(base: Seq<char>, rel: Seq<char>) -> Seq<char> {
    if base.len() == 0 || base.last() == '/' {
        base + rel
    } else {
        base + seq!['/'] + rel
    }
}

/// `base` joined with the relative path `rel`.
pub fn join(base: &str, rel: &str) -> (r: String)
    ensures
        r@ == joined(base@, rel@),
{
    let b = chars_of(base);
    let mut out = string_of(b.as_slice());
    if b.len() > 0 && b[b.len() - 1] != '/' {
        crate::text::push_char(&mut out, '/');
    }
    out.append(rel);
    out
}

/// The name of the configuration file in the configuration directory.
pub open spec fn config_file_name() -> Seq<char> {
    "config.txt"@
}

impl ConfigPaths {
    /// The paths for the configuration directory `root`.
    pub fn from_root(root: String) -> (r: ConfigPaths)
        ensures
            r.root@ == root@,
            r.config_file@ == joined(root@, config_file_name()),
    {
        let name = "config.txt";
        proof {
            reveal_strlit("config.txt");
        }
        let config_file = join(root.as_str(), name);
        ConfigPaths { root, config_file }
    }

    /// The paths under `$XDG_CONFIG_HOME/ttd` when `xdg_config_home` is
    /// set, else under `$HOME/.config/ttd`; none when neither is set.
    pub fn discover_from(xdg_config_home: Option<String>, home: Option<String>) -> (r: Option<ConfigPaths>)
        ensures
            match xdg_config_home {
                Some(x) => r matches Some(p) && p.root@ == joined(x@, "ttd"@)
                    && p.config_file@ == joined(p.root@, config_file_name()),
                None => match home {
                    Some(h) => r matches Some(p) && p.root@ == joined(h@, ".config/ttd"@)
                        && p.config_file@ == joined(p.root@, config_file_name()),
                    None => r is None,
                },
            },
    {
        match xdg_config_home {
            Some(x) => {
                let rel = "ttd";
                proof {
                    reveal_strlit("ttd");
                }
                Some(ConfigPaths::from_root(join(x.as_str(), rel)))
            },
            None => match home {
                Some(h) => {
                    let rel = ".config/ttd";
                    proof {
                        reveal_strlit(".config/ttd");
                    }
                    Some(ConfigPaths::from_root(join(h.as_str(), rel)))
                },
                None => None,
            },
        }
    }
}

/// The text without one trailing line break (`\r\n` or `\n`).
pub open spec fn without_line_break(t: Seq<char>) -> Seq<char> {
    if t.len() >= 2 && t[t.len() - 2] == '\r' && t[t.len() - 1] == '\n' {
        t.subrange(0, t.len() - 2)
    } else if t.len() >= 1 && t[t.len() - 1] == '\n' {
        t.subrange(0, t.len() - 1)
    } else {
        t
    }
}

/// Whether the text has a line break character.
pub open spec fn has_line_break(t: Seq<char>) -> bool {
    exists|i: int| 0 <= i < t.len() && (t[i] == '\n' || t[i] == '\r')
}

/// What a configuration file with the text `t` gives: the path on its one
/// line, without the line break.
pub open spec fn parsed_config(t: Seq<char>) -> Result<Seq<char>, ConfigError> {
    let p = without_line_break(t);
    if p.len() == 0 {
        Err(ConfigError::Empty)
    } else if has_line_break(p) {
        Err(ConfigError::MultipleLines)
    } else {
        Ok(p)
    }
}

impl AppConfig {
    /// The text the configuration file holds: the path alone, with no line
    /// break.
    pub fn contents(&self) -> (r: String)
        ensures
            r@ == self.task_dir@,
    {
        self.task_dir.clone()
    }

    /// The configuration that a file with the text `text` holds.
    pub fn from_contents(text: &str) -> (r: Result<AppConfig, ConfigError>)
        ensures
            match r {
                Ok(c) => parsed_config(text@) == Ok::<Seq<char>, ConfigError>(c.task_dir@),
                Err(e) => parsed_config(text@) == Err::<Seq<char>, ConfigError>(e),
            },
    {
        let t = chars_of(text);
        let n = t.len();
        let end = if n >= 2 && t[n - 2] == '\r' && t[n - 1] == '\n' {
            n - 2
        } else if n >= 1 && t[n - 1] == '\n' {
            n - 1
        } else {
            n
        };
        let ghost p = without_line_break(text@);
        assert(t@.subrange(0, end as int) =~= p);
        if end == 0 {
            return Err(ConfigError::Empty);
        }
        let mut i: usize = 0;
        while i < end
            invariant
                i <= end <= t@.len(),
                t@ == text@,
                p == t@.subrange(0, end as int),
                p == without_line_break(text@),
                forall|j: int| 0 <= j < i ==> p[j] != '\n' && p[j] != '\r',
            decreases end - i,
        {
            if t[i] == '\n' || t[i] == '\r' {
                assert(p[i as int] == t@[i as int]);
                assert(has_line_break(p));
                assert(p.len() > 0);
                return Err(ConfigError::MultipleLines);
            }
            i = i + 1;
        }
        let path = string_of(crate::text::slice_range(t.as_slice(), 0, end));
        Ok(AppConfig { task_dir: path })
    }
}

/// A configuration read back from what was written for it is the same
/// configuration, for every path that is not empty and has no line break.
pub proof fn law_config_round_trip(task_dir: Seq<char>)
    requires
        task_dir.len() > 0,
        !has_line_break(task_dir),
    ensures
        parsed_config(task_dir) == Ok::<Seq<char>, ConfigError>(task_dir),
{
    if task_dir.len() >= 1 {
        assert(task_dir[task_dir.len() - 1] != '\n');
    }
}

} // verus!
