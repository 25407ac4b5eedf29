use vstd::prelude::*;
use vstd::string::StringExecFns;

verus! {

/// The optional fields a configuration file may provide. A field that is
/// `None` falls back to the compiled-in default; a missing or unreadable
/// file is modelled by every field being `None`.
pub struct FileConfig {
    pub docs_dir: Option<String>,
    pub format: Option<String>,
    pub extensions: Option<Vec<String>>,
    pub allow: Option<Vec<String>>,
    pub deny: Option<Vec<String>>,
    pub depth: Option<usize>,
}

/// The immutable settings one invocation runs under.
pub struct Config {
    /// Root directory to scan, as a `/`-separated path.
    pub docs_dir: String,
    /// strftime-style pattern used to render and to recognize timestamps.
    pub format: String,
    /// File extensions eligible for renaming, without the leading dot.
    pub extensions: Vec<String>,
    /// Glob patterns naming the first-level subdirectories that may be scanned.
    pub allow: Vec<String>,
    /// Glob patterns naming subdirectories that must not be scanned.
    pub deny: Vec<String>,
    /// Maximum subdirectory depth below the root that is scanned.
    pub depth: usize,
}

/// The mathematical content of a `Config`.
pub struct ConfigV {
    pub docs_dir: Seq<char>,
    pub format: Seq<char>,
    pub extensions: Seq<Seq<char>>,
    pub allow: Seq<Seq<char>>,
    pub deny: Seq<Seq<char>>,
    pub depth: nat,
}

impl View for Config {
    type V = ConfigV;

    open spec fn view(&self) -> ConfigV {
        ConfigV {
            docs_dir: self.docs_dir@,
            format: self.format@,
            extensions: self.extensions.deep_view(),
            allow: self.allow.deep_view(),
            deny: self.deny.deep_view(),
            depth: self.depth as nat,
        }
    }
}

impl Config {
    /// Merges the compiled-in defaults, the fields found in a configuration
    /// file, and the command-line override of the docs directory into the
    /// settings for one invocation, with precedence: command line over file
    /// over defaults.
    pub fn resolve(file: FileConfig, cli_dir: Option<String>) -> (r: Config)
        ensures
            r.docs_dir@ == (match cli_dir {
                Some(d) => d@,
                None => match file.docs_dir {
                    Some(d) => d@,
                    None => "docs"@,
                },
            }),
            r.format@ == (match file.format {
                Some(f) => f@,
                None => "%Y-%m-%d-%H-%M-%S"@,
            }),
            file.extensions is Some ==> r.extensions == file.extensions->0,
            file.extensions is None ==> r.extensions@.len() == 1 && r.extensions@[0]@ == "md"@,
            file.allow is Some ==> r.allow == file.allow->0,
            file.allow is None ==> r.allow@.len() == 0,
            file.deny is Some ==> r.deny == file.deny->0,
            file.deny is None ==> r.deny@.len() == 0,
            r.depth == (match file.depth {
                Some(d) => d,
                None => 1usize,
            }),
    {
        let docs_dir = match cli_dir {
            Some(d) => d,
            None => match file.docs_dir {
                Some(d) => d,
                None => String::from_str("docs"),
            },
        };
        let format = match file.format {
            Some(f) => f,
            None => String::from_str("%Y-%m-%d-%H-%M-%S"),
        };
        let extensions = match file.extensions {
            Some(e) => e,
            None => {
                let mut e: Vec<String> = Vec::new();
                e.push(String::from_str("md"));
                e
            },
        };
        let allow = match file.allow {
            Some(a) => a,
            None => Vec::new(),
        };
        let deny = match file.deny {
            Some(d) => d,
            None => Vec::new(),
        };
        let depth = match file.depth {
            Some(d) => d,
            None => 1,
        };
        Config { docs_dir, format, extensions, allow, deny, depth }
    }
}

} // verus!
