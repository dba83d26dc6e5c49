//! The decisions of `init`, the command that lays out a new repository. The
//! caller looks at the disk and writes to it; what is to be written, and
//! when nothing may be, is decided here.

use vstd::prelude::*;
use vstd::string::StringExecFns;

verus! {

/// The arguments of `init`.
#[derive(Clone, Copy, Debug, PartialEq, Eq, Structural)]
pub struct InitArgs {
    /// Whether to lay the repository out in the current directory itself,
    /// without a working tree around it.
    pub bare: bool,
}

/// Why `init` refuses to run.
#[derive(Clone, Copy, Debug, PartialEq, Eq, Structural)]
pub enum InitError {
    /// The directory holds a repository already.
    AlreadyInitialized,
}

/// The text of each of a list of strings.
pub open spec fn texts(list: Seq<String>) -> Seq<Seq<char>> {
    Seq::new(list.len(), |k: int| list[k]@)
}

/// The text of each of a list of pairs of string literals.
pub open spec fn pair_texts(list: Seq<(&'static str, &'static str)>) -> Seq<
    (Seq<char>, Seq<char>),
> {
    Seq::new(list.len(), |k: int| (list[k].0@, list[k].1@))
}

impl InitError {
    /// The message that goes with the error.
    pub fn message(&self) -> (text: &'static str)
        ensures
            text@ == "Already initialized"@,
    {
        "Already initialized"
    }
}

/// Tells whether the current directory holds a repository already, from
/// whether `.libra/description` exists in it and whether `description`
/// does.
pub fn is_reinit(head_exists: bool, bare_head_exists: bool) -> (again: bool)
    ensures
        again == (head_exists || bare_head_exists),
{
    head_exists || bare_head_exists
}

/// The name, within the current directory, of the directory that holds the
/// repository: `.libra`, or `None` for the current directory itself where
/// the repository is bare.
pub fn root_dir(args: &InitArgs) -> (name: Option<&'static str>)
    ensures
        match name {
            None => args.bare,
            Some(text) => !args.bare && text@ == ".libra"@,
        },
{
    if args.bare {
        None
    } else {
        Some(".libra")
    }
}

/// Decides whether `init` may go ahead, and if so where the repository
/// goes. It may not where either description file exists, whatever the
/// arguments are.
pub fn init(args: &InitArgs, head_exists: bool, bare_head_exists: bool) -> (go: Result<
    Option<&'static str>,
    InitError,
>)
    ensures
        match go {
            Err(error) => (head_exists || bare_head_exists) && error
                == InitError::AlreadyInitialized,
            Ok(None) => !head_exists && !bare_head_exists && args.bare,
            Ok(Some(text)) => !head_exists && !bare_head_exists && !args.bare && text@
                == ".libra"@,
        },
{
    if is_reinit(head_exists, bare_head_exists) {
        Err(InitError::AlreadyInitialized)
    } else {
        Ok(root_dir(args))
    }
}

/// The directories that `init` creates below the root of the repository.
pub fn repository_dirs() -> (dirs: Vec<String>)
    ensures
        texts(dirs@) == seq!["objects/pack"@, "objects/info"@, "info"@],
{
    let mut dirs: Vec<String> = Vec::new();
    dirs.push(String::from_str("objects/pack"));
    dirs.push(String::from_str("objects/info"));
    dirs.push(String::from_str("info"));
    proof {
        assert(texts(dirs@) =~= seq!["objects/pack"@, "objects/info"@, "info"@]);
    }
    dirs
}

/// The entries that `init` writes into the `core` section of the
/// configuration, as pairs of key and value. On Windows there are no file
/// modes and no symbolic links, and names do not differ by case.
pub fn init_config(windows: bool) -> (entries: Vec<(&'static str, &'static str)>)
    ensures
        !windows ==> pair_texts(entries@) == seq![
            ("repositoryformatversion"@, "0"@),
            ("filemode"@, "true"@),
            ("bare"@, "false"@),
            ("logallrefupdates"@, "true"@),
        ],
        windows ==> pair_texts(entries@) == seq![
            ("repositoryformatversion"@, "0"@),
            ("filemode"@, "false"@),
            ("bare"@, "false"@),
            ("logallrefupdates"@, "true"@),
            ("symlinks"@, "false"@),
            ("ignorecase"@, "true"@),
        ],
{
    let mut entries: Vec<(&'static str, &'static str)> = Vec::new();
    entries.push(("repositoryformatversion", "0"));
    if windows {
        entries.push(("filemode", "false"));
    } else {
        entries.push(("filemode", "true"));
    }
    entries.push(("bare", "false"));
    entries.push(("logallrefupdates", "true"));
    if windows {
        entries.push(("symlinks", "false"));
        entries.push(("ignorecase", "true"));
        proof {
            assert(pair_texts(entries@) =~= seq![
                ("repositoryformatversion"@, "0"@),
                ("filemode"@, "false"@),
                ("bare"@, "false"@),
                ("logallrefupdates"@, "true"@),
                ("symlinks"@, "false"@),
                ("ignorecase"@, "true"@),
            ]);
        }
    } else {
        proof {
            assert(pair_texts(entries@) =~= seq![
                ("repositoryformatversion"@, "0"@),
                ("filemode"@, "true"@),
                ("bare"@, "false"@),
                ("logallrefupdates"@, "true"@),
            ]);
        }
    }
    entries
}

/// The command that hides the directory `dir`, as program and arguments:
/// `attrib +H dir` on Windows; `None` elsewhere, where a name that starts
/// with a dot is hidden as it is.
pub fn set_dir_hidden(dir: &str, windows: bool) -> (command: Option<Vec<String>>)
    ensures
        match command {
            None => !windows,
            Some(words) => windows && texts(words@) == seq!["attrib"@, "+H"@, dir@],
        },
{
    if windows {
        let mut words: Vec<String> = Vec::new();
        words.push(String::from_str("attrib"));
        words.push(String::from_str("+H"));
        words.push(String::from_str(dir));
        proof {
            assert(texts(words@) =~= seq!["attrib"@, "+H"@, dir@]);
        }
        Some(words)
    } else {
        None
    }
}

} // verus!
