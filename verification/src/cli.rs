//! The command line: its commands and their arguments, as parsed.

use vstd::prelude::*;

verus! {

/// The parsed command line.
#[derive(Debug)]
pub struct Cli {
    pub config: Option<String>,
    pub command: Commands,
}

/// The subcommands.
#[derive(Debug)]
pub enum Commands {
    Init(InitArgs),
    Doctor(DoctorArgs),
    Ls(LsArgs),
    Cat(CatArgs),
    Search(SearchArgs),
    New(NewArgs),
    Mkdir(MkdirArgs),
    Delete(DeleteArgs),
    Move(MoveArgs),
    Copy(CopyArgs),
    Proppatch(ProppatchArgs),
    Lock(LockArgs),
    Unlock(UnlockArgs),
}

#[derive(Debug)]
pub struct InitArgs {
    pub url: Option<String>,
    pub username: Option<String>,
    pub password_env: Option<String>,
    pub write_dir: Option<String>,
    pub force: bool,
}

#[derive(Debug)]
pub struct DoctorArgs {
    pub no_write_test: bool,
    pub json: bool,
}

#[derive(Debug)]
pub struct LsArgs {
    pub path: Option<String>,
    pub json: bool,
}

/// Which part of a note `cat` prints.
#[derive(Debug, Clone, Copy, PartialEq, Eq, Structural)]
pub enum CatMode {
    Full,
    Frontmatter,
    Body,
}

#[derive(Debug)]
pub struct CatArgs {
    pub path: String,
    pub frontmatter: bool,
    pub body: bool,
}

impl CatArgs {
    /// `--frontmatter` wins over `--body`; neither prints the whole note.
    pub fn mode(&self) -> (r: CatMode)
        ensures
            r == (if self.frontmatter {
                CatMode::Frontmatter
            } else if self.body {
                CatMode::Body
            } else {
                CatMode::Full
            }),
    {
        if self.frontmatter {
            CatMode::Frontmatter
        } else if self.body {
            CatMode::Body
        } else {
            CatMode::Full
        }
    }
}

#[derive(Debug)]
pub struct SearchArgs {
    pub query: String,
    pub dir: Option<String>,
    pub case_sensitive: bool,
    pub json: bool,
}

#[derive(Debug)]
pub struct NewArgs {
    pub title: String,
    pub body: Option<String>,
    pub tags: Vec<String>,
    pub source: Option<String>,
    pub template: Option<String>,
    pub dir: Option<String>,
    pub unique: bool,
    pub overwrite: bool,
    pub json: bool,
}

#[derive(Debug)]
pub struct MkdirArgs {
    pub path: String,
    pub parents: bool,
    pub json: bool,
}

#[derive(Debug)]
pub struct DeleteArgs {
    pub path: String,
    pub json: bool,
}

#[derive(Debug)]
pub struct MoveArgs {
    pub source: String,
    pub dest: String,
    pub overwrite: bool,
    pub json: bool,
}

#[derive(Debug)]
pub struct CopyArgs {
    pub source: String,
    pub dest: String,
    pub overwrite: bool,
    pub depth: String,
    pub json: bool,
}

#[derive(Debug)]
pub struct ProppatchArgs {
    pub path: String,
    pub xml: Option<String>,
    pub xml_file: Option<String>,
    pub json: bool,
}

#[derive(Debug)]
pub struct LockArgs {
    pub path: String,
    pub scope: String,
    pub owner: Option<String>,
    pub timeout: String,
    pub depth: String,
    pub json: bool,
}

#[derive(Debug)]
pub struct UnlockArgs {
    pub path: String,
    pub token: String,
    pub json: bool,
}

/// Whether the command was asked for JSON output.
pub open spec fn wants_json_spec(c: Commands) -> bool {
    match c {
        Commands::Doctor(a) => a.json,
        Commands::Ls(a) => a.json,
        Commands::Search(a) => a.json,
        Commands::New(a) => a.json,
        Commands::Mkdir(a) => a.json,
        Commands::Delete(a) => a.json,
        Commands::Move(a) => a.json,
        Commands::Copy(a) => a.json,
        Commands::Proppatch(a) => a.json,
        Commands::Lock(a) => a.json,
        Commands::Unlock(a) => a.json,
        Commands::Init(_) | Commands::Cat(_) => false,
    }
}

impl Cli {
    /// Whether errors are to be reported as JSON: the command's `--json`
    /// flag; `init` and `cat` have none.
    pub fn wants_json(&self) -> (r: bool)
        ensures
            r == wants_json_spec(self.command),
    {
        match &self.command {
            Commands::Doctor(args) => args.json,
            Commands::Ls(args) => args.json,
            Commands::Search(args) => args.json,
            Commands::New(args) => args.json,
            Commands::Mkdir(args) => args.json,
            Commands::Delete(args) => args.json,
            Commands::Move(args) => args.json,
            Commands::Copy(args) => args.json,
            Commands::Proppatch(args) => args.json,
            Commands::Lock(args) => args.json,
            Commands::Unlock(args) => args.json,
            Commands::Init(_) | Commands::Cat(_) => false,
        }
    }
}

} // verus!
