//! The command-line options that the library reads.
use vstd::prelude::*;

verus! {

/// The shells for which a completion script can be generated.
#[derive(Debug, Clone, Copy, PartialEq, Eq)]
pub enum CompletionShell {
    Bash,
    Elvish,
    Fish,
    PowerShell,
    Zsh,
}

/// The user directory under which a shell's completion scripts live.
#[derive(Debug, Clone, Copy, PartialEq, Eq)]
pub enum CompletionBase {
    /// The user data directory.
    DataDir,
    /// The user config directory.
    ConfigDir,
}

/// Where a shell looks for completion scripts: the user directory and the
/// path under it.
pub open spec fn completion_location(shell: CompletionShell) -> (CompletionBase, Seq<char>) {
    match shell {
        CompletionShell::Bash => (CompletionBase::DataDir, "bash-completion/completions"@),
        CompletionShell::Elvish => (CompletionBase::ConfigDir, "elvish/lib"@),
        CompletionShell::Fish => (CompletionBase::ConfigDir, "fish/completions"@),
        CompletionShell::PowerShell => (CompletionBase::DataDir, "powershell/Completions"@),
        CompletionShell::Zsh => (CompletionBase::DataDir, "zsh/site-functions"@),
    }
}

/// Where the completion script for `shell` is installed.
pub fn completion_dir(shell: CompletionShell) -> (r: (CompletionBase, &'static str))
    ensures
        (r.0, r.1@) == completion_location(shell),
{
    match shell {
        CompletionShell::Bash => (CompletionBase::DataDir, "bash-completion/completions"),
        CompletionShell::Elvish => (CompletionBase::ConfigDir, "elvish/lib"),
        CompletionShell::Fish => (CompletionBase::ConfigDir, "fish/completions"),
        CompletionShell::PowerShell => (CompletionBase::DataDir, "powershell/Completions"),
        CompletionShell::Zsh => (CompletionBase::DataDir, "zsh/site-functions"),
    }
}

/// The global options given on the command line that override the config
/// file.
#[derive(Debug, Clone)]
pub struct Cli {
    pub backend: Option<String>,
    pub base_url: Option<String>,
    pub rerank_base_url: Option<String>,
    pub rerank_backend: Option<String>,
    pub model: Option<String>,
    pub rerank_model: Option<String>,
    pub rerank: bool,
    pub rerank_top_n: Option<usize>,
    pub concurrent_requests: Option<usize>,
    pub debug_http: bool,
}

} // verus!
