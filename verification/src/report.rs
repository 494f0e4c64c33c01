//! Decisions the command line makes around lexing: which definitions are in
//! force, whether an output file can be named, and how counts read.
use vstd::prelude::*;
use crate::rules::LanguageConfig;

verus! {

/// The definitions in force when `extra` is loaded after `base`: all of
/// `base`'s, then all of `extra`'s.
pub fn merge_configs(base: LanguageConfig, extra: LanguageConfig) -> (merged: LanguageConfig)
    ensures
        merged.language@ == base.language@ + extra.language@,
{
    let mut language = base.language;
    let mut more = extra.language;
    language.append(&mut more);
    LanguageConfig { language }
}

/// Why a command line is refused.
#[derive(Debug, Clone, Copy, PartialEq, Eq, Structural)]
pub enum UsageError {
    /// An output file was named together with more than one input file.
    OutputNeedsSingleInput,
}

impl UsageError {
    /// The message shown for the error.
    pub fn message(&self) -> (s: &'static str)
        ensures
            s@ == "--output can only be used with a single input file"@,
    {
        match self {
            UsageError::OutputNeedsSingleInput => "--output can only be used with a single input file",
        }
    }
}

/// An output file can only be named when there is a single input file.
pub fn check_output_target(has_output: bool, input_count: usize) -> (r: Result<(), UsageError>)
    ensures
        r is Err <==> has_output && input_count > 1,
        r matches Err(e) ==> e == UsageError::OutputNeedsSingleInput,
{
    if has_output && input_count > 1 {
        Err(UsageError::OutputNeedsSingleInput)
    } else {
        Ok(())
    }
}

/// The plural ending for a count: none for one, `s` otherwise.
pub fn plural_suffix(n: usize) -> (s: &'static str)
    ensures
        n == 1 ==> s@ == Seq::<char>::empty(),
        n != 1 ==> s@ == seq!['s'],
{
    if n == 1 {
        proof {
            reveal_strlit("");
        }
        ""
    } else {
        proof {
            reveal_strlit("s");
        }
        "s"
    }
}

} // verus!
