//! What a run is asked to do, made out of the arguments as they were typed.
use vstd::prelude::*;
use crate::error::FortuneError;
use crate::pattern::Pattern;
use crate::seed::is_seed_text;
use crate::seed::parse_u64;
use crate::seed::seed_value;

verus! {

/// The sources to search, the pattern to filter by where there is one, and the
/// seed to pick by where there is one.
#[derive(Debug)]
pub struct Config {
    pub sources: Vec<String>,
    pub pattern: Option<Pattern>,
    pub seed: Option<u64>,
}

/// True where `config` is what the arguments ask for, given the pattern that
/// came of compiling.
pub open spec fn is_config_of(
    config: Config,
    sources: Vec<String>,
    pattern: Option<Pattern>,
    seed: Option<String>,
) -> bool {
    &&& config.sources == sources
    &&& config.pattern == pattern
    &&& match seed {
        None => config.seed is None,
        Some(text) => is_seed_text(text@) && config.seed == Some(seed_value(text@) as u64),
    }
}

/// Puts the arguments together, given what came of compiling the pattern.
///
/// A pattern that did not compile is reported first. Then the seed is read: a
/// seed that is no number is reported, and carries the text as it was typed.
pub fn configure(
    sources: Vec<String>,
    compiled: Option<Result<Pattern, FortuneError>>,
    seed: Option<String>,
) -> (r: Result<Config, FortuneError>)
    ensures
        match compiled {
            Some(Err(e)) => r == Err::<Config, FortuneError>(e),
            Some(Ok(pattern)) => match r {
                Ok(config) => is_config_of(config, sources, Some(pattern), seed),
                Err(e) => seed matches Some(text) && !is_seed_text(text@) && (
                e matches FortuneError::InvalidSeed { value } && value@ == text@),
            },
            None => match r {
                Ok(config) => is_config_of(config, sources, None, seed),
                Err(e) => seed matches Some(text) && !is_seed_text(text@) && (
                e matches FortuneError::InvalidSeed { value } && value@ == text@),
            },
        },
{
    let pattern = match compiled {
        Some(Err(e)) => {
            return Err(e);
        },
        Some(Ok(pattern)) => Some(pattern),
        None => None,
    };
    let seed = match seed {
        None => None,
        Some(text) => match parse_u64(&text) {
            Ok(value) => Some(value),
            Err(e) => {
                return Err(e);
            },
        },
    };
    Ok(Config { sources, pattern, seed })
}

/// Makes the configuration out of the arguments: the sources, the text of the
/// pattern where one was given, whether it is to match letters in either
/// case, and the text of the seed where one was given.
///
/// The pattern is compiled first, and a text that does not compile is
/// reported before the seed is looked at. Without a pattern the outcome rests
/// on the seed alone.
pub fn get_args(
    sources: Vec<String>,
    pattern: Option<String>,
    insensitive: bool,
    seed: Option<String>,
) -> (r: Result<Config, FortuneError>)
    ensures
        match r {
            Ok(config) => {
                &&& config.sources == sources
                &&& match pattern {
                    None => config.pattern is None,
                    Some(text) => config.pattern matches Some(compiled) && compiled.source()
                        == text@ && compiled.insensitive() == insensitive,
                }
                &&& match seed {
                    None => config.seed is None,
                    Some(text) => is_seed_text(text@) && config.seed == Some(
                        seed_value(text@) as u64,
                    ),
                }
            },
            Err(FortuneError::InvalidPattern { pattern: refused }) => pattern matches Some(text)
                && refused@ == text@,
            Err(FortuneError::InvalidSeed { value }) => seed matches Some(text) && value@ == text@
                && !is_seed_text(text@),
            Err(_) => false,
        },
        pattern is None ==> (r is Ok <==> (seed matches Some(text) ==> is_seed_text(text@))),
{
    let compiled = match pattern {
        None => None,
        Some(text) => Some(Pattern::new(text.as_str(), insensitive)),
    };
    configure(sources, compiled, seed)
}

} // verus!
