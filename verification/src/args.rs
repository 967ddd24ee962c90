//! The command line of the `config` front end: a subcommand, then options
//! and at most one resource or filter.

use vstd::prelude::*;
use vstd::string::StringSliceAdditionalSpecFns;
use crate::bytes::{bytes_eq, lower_seq, to_lower};
use crate::model::views;

verus! {

/// The subcommand to run.
#[derive(Debug, Clone, Copy, PartialEq, Eq, Structural)]
pub enum SubCommand {
    /// No subcommand.
    Unspecified,
    List,
    Get,
    /// The subcommand `set`.
    Assign,
    Test,
    FlushCache,
}

/// Why a command line was refused.
#[derive(Debug, Clone, Copy, PartialEq, Eq, Structural)]
pub enum ArgsError {
    /// Nothing follows the program name.
    NoSubcommand,
    /// The first word is no subcommand.
    InvalidSubcommand,
    /// `-h` or `--help` was given: the caller shows the usage.
    HelpRequested,
    /// `flushcache` takes no argument.
    FlushCacheArguments,
    /// `list` takes one filter.
    ManyFilters,
    /// The other subcommands take one resource.
    ManyResources,
}

/// The parsed command line.
#[derive(Debug)]
pub struct Args {
    /// The subcommand to run
    pub subcommand: SubCommand,
    /// The name of the resource to run the subcommand on
    pub resource: String,
    /// The filter to use when listing resources
    pub filter: String,
    /// What was piped in on standard input; typically JSON
    pub stdin: String,
    /// Whether to use the cache or not
    pub no_cache: bool,
}

/// A parsed command line as a mathematical value.
pub struct ArgsModel {
    pub subcommand: SubCommand,
    pub resource: Seq<char>,
    pub filter: Seq<char>,
    pub stdin: Seq<char>,
    pub no_cache: bool,
}

impl View for Args {
    type V = ArgsModel;

    open spec fn view(&self) -> ArgsModel {
        ArgsModel {
            subcommand: self.subcommand,
            resource: self.resource@,
            filter: self.filter@,
            stdin: self.stdin@,
            no_cache: self.no_cache,
        }
    }
}

/// What the words behind the subcommand have set so far.
pub struct OptionsModel {
    pub resource: Seq<char>,
    pub filter: Seq<char>,
    pub no_cache: bool,
}

/// A word as it is compared: its bytes with the ASCII capitals folded.
pub open spec fn folded(word: Seq<char>) -> Seq<u8> {
    lower_seq(vstd::utf8::encode_utf8(word))
}

/// The subcommand that a word names, in any case.
pub open spec fn subcommand_of(word: Seq<char>) -> Option<SubCommand> {
    if folded(word) == "list".spec_bytes() {
        Some(SubCommand::List)
    } else if folded(word) == "get".spec_bytes() {
        Some(SubCommand::Get)
    } else if folded(word) == "set".spec_bytes() {
        Some(SubCommand::Assign)
    } else if folded(word) == "test".spec_bytes() {
        Some(SubCommand::Test)
    } else if folded(word) == "flushcache".spec_bytes() {
        Some(SubCommand::FlushCache)
    } else {
        None
    }
}

/// The options after one more word. `-n` and `--nocache` switch the cache
/// off; any other word is the filter of `list` or the resource of the other
/// subcommands, of which there may be one.
pub open spec fn take_arg(sub: SubCommand, state: OptionsModel, arg: Seq<char>) -> Result<
    OptionsModel,
    ArgsError,
> {
    if folded(arg) == "-h".spec_bytes() || folded(arg) == "--help".spec_bytes() {
        Err(ArgsError::HelpRequested)
    } else if folded(arg) == "-n".spec_bytes() || folded(arg) == "--nocache".spec_bytes() {
        Ok(OptionsModel { resource: state.resource, filter: state.filter, no_cache: true })
    } else if sub == SubCommand::FlushCache {
        Err(ArgsError::FlushCacheArguments)
    } else if sub == SubCommand::List {
        if state.filter.len() != 0 {
            Err(ArgsError::ManyFilters)
        } else {
            Ok(OptionsModel { resource: state.resource, filter: arg, no_cache: state.no_cache })
        }
    } else {
        if state.resource.len() != 0 {
            Err(ArgsError::ManyResources)
        } else {
            Ok(OptionsModel { resource: arg, filter: state.filter, no_cache: state.no_cache })
        }
    }
}

/// The options after the words of `args` from index `i` on.
pub open spec fn take_args(sub: SubCommand, args: Seq<Seq<char>>, i: int, state: OptionsModel)
    -> Result<OptionsModel, ArgsError>
    decreases args.len() - i,
{
    if i < 0 || i >= args.len() {
        Ok(state)
    } else {
        match take_arg(sub, state, args[i]) {
            Err(e) => Err(e),
            Ok(next) => take_args(sub, args, i + 1, next),
        }
    }
}

/// What a command line means. `args[0]` is the program's name, `args[1]`
/// the subcommand. `input` counts only where standard input is no terminal.
pub open spec fn parse_args(args: Seq<Seq<char>>, input: Seq<char>, atty: bool) -> Result<
    ArgsModel,
    ArgsError,
> {
    if args.len() <= 1 {
        Err(ArgsError::NoSubcommand)
    } else {
        match subcommand_of(args[1]) {
            None => Err(ArgsError::InvalidSubcommand),
            Some(sub) => match take_args(
                sub,
                args,
                2,
                OptionsModel { resource: Seq::empty(), filter: Seq::empty(), no_cache: false },
            ) {
                Err(e) => Err(e),
                Ok(state) => Ok(
                    ArgsModel {
                        subcommand: sub,
                        resource: state.resource,
                        filter: state.filter,
                        stdin: if atty {
                            Seq::empty()
                        } else {
                            input
                        },
                        no_cache: state.no_cache,
                    },
                ),
            },
        }
    }
}

fn word_is(folded_word: &Vec<u8>, literal: &str) -> (r: bool)
    ensures
        r == (folded_word@ == literal.spec_bytes()),
{
    bytes_eq(folded_word.as_slice(), literal.as_bytes())
}

fn subcommand_from(word: &str) -> (r: Option<SubCommand>)
    ensures
        r == subcommand_of(word@),
{
    let w = to_lower(word.as_bytes());
    if word_is(&w, "list") {
        Some(SubCommand::List)
    } else if word_is(&w, "get") {
        Some(SubCommand::Get)
    } else if word_is(&w, "set") {
        Some(SubCommand::Assign)
    } else if word_is(&w, "test") {
        Some(SubCommand::Test)
    } else if word_is(&w, "flushcache") {
        Some(SubCommand::FlushCache)
    } else {
        None
    }
}

impl Args {
    /// Parses a command line.
    ///
    /// # Arguments
    ///
    /// * `args` - The command line, the program's name first
    /// * `input` - What standard input holds
    /// * `atty` - Whether standard input is a tty (terminal) or not
    pub fn new(args: Vec<String>, input: String, atty: bool) -> (r: Result<Args, ArgsError>)
        ensures
            match r {
                Ok(a) => parse_args(views(args@), input@, atty) == Ok::<ArgsModel, ArgsError>(a@),
                Err(e) => parse_args(views(args@), input@, atty) == Err::<ArgsModel, ArgsError>(
                    e,
                ),
            },
    {
        if args.len() <= 1 {
            return Err(ArgsError::NoSubcommand);
        }
        assert(views(args@)[1] == args@[1]@);
        let subcommand = match subcommand_from(args[1].as_str()) {
            None => {
                return Err(ArgsError::InvalidSubcommand);
            },
            Some(sub) => sub,
        };
        let mut no_cache = false;
        let mut resource = String::new();
        let mut filter = String::new();
        let ghost start = OptionsModel {
            resource: Seq::empty(),
            filter: Seq::empty(),
            no_cache: false,
        };
        let mut i: usize = 2;
        while i < args.len()
            invariant
                2 <= i <= args@.len(),
                subcommand_of(views(args@)[1]) == Some(subcommand),
                start == (OptionsModel {
                    resource: Seq::empty(),
                    filter: Seq::empty(),
                    no_cache: false,
                }),
                take_args(subcommand, views(args@), 2, start) == take_args(
                    subcommand,
                    views(args@),
                    i as int,
                    OptionsModel { resource: resource@, filter: filter@, no_cache },
                ),
            decreases args@.len() - i,
        {
            let arg = args[i].as_str();
            assert(views(args@)[i as int] == arg@);
            let w = to_lower(arg.as_bytes());
            if word_is(&w, "-h") || word_is(&w, "--help") {
                return Err(ArgsError::HelpRequested);
            } else if word_is(&w, "-n") || word_is(&w, "--nocache") {
                no_cache = true;
            } else if subcommand == SubCommand::FlushCache {
                return Err(ArgsError::FlushCacheArguments);
            } else if subcommand == SubCommand::List {
                if !filter.as_str().is_empty() {
                    return Err(ArgsError::ManyFilters);
                }
                filter = arg.to_owned();
            } else {
                if !resource.as_str().is_empty() {
                    return Err(ArgsError::ManyResources);
                }
                resource = arg.to_owned();
            }
            i += 1;
        }
        let stdin = if atty {
            String::new()
        } else {
            input
        };
        Ok(Args { subcommand, resource, filter, stdin, no_cache })
    }
}

} // verus!
