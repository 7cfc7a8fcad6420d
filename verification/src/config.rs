//! The command line, the saved configuration and how they decide the
//! resource and output directories.

use vstd::prelude::*;

verus! {

/// What the pipeline is asked to do.
pub enum Command {
    /// Saves `value` under the configuration key `key`.
    Config { key: String, value: String },
    /// Builds the assets once.
    Build { input: Option<String>, output: Option<String> },
    /// Builds the assets, then again whenever a resource changes.
    Watch { input: Option<String>, output: Option<String> },
}

impl Default for Command {
    /// Watching, with the directories taken from the configuration.
    fn default() -> (res: Command)
        ensures
            res matches Command::Watch { input: None, output: None },
    {
        Command::Watch { input: None, output: None }
    }
}

/// The command line: an optional command.
pub struct Cli {
    pub command: Option<Command>,
}

impl Cli {
    /// The command given, or watching when none was.
    pub fn into_command(self) -> (res: Command)
        ensures
            self.command matches Some(c) ==> res == c,
            self.command is None ==> res matches Command::Watch { input: None, output: None },
    {
        match self.command {
            Some(c) => c,
            None => Command::default(),
        }
    }
}

/// The saved configuration: default resource and output directories.
pub struct Config {
    pub input: Option<String>,
    pub output: Option<String>,
}

/// A configuration key that does not exist.
pub enum ConfigError {
    UnknownKey(String),
}

/// Why the directories of a build could not be decided.
#[derive(Clone, Copy, Debug, PartialEq, Eq, Structural)]
pub enum BuildError {
    /// No resource directory was given, on the command line or saved.
    MissingInput,
    /// No output directory was given, on the command line or saved.
    MissingOutput,
}

/// The view of an optional string.
pub open spec fn opt_view(o: Option<String>) -> Option<Seq<char>> {
    match o {
        Some(s) => Some(s@),
        None => None,
    }
}

/// `first` if given, else `second`.
pub open spec fn or_spec(first: Option<Seq<char>>, second: Option<Seq<char>>) -> Option<Seq<char>> {
    match first {
        Some(s) => Some(s),
        None => second,
    }
}

impl Config {
    /// A configuration with nothing saved.
    pub fn new() -> (res: Config)
        ensures
            res.input is None,
            res.output is None,
    {
        Config { input: None, output: None }
    }

    /// Sets the key `input` or `output` to `value`; any other key is refused
    /// and changes nothing.
    pub fn set(&mut self, key: &String, value: String) -> (res: Result<(), ConfigError>)
        ensures
            key@ == "input"@ ==> res is Ok && opt_view(final(self).input) == Some(value@)
                && final(self).output == old(self).output,
            key@ == "output"@ ==> res is Ok && opt_view(final(self).output) == Some(value@)
                && final(self).input == old(self).input,
            key@ != "input"@ && key@ != "output"@ ==> (res matches Err(ConfigError::UnknownKey(k))
                && k@ == key@ && *final(self) == *old(self)),
    {
        let input_key = String::from_str("input");
        let output_key = String::from_str("output");
        proof {
            reveal_strlit("input");
            reveal_strlit("output");
            assert("input"@.len() != "output"@.len());
        }
        if *key == input_key {
            self.input = Some(value);
            Ok(())
        } else if *key == output_key {
            self.output = Some(value);
            Ok(())
        } else {
            Err(ConfigError::UnknownKey(key.clone()))
        }
    }
}

/// The resource and output directories of a build, as paths: those given on
/// the command line, else those saved in the configuration `saved`, when it
/// could be read; the resource directory is looked for first.
pub open spec fn resolved(
    input: Option<Seq<char>>,
    output: Option<Seq<char>>,
    saved: Option<(Option<Seq<char>>, Option<Seq<char>>)>,
) -> Result<(Seq<char>, Seq<char>), BuildError> {
    let (saved_in, saved_out) = match saved {
        Some(c) => c,
        None => (None, None),
    };
    match or_spec(input, saved_in) {
        None => Err(BuildError::MissingInput),
        Some(i) => match or_spec(output, saved_out) {
            None => Err(BuildError::MissingOutput),
            Some(o) => Ok((i, o)),
        },
    }
}

/// Directories given on the command line are used whatever is saved, and
/// whether or not a configuration could be read. A build fails for want of
/// a resource directory exactly when none is given or saved, and for want of
/// an output directory exactly when there is a resource directory but no
/// output directory is given or saved. Otherwise each directory is the one
/// given, else the one saved.
pub proof fn lemma_given_dirs_win(
    input: Option<Seq<char>>,
    output: Option<Seq<char>>,
    saved: Option<(Option<Seq<char>>, Option<Seq<char>>)>,
)
    ensures
        input matches Some(i) ==> output matches Some(o) ==> resolved(input, output, saved) == Ok::<
            (Seq<char>, Seq<char>),
            BuildError,
        >((i, o)),
        ({
            let saved_in = match saved {
                Some(c) => c.0,
                None => None,
            };
            let saved_out = match saved {
                Some(c) => c.1,
                None => None,
            };
            &&& resolved(input, output, saved) == Err::<(Seq<char>, Seq<char>), BuildError>(
                BuildError::MissingInput,
            ) <==> input is None && saved_in is None
            &&& resolved(input, output, saved) == Err::<(Seq<char>, Seq<char>), BuildError>(
                BuildError::MissingOutput,
            ) <==> (input is Some || saved_in is Some) && output is None && saved_out is None
            &&& resolved(input, output, saved) matches Ok((ri, ro)) ==> (input matches Some(i) ==> ri
                == i) && (input is None ==> saved_in == Some(ri)) && (output matches Some(o) ==> ro
                == o) && (output is None ==> saved_out == Some(ro))
        }),
{
}

/// The paths that a configuration holds.
pub open spec fn config_view(c: Config) -> (Option<Seq<char>>, Option<Seq<char>>) {
    (opt_view(c.input), opt_view(c.output))
}

/// A resource directory saved with `config input <dir>` is the one a build
/// uses when the command line names none, and a directory given on the
/// command line is used whatever is saved; likewise for the output
/// directory.
pub proof fn lemma_saved_dirs_fill_in(
    c: Config,
    input: Option<Seq<char>>,
    output: Option<Seq<char>>,
)
    ensures
        resolved(input, output, Some(config_view(c))) matches Ok((ri, ro)) ==> Some(ri) == or_spec(
            input,
            opt_view(c.input),
        ) && Some(ro) == or_spec(output, opt_view(c.output)),
        resolved(input, output, Some(config_view(c))) is Ok <==> (or_spec(
            input,
            opt_view(c.input),
        ) is Some && or_spec(output, opt_view(c.output)) is Some),
{
}

/// The resource and output directories of a build: those given on the
/// command line, else those saved in the configuration, when it could be
/// read.
pub fn resolve_dirs(input: Option<String>, output: Option<String>, config: Option<Config>) -> (res:
    Result<(String, String), BuildError>)
    ensures
        match resolved(
            opt_view(input),
            opt_view(output),
            match config {
                Some(c) => Some(config_view(c)),
                None => None,
            },
        ) {
            Ok((i, o)) => res matches Ok((ri, ro)) && ri@ == i && ro@ == o,
            Err(e) => res == Err::<(String, String), BuildError>(e),
        },
{
    let mut input = input;
    let mut output = output;
    if let Some(c) = config {
        if input.is_none() {
            input = c.input;
        }
        if output.is_none() {
            output = c.output;
        }
    }
    match input {
        None => Err(BuildError::MissingInput),
        Some(i) => match output {
            None => Err(BuildError::MissingOutput),
            Some(o) => Ok((i, o)),
        },
    }
}

} // verus!
