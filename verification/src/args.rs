//! The command line: a configuration file and options, or a subcommand.
use vstd::prelude::*;

verus! {

#[derive(Debug)]
pub struct Args {
    pub command: Option<Commands>,
    pub config_file: Option<String>,
    pub output_file: Option<String>,
    pub scanner_name: Option<String>,
    pub template_file: Option<String>,
    pub compress: bool,
    pub parallel_minimize: bool,
    pub verbose: u8,
    pub test_input: Option<String>,
    pub dump_dfa: Option<String>,
    pub meow: bool,
}

#[derive(Debug)]
pub enum Commands {
    Generate { config_file: Option<String> },
    Test { config_file: Option<String>, input: String },
    DumpDfa { config_file: Option<String>, output: Option<String> },
    Validate { config_file: Option<String> },
}

/// The first of two optional values that is present.
pub open spec fn first_some<T>(a: Option<T>, b: Option<T>) -> Option<T> {
    match a {
        Some(x) => Some(x),
        None => b,
    }
}

/// The configuration file: a subcommand's own, else the one given before
/// it.
pub open spec fn config_file_of(args: Args) -> Option<String> {
    match args.command {
        Some(Commands::Generate { config_file }) => first_some(config_file, args.config_file),
        Some(Commands::Test { config_file, .. }) => first_some(config_file, args.config_file),
        Some(Commands::DumpDfa { config_file, .. }) => first_some(config_file, args.config_file),
        Some(Commands::Validate { config_file }) => first_some(config_file, args.config_file),
        None => args.config_file,
    }
}

fn first_ref<'a>(a: &'a Option<String>, b: &'a Option<String>) -> (r: Option<&'a String>)
    ensures
        match first_some(*a, *b) {
            Some(x) => r == Some(&x),
            None => r is None,
        },
{
    match a {
        Some(x) => Some(x),
        None => match b {
            Some(y) => Some(y),
            None => None,
        },
    }
}

impl Args {
    pub fn get_config_file(&self) -> (r: Option<&String>)
        ensures
            match config_file_of(*self) {
                Some(x) => r == Some(&x),
                None => r is None,
            },
    {
        match &self.command {
            Some(Commands::Generate { config_file }) => first_ref(config_file, &self.config_file),
            Some(Commands::Test { config_file, .. }) => first_ref(config_file, &self.config_file),
            Some(Commands::DumpDfa { config_file, .. }) => first_ref(config_file, &self.config_file),
            Some(Commands::Validate { config_file }) => first_ref(config_file, &self.config_file),
            None => match &self.config_file {
                Some(x) => Some(x),
                None => None,
            },
        }
    }

    /// Whether the `test` subcommand or a test input was given.
    pub fn is_test_mode(&self) -> (b: bool)
        ensures
            b == (self.command matches Some(Commands::Test { .. }) || self.test_input is Some),
    {
        match &self.command {
            Some(Commands::Test { .. }) => true,
            _ => self.test_input.is_some(),
        }
    }

    /// The input of the `test` subcommand, else the test input option.
    pub fn get_test_input(&self) -> (r: Option<&str>)
        ensures
            match self.command {
                Some(Commands::Test { input, .. }) => r is Some && r->0@ == input@,
                _ => match self.test_input {
                    Some(t) => r is Some && r->0@ == t@,
                    None => r is None,
                },
            },
    {
        match &self.command {
            Some(Commands::Test { input, .. }) => Some(input.as_str()),
            _ => match &self.test_input {
                Some(t) => Some(t.as_str()),
                None => None,
            },
        }
    }

    pub fn is_dump_dfa(&self) -> (b: bool)
        ensures
            b == self.command matches Some(Commands::DumpDfa { .. }),
    {
        match &self.command {
            Some(Commands::DumpDfa { .. }) => true,
            _ => false,
        }
    }

    pub fn is_validate(&self) -> (b: bool)
        ensures
            b == self.command matches Some(Commands::Validate { .. }),
    {
        match &self.command {
            Some(Commands::Validate { .. }) => true,
            _ => false,
        }
    }

    /// The output file of the `dump-dfa` subcommand.
    pub fn get_dump_dfa_output(&self) -> (r: Option<&String>)
        ensures
            match self.command {
                Some(Commands::DumpDfa { output: Some(o), .. }) => r == Some(&o),
                _ => r is None,
            },
    {
        match &self.command {
            Some(Commands::DumpDfa { output, .. }) => match output {
                Some(o) => Some(o),
                None => None,
            },
            _ => None,
        }
    }
}

} // verus!
