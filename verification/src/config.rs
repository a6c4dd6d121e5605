//! The command line as the program understands it.

use vstd::prelude::*;
use vstd::string::StringExecFns;

verus! {

/// The arguments of one invocation.
pub struct Config {
    /// The verb: what is to be done.
    pub query: String,
    /// The verb's argument: a host to add, or the minutes of a block.
    pub name: String,
    /// The directory that holds the deny list; empty where the system
    /// names none.
    pub config_path: String,
}

/// What an invocation asks for.
#[derive(Debug, Clone, Copy, PartialEq, Eq, Structural)]
pub enum Command {
    /// Add a host to the deny list.
    Add,
    /// Start a block.
    Start,
    /// Lift the block.
    Stop,
    /// Any other verb.
    Unknown,
}

/// The command that the verb `query` stands for.
pub open spec fn command_of(query: Seq<char>) -> Command {
    if query == "add"@ {
        Command::Add
    } else if query == "start"@ {
        Command::Start
    } else if query == "stop"@ {
        Command::Stop
    } else {
        Command::Unknown
    }
}

/// Wraps `directories::ProjectDirs::from` and `ProjectDirs::config_dir`:
/// the configuration directory that the system gives the project, as text.
/// It depends on the user's environment, so nothing is claimed of it.
#[verifier::external_body]
fn project_config_dir(qualifier: &str, organization: &str, application: &str) -> Option<String> {
    match directories::ProjectDirs::from(qualifier, organization, application) {
        Some(dirs) => Some(format!("{}", dirs.config_dir().display())),
        None => None,
    }
}

impl Config {
    /// Reads the arguments, given the configuration directory `dir` that
    /// the system names. The verb is the second argument and its argument
    /// the third; with fewer than three there is no configuration.
    pub fn with_config_dir(args: &[String], dir: Option<String>) -> (result: Result<
        Config,
        &'static str,
    >)
        ensures
            result is Err <==> args@.len() < 3,
            result is Err ==> result->Err_0@ == "not enough arguments"@,
            result is Ok ==> {
                &&& result->Ok_0.query == args@[1]
                &&& result->Ok_0.name == args@[2]
                &&& result->Ok_0.config_path@ == match dir {
                    Some(d) => d@,
                    None => Seq::<char>::empty(),
                }
            },
    {
        if args.len() < 3 {
            return Err("not enough arguments");
        }
        let query = args[1].clone();
        let name = args[2].clone();
        let config_path = match dir {
            Some(d) => d,
            None => String::new(),
        };
        Ok(Config { query, name, config_path })
    }

    /// Reads the arguments and asks the system for the configuration
    /// directory.
    pub fn new(args: &[String]) -> (result: Result<Config, &'static str>)
        ensures
            result is Err <==> args@.len() < 3,
            result is Err ==> result->Err_0@ == "not enough arguments"@,
            result is Ok ==> result->Ok_0.query == args@[1] && result->Ok_0.name == args@[2],
    {
        let dir = project_config_dir("com", "andersravn", "blocker");
        Config::with_config_dir(args, dir)
    }

    /// The configuration as text: the verb and its argument.
    pub fn describe(&self) -> (result: String)
        ensures
            result@ == "(query: "@ + self.query@ + ", name: "@ + self.name@ + ")"@,
    {
        let mut result = String::new();
        result.append("(query: ");
        result.append(self.query.as_str());
        result.append(", name: ");
        result.append(self.name.as_str());
        result.append(")");
        assert(result@ =~= "(query: "@ + self.query@ + ", name: "@ + self.name@ + ")"@);
        result
    }
}

/// Tells which command the configuration asks for.
pub fn run(config: &Config) -> (command: Command)
    ensures
        command == command_of(config.query@),
{
    if config.query == "add".to_owned() {
        Command::Add
    } else if config.query == "start".to_owned() {
        Command::Start
    } else if config.query == "stop".to_owned() {
        Command::Stop
    } else {
        Command::Unknown
    }
}

} // verus!
