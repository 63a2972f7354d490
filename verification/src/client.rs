//! The client's command line, once parsed, and what it asks for.

use vstd::prelude::*;

verus! {

/// The client's command line.
#[derive(Debug)]
pub struct Cli {
    /// Describe what would be done without doing it.
    pub noaction: bool,
    /// Produce verbose output as the process runs.
    pub verbose: bool,
    pub command: Option<Command>,
}

/// What the client is asked to do.
#[derive(Debug)]
pub enum Command {
    /// Print out the usage information.
    Help,
    /// List all hosts that can be managed.
    List { json: bool, csv: bool },
    /// Scan the network for hosts both managed and unmanaged.
    Scan { json: bool, csv: bool },
    /// Request a status report from the hosts named, or from all hosts if
    /// none is named.
    Check { json: bool, csv: bool, hosts: Vec<String> },
}

/// The form in which results are written out.
#[derive(Clone, Copy, Debug, PartialEq, Eq, Structural)]
pub enum OutputFormat {
    Json,
    Csv,
    Table,
}

/// One of the three things the engine does.
#[derive(Clone, Copy, Debug, PartialEq, Eq, Structural)]
pub enum Operation {
    List,
    Scan,
    Check,
}

/// What a command line comes to.
#[derive(Clone, Copy, Debug, PartialEq, Eq, Structural)]
pub enum Plan {
    /// No command was given.
    Nothing,
    /// Show the usage information.
    Usage,
    /// Say what the operation would do, and do nothing.
    Describe { operation: Operation },
    /// Run the operation and write its result in the given form.
    Run { operation: Operation, format: OutputFormat },
}

/// The form that the two format flags ask for: JSON where it is asked for,
/// else CSV where that is asked for, else a table.
pub open spec fn format_of(json: bool, csv: bool) -> OutputFormat {
    if json {
        OutputFormat::Json
    } else if csv {
        OutputFormat::Csv
    } else {
        OutputFormat::Table
    }
}

impl OutputFormat {
    /// The form that the two format flags ask for.
    pub fn select(json: bool, csv: bool) -> (format: OutputFormat)
        ensures
            format == format_of(json, csv),
    {
        if json {
            OutputFormat::Json
        } else if csv {
            OutputFormat::Csv
        } else {
            OutputFormat::Table
        }
    }
}

impl Command {
    /// The operation that the command asks for; `Help` asks for none.
    pub open spec fn operation(&self) -> Option<Operation> {
        match self {
            Command::Help => None,
            Command::List { .. } => Some(Operation::List),
            Command::Scan { .. } => Some(Operation::Scan),
            Command::Check { .. } => Some(Operation::Check),
        }
    }

    /// The form that the command's flags ask for.
    pub open spec fn format(&self) -> OutputFormat {
        match self {
            Command::Help => OutputFormat::Table,
            Command::List { json, csv } => format_of(*json, *csv),
            Command::Scan { json, csv } => format_of(*json, *csv),
            Command::Check { json, csv, .. } => format_of(*json, *csv),
        }
    }
}

impl Cli {
    /// What the command line comes to.
    pub open spec fn plan_of(&self) -> Plan {
        match self.command {
            None => Plan::Nothing,
            Some(command) => match command.operation() {
                None => Plan::Usage,
                Some(operation) => if self.noaction {
                    Plan::Describe { operation }
                } else {
                    Plan::Run { operation, format: command.format() }
                },
            },
        }
    }

    /// Decides what the command line comes to. With `noaction` an
    /// operation is described and not run.
    pub fn plan(&self) -> (plan: Plan)
        ensures
            plan == self.plan_of(),
    {
        match &self.command {
            None => Plan::Nothing,
            Some(Command::Help) => Plan::Usage,
            Some(Command::List { json, csv }) => self.planned(
                Operation::List,
                OutputFormat::select(*json, *csv),
            ),
            Some(Command::Scan { json, csv }) => self.planned(
                Operation::Scan,
                OutputFormat::select(*json, *csv),
            ),
            Some(Command::Check { json, csv, .. }) => self.planned(
                Operation::Check,
                OutputFormat::select(*json, *csv),
            ),
        }
    }

    /// The plan for an operation: to describe it or to run it.
    fn planned(&self, operation: Operation, format: OutputFormat) -> (plan: Plan)
        ensures
            plan == if self.noaction {
                Plan::Describe { operation }
            } else {
                Plan::Run { operation, format }
            },
    {
        if self.noaction {
            Plan::Describe { operation }
        } else {
            Plan::Run { operation, format }
        }
    }
}

} // verus!
