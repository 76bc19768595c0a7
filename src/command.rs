use vstd::prelude::*;
use vstd::string::StringExecFns;

verus! {

/// A request answered by a pong carrying the same text; replies are matched by order.
#[derive(Clone, Debug)]
pub struct Ping(pub String);

/// A request for the info list of a name, answered under the request's id.
#[derive(Clone, Debug)]
pub struct InfoList(pub String, pub String);

/// A request sent to the relay.
#[derive(Clone, Debug)]
pub enum Command {
    Ping(Ping),
    InfoList(InfoList),
}

/// The line that sends a command.
pub open spec fn command_line(c: Command) -> Seq<char> {
    match c {
        Command::Ping(Ping(text)) => "ping "@ + text@ + "\n"@,
        Command::InfoList(InfoList(id, name)) => "("@ + id@ + ") infolist "@ + name@ + "\n"@,
    }
}

impl Command {
    /// The line that sends this command, newline included.
    pub fn to_line(&self) -> (r: String)
        ensures
            r@ == command_line(*self),
    {
        match self {
            Command::Ping(Ping(text)) => {
                let mut s = String::from_str("ping ");
                s.append(text.as_str());
                s.append("\n");
                s
            },
            Command::InfoList(InfoList(id, name)) => {
                let mut s = String::from_str("(");
                s.append(id.as_str());
                s.append(") infolist ");
                s.append(name.as_str());
                s.append("\n");
                s
            },
        }
    }
}

} // verus!
