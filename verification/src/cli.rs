//! The node's command language: one command per input line.

use crate::text::{join_parts, join_with, parse_u32, parse_u32_spec, split_words, text_eq, words};
use vstd::prelude::*;

verus! {

/// A command of the node's console.
#[derive(Debug, PartialEq, Eq)]
pub enum Command {
    /// `help`: list the commands.
    Help,
    /// `local`: show this node's address.
    Local,
    /// `connect <maddr>`: connect to a peer.
    Connect(String),
    /// `ping <maddr> [count]`: ping a peer `count` times (0 when absent or not a number).
    Ping(String, u32),
    /// `fsub <maddr>`: open a floodsub stream to a peer.
    Fsub(String),
    /// `join <topic>`: subscribe to a topic.
    Join(String),
    /// `leave <topic>`: unsubscribe from a topic.
    Leave(String),
    /// `publish <topic> <msg...>`: publish the rest of the line, words joined by single spaces.
    Publish(String, String),
    /// `topics`: list the subscribed topics.
    Topics,
    /// `fpeers`: list the floodsub peers.
    Fpeers,
    /// `bootmesh`: show the bootstrap node's map of topics to peers.
    Bootmesh,
    /// `peers`: list the connected peers.
    Peers,
    /// `mesh`: show the local map of topics to peers.
    Mesh,
    /// `adv <topic>`: advertise a drand session and lead it.
    Adv(String),
    /// `con <topic>`: join a drand session.
    Con(String),
    /// `commit <topic>`: acknowledge the participants and start the commit phase.
    Commit(String),
    /// `reveal <topic>`: reveal this node's secret.
    Reveal(String),
    /// `reduce <topic>`: reduce the commitments to the beacon.
    Reduce(String),
    /// Any other first word.
    Unknown,
}

/// A command as plain text values.
pub enum CommandSpec {
    /// `help`: list the commands.
    Help,
    /// `local`: show this node's address.
    Local,
    /// `connect <maddr>`: connect to a peer.
    Connect(Seq<char>),
    /// `ping <maddr> [count]`: ping a peer `count` times (0 when absent or not a number).
    Ping(Seq<char>, u32),
    /// `fsub <maddr>`: open a floodsub stream to a peer.
    Fsub(Seq<char>),
    /// `join <topic>`: subscribe to a topic.
    Join(Seq<char>),
    /// `leave <topic>`: unsubscribe from a topic.
    Leave(Seq<char>),
    /// `publish <topic> <msg...>`: publish the rest of the line, words joined by single spaces.
    Publish(Seq<char>, Seq<char>),
    /// `topics`: list the subscribed topics.
    Topics,
    /// `fpeers`: list the floodsub peers.
    Fpeers,
    /// `bootmesh`: show the bootstrap node's map of topics to peers.
    Bootmesh,
    /// `peers`: list the connected peers.
    Peers,
    /// `mesh`: show the local map of topics to peers.
    Mesh,
    /// `adv <topic>`: advertise a drand session and lead it.
    Adv(Seq<char>),
    /// `con <topic>`: join a drand session.
    Con(Seq<char>),
    /// `commit <topic>`: acknowledge the participants and start the commit phase.
    Commit(Seq<char>),
    /// `reveal <topic>`: reveal this node's secret.
    Reveal(Seq<char>),
    /// `reduce <topic>`: reduce the commitments to the beacon.
    Reduce(Seq<char>),
    /// Any other first word.
    Unknown,
}

impl View for Command {
    type V = CommandSpec;

    open spec fn view(&self) -> CommandSpec {
        match self {
            Command::Help => CommandSpec::Help,
            Command::Local => CommandSpec::Local,
            Command::Connect(a) => CommandSpec::Connect(a@),
            Command::Ping(a, n) => CommandSpec::Ping(a@, *n),
            Command::Fsub(a) => CommandSpec::Fsub(a@),
            Command::Join(a) => CommandSpec::Join(a@),
            Command::Leave(a) => CommandSpec::Leave(a@),
            Command::Publish(t, m) => CommandSpec::Publish(t@, m@),
            Command::Topics => CommandSpec::Topics,
            Command::Fpeers => CommandSpec::Fpeers,
            Command::Bootmesh => CommandSpec::Bootmesh,
            Command::Peers => CommandSpec::Peers,
            Command::Mesh => CommandSpec::Mesh,
            Command::Adv(a) => CommandSpec::Adv(a@),
            Command::Con(a) => CommandSpec::Con(a@),
            Command::Commit(a) => CommandSpec::Commit(a@),
            Command::Reveal(a) => CommandSpec::Reveal(a@),
            Command::Reduce(a) => CommandSpec::Reduce(a@),
            Command::Unknown => CommandSpec::Unknown,
        }
    }
}

/// Whether a command word names a command that needs an argument.
pub open spec fn takes_argument(w: Seq<char>) -> bool {
    ||| w == "connect"@
    ||| w == "fsub"@
    ||| w == "join"@
    ||| w == "leave"@
    ||| w == "adv"@
    ||| w == "con"@
    ||| w == "commit"@
    ||| w == "reveal"@
    ||| w == "reduce"@
    ||| w == "ping"@
    ||| w == "publish"@
}

/// Whether the words of a line name a command that needs an argument and
/// give none.
pub open spec fn lacks_argument(ws: Seq<Seq<char>>) -> bool {
    ws.len() == 1 && takes_argument(ws[0])
}

/// Whether a line names a command that needs an argument and gives none.
pub fn missing_argument(line: &str) -> (r: bool)
    ensures
        r == lacks_argument(words(line@)),
{
    let ws = split_words(line);
    if ws.len() != 1 {
        return false;
    }
    let w = ws[0].as_str();
    assert(w@ == words(line@)[0]);
    text_eq(w, "connect") || text_eq(w, "fsub") || text_eq(w, "join") || text_eq(w, "leave") || text_eq(w, "adv") || text_eq(w, "con") || text_eq(w, "commit") || text_eq(w, "reveal") || text_eq(w, "reduce") || text_eq(w, "ping") || text_eq(w, "publish")
}

/// The command that the words of a line make: the first word names it, the
/// following ones are its arguments. A blank line, or a command word whose
/// argument is missing, makes no command.
pub open spec fn command_spec(ws: Seq<Seq<char>>) -> Option<CommandSpec> {
    if ws.len() == 0 {
        None
    } else {
        let cmd = ws[0];
        if cmd == "help"@ {
            Some(CommandSpec::Help)
        } else if cmd == "local"@ {
            Some(CommandSpec::Local)
        } else if cmd == "topics"@ {
            Some(CommandSpec::Topics)
        } else if cmd == "fpeers"@ {
            Some(CommandSpec::Fpeers)
        } else if cmd == "bootmesh"@ {
            Some(CommandSpec::Bootmesh)
        } else if cmd == "peers"@ {
            Some(CommandSpec::Peers)
        } else if cmd == "mesh"@ {
            Some(CommandSpec::Mesh)
        } else if cmd == "connect"@ {
            if ws.len() < 2 {
                None
            } else {
                Some(CommandSpec::Connect(ws[1]))
            }
        } else if cmd == "fsub"@ {
            if ws.len() < 2 {
                None
            } else {
                Some(CommandSpec::Fsub(ws[1]))
            }
        } else if cmd == "join"@ {
            if ws.len() < 2 {
                None
            } else {
                Some(CommandSpec::Join(ws[1]))
            }
        } else if cmd == "leave"@ {
            if ws.len() < 2 {
                None
            } else {
                Some(CommandSpec::Leave(ws[1]))
            }
        } else if cmd == "adv"@ {
            if ws.len() < 2 {
                None
            } else {
                Some(CommandSpec::Adv(ws[1]))
            }
        } else if cmd == "con"@ {
            if ws.len() < 2 {
                None
            } else {
                Some(CommandSpec::Con(ws[1]))
            }
        } else if cmd == "commit"@ {
            if ws.len() < 2 {
                None
            } else {
                Some(CommandSpec::Commit(ws[1]))
            }
        } else if cmd == "reveal"@ {
            if ws.len() < 2 {
                None
            } else {
                Some(CommandSpec::Reveal(ws[1]))
            }
        } else if cmd == "reduce"@ {
            if ws.len() < 2 {
                None
            } else {
                Some(CommandSpec::Reduce(ws[1]))
            }
        } else if cmd == "ping"@ {
            if ws.len() < 2 {
                None
            } else {
                let count = if ws.len() < 3 {
                    0
                } else {
                    match parse_u32_spec(ws[2]) {
                        Some(n) => n,
                        None => 0,
                    }
                };
                Some(CommandSpec::Ping(ws[1], count))
            }
        } else if cmd == "publish"@ {
            if ws.len() < 2 {
                None
            } else {
                Some(CommandSpec::Publish(ws[1], join_with(ws.skip(2), ' ')))
            }
        } else {
            Some(CommandSpec::Unknown)
        }
    }
}

/// Reads the command on a line. The line must hold a command word, and a
/// command that needs an argument must be given one.
pub fn parse_command(line: &str) -> (r: Command)
    requires
        words(line@).len() > 0,
        !lacks_argument(words(line@)),
    ensures
        command_spec(words(line@)) == Some(r@),
{
    let ws = split_words(line);
    let ghost wv = ws.deep_view();
    if ws.len() == 0 {
        return Command::Unknown;
    }
    let cmd = ws[0].as_str();
    assert(cmd@ == wv[0]);
    if text_eq(cmd, "help") {
        Command::Help
    } else if text_eq(cmd, "local") {
        Command::Local
    } else if text_eq(cmd, "topics") {
        Command::Topics
    } else if text_eq(cmd, "fpeers") {
        Command::Fpeers
    } else if text_eq(cmd, "bootmesh") {
        Command::Bootmesh
    } else if text_eq(cmd, "peers") {
        Command::Peers
    } else if text_eq(cmd, "mesh") {
        Command::Mesh
    } else if text_eq(cmd, "connect") {
        if ws.len() < 2 {
            Command::Unknown
        } else {
            Command::Connect(ws[1].clone())
        }
    } else if text_eq(cmd, "fsub") {
        if ws.len() < 2 {
            Command::Unknown
        } else {
            Command::Fsub(ws[1].clone())
        }
    } else if text_eq(cmd, "join") {
        if ws.len() < 2 {
            Command::Unknown
        } else {
            Command::Join(ws[1].clone())
        }
    } else if text_eq(cmd, "leave") {
        if ws.len() < 2 {
            Command::Unknown
        } else {
            Command::Leave(ws[1].clone())
        }
    } else if text_eq(cmd, "adv") {
        if ws.len() < 2 {
            Command::Unknown
        } else {
            Command::Adv(ws[1].clone())
        }
    } else if text_eq(cmd, "con") {
        if ws.len() < 2 {
            Command::Unknown
        } else {
            Command::Con(ws[1].clone())
        }
    } else if text_eq(cmd, "commit") {
        if ws.len() < 2 {
            Command::Unknown
        } else {
            Command::Commit(ws[1].clone())
        }
    } else if text_eq(cmd, "reveal") {
        if ws.len() < 2 {
            Command::Unknown
        } else {
            Command::Reveal(ws[1].clone())
        }
    } else if text_eq(cmd, "reduce") {
        if ws.len() < 2 {
            Command::Unknown
        } else {
            Command::Reduce(ws[1].clone())
        }
    } else if text_eq(cmd, "ping") {
        if ws.len() < 2 {
            Command::Unknown
        } else {
            let count: u32 = if ws.len() < 3 {
                0
            } else {
                match parse_u32(ws[2].as_str()) {
                    Some(n) => n,
                    None => 0,
                }
            };
            Command::Ping(ws[1].clone(), count)
        }
    } else if text_eq(cmd, "publish") {
        if ws.len() < 2 {
            Command::Unknown
        } else {
            let rest = ws.as_slice().split_at(2).1;
            assert(rest@.map_values(|p: String| p@) =~= wv.skip(2));
            let message = join_parts(rest, ' ');
            Command::Publish(ws[1].clone(), message)
        }
    } else {
        Command::Unknown
    }
}

} // verus!
