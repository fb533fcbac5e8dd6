//! The chat commands that the daemon answers, and the RCON command that each
//! one sends.
use vstd::prelude::*;
use vstd::hash_map::StringHashMap;

use crate::chat::ChatMessage;

verus! {

/// A chat command's handler.
#[derive(Clone, Copy, Debug, PartialEq, Eq, Structural)]
pub enum CommandHandler {
    Ping,
    ChangeMap,
    Restart,
}

/// The commands that the router knows, by name.
pub open spec fn routes() -> Map<Seq<char>, CommandHandler> {
    map![
        "!ping"@ => CommandHandler::Ping,
        "!map"@ => CommandHandler::ChangeMap,
        "!restart"@ => CommandHandler::Restart,
    ]
}

/// The table from command names (`!ping`, `!map`, `!restart`) to handlers.
pub fn command_router() -> (r: StringHashMap<CommandHandler>)
    ensures
        r@ == routes(),
{
    let mut table: StringHashMap<CommandHandler> = StringHashMap::new();
    table.insert("!ping".to_owned(), CommandHandler::Ping);
    table.insert("!map".to_owned(), CommandHandler::ChangeMap);
    table.insert("!restart".to_owned(), CommandHandler::Restart);
    table
}

/// The RCON command that answers `!ping`.
pub fn ping(_chat: &ChatMessage, _args: Vec<String>) -> (r: String)
    ensures
        r@ == "say pong"@,
{
    "say pong".to_owned()
}

/// The RCON command that answers `!map`: a level change to the first
/// argument, or a usage hint when there is none.
pub fn map(_chat: &ChatMessage, args: Vec<String>) -> (r: String)
    ensures
        r@ == (if args@.len() > 0 {
            "changelevel "@ + args@[0]@
        } else {
            "say Usage: !map <mapname>"@
        }),
{
    if args.len() > 0 {
        let mut command = "changelevel ".to_owned();
        command.append(args[0].as_str());
        command
    } else {
        "say Usage: !map <mapname>".to_owned()
    }
}

/// The RCON command that a handler sends for a chat command with these
/// arguments: `ping`'s for `!ping`, `map`'s for `!map`; the router names
/// `!restart`, but no restart action is defined, so it sends nothing.
pub fn handler_command(handler: CommandHandler, chat: &ChatMessage, args: Vec<String>) -> (r:
    Option<String>)
    ensures
        match handler {
            CommandHandler::Ping => r matches Some(c) && c@ == "say pong"@,
            CommandHandler::ChangeMap => r matches Some(c) && c@ == (if args@.len() > 0 {
                "changelevel "@ + args@[0]@
            } else {
                "say Usage: !map <mapname>"@
            }),
            CommandHandler::Restart => r is None,
        },
{
    match handler {
        CommandHandler::Ping => Some(ping(chat, args)),
        CommandHandler::ChangeMap => Some(map(chat, args)),
        CommandHandler::Restart => None,
    }
}

} // verus!
