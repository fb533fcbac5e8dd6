use control_daemon::chat::{
    log_setup_commands, parse_chat_line, parse_command, plan_chat_command, ChatMessage,
    CommandPlan, LOG_PORT,
};
use control_daemon::commands::{command_router, handler_command, ping, CommandHandler};

fn chat(message: &str) -> ChatMessage {
    ChatMessage { player: "Bob".to_string(), message: message.to_string(), team_only: false }
}

#[test]
fn plain_say_line_has_no_second_quote_pair() {
    let line = "L 10/10/2023 - 12:00:00: \"Player<2><STEAM_1:0:123><CT>\" say \"hello\"";
    assert!(parse_chat_line(line).is_none());
}

#[test]
fn team_line_with_quoted_message() {
    let line = "L 01/01/2024 - 00:00:00: \"Bob<3><[U:1:1]><CT>\" say_team \"\"!ping\"\"";
    let m = parse_chat_line(line).unwrap();
    assert_eq!(m.player, "Bob");
    assert_eq!(m.message, "!ping");
    assert!(m.team_only);
}

#[test]
fn say_line_with_quoted_message() {
    let line = "L 01/01/2024 - 00:00:00: \"Ann<4><[U:1:2]><TERRORIST>\" say \"\"!map de_nuke\"\"";
    let m = parse_chat_line(line).unwrap();
    assert_eq!(m.player, "Ann");
    assert_eq!(m.message, "!map de_nuke");
    assert!(!m.team_only);
}

#[test]
fn chat_line_needs_every_part() {
    assert!(parse_chat_line("").is_none());
    assert!(parse_chat_line("no colon here").is_none());
    assert!(parse_chat_line("x: \"Bob\" say \"\"hi\"\"").is_none());
    assert!(parse_chat_line("x: \"Bob<1>\" shouts \"\"hi\"\"").is_none());
}

#[test]
fn command_words() {
    let (c, a) = parse_command("  !map   de_dust2  ").unwrap();
    assert_eq!(c, "!map");
    assert_eq!(a, vec!["de_dust2".to_string()]);
    assert!(parse_command("hello !map").is_none());
    assert!(parse_command("").is_none());
    let (c, a) = parse_command("!").unwrap();
    assert_eq!(c, "!");
    assert!(a.is_empty());
    let (c, a) = parse_command("!a b\tc").unwrap();
    assert_eq!(c, "!a");
    assert_eq!(a, vec!["b".to_string(), "c".to_string()]);
}

#[test]
fn router_knows_three_commands() {
    let r = command_router();
    assert_eq!(r.len(), 3);
    assert_eq!(r.get("!ping"), Some(&CommandHandler::Ping));
    assert_eq!(r.get("!map"), Some(&CommandHandler::ChangeMap));
    assert_eq!(r.get("!restart"), Some(&CommandHandler::Restart));
    assert_eq!(r.get("!nope"), None);
    assert_eq!(r.get("ping"), None);
}

#[test]
fn plans_for_messages() {
    assert!(matches!(plan_chat_command(&chat("hello")), CommandPlan::NotACommand));
    match plan_chat_command(&chat(" !ping ")) {
        CommandPlan::Run(h, c, args) => {
            assert_eq!(h, CommandHandler::Ping);
            assert_eq!(c, "!ping");
            assert!(args.is_empty());
        },
        _ => panic!("expected a run"),
    }
    match plan_chat_command(&chat("!map de_overpass extra")) {
        CommandPlan::Run(h, c, args) => {
            assert_eq!(h, CommandHandler::ChangeMap);
            assert_eq!(c, "!map");
            assert_eq!(args, vec!["de_overpass".to_string(), "extra".to_string()]);
        },
        _ => panic!("expected a run"),
    }
    match plan_chat_command(&chat("!kick me")) {
        CommandPlan::Unknown(c) => assert_eq!(c, "!kick"),
        _ => panic!("expected an unknown command"),
    }
}

#[test]
fn handlers_build_rcon_commands() {
    let c = chat("!map");
    assert_eq!(ping(&c, vec![]), "say pong");
    assert_eq!(control_daemon::commands::map(&c, vec!["de_nuke".to_string(), "x".to_string()]), "changelevel de_nuke");
    assert_eq!(control_daemon::commands::map(&c, vec![]), "say Usage: !map <mapname>");
}

#[test]
fn log_setup() {
    assert_eq!(LOG_PORT, 27500);
    assert_eq!(
        log_setup_commands(LOG_PORT),
        vec![
            "log on".to_string(),
            "sv_logecho 1".to_string(),
            "sv_logfile 1".to_string(),
            "logaddress_delall".to_string(),
            "logaddress_add 127.0.0.1:27500".to_string(),
        ]
    );
}

#[test]
fn handlers_dispatch_to_their_commands() {
    let c = chat("!x");
    assert_eq!(handler_command(CommandHandler::Ping, &c, vec![]), Some("say pong".to_string()));
    assert_eq!(
        handler_command(CommandHandler::ChangeMap, &c, vec!["de_train".to_string()]),
        Some("changelevel de_train".to_string())
    );
    assert_eq!(
        handler_command(CommandHandler::ChangeMap, &c, vec![]),
        Some("say Usage: !map <mapname>".to_string())
    );
    assert_eq!(handler_command(CommandHandler::Restart, &c, vec!["now".to_string()]), None);
}
