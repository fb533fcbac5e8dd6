//! The library's text handling agrees with the standard library's on a range
//! of inputs.
use control_daemon::chat::{parse_chat_line, parse_command};
use control_daemon::config::Config;
use control_daemon::status::{extract_map_name, extract_number_before};
use control_daemon::text::lines_of;

const SAMPLES: &[&str] = &[
    "",
    " ",
    "\n",
    "\r\n",
    "a\r",
    "a\rb\r\n\r\nc\n",
    "players  : 3 humans, 2 bots (16 max)",
    "  players: 12 humans,  0 bots ",
    "x 4294967295 humans 4294967296 bots",
    "+5 humans -5 bots",
    "\u{a0}7\u{2003}humans\u{3000}8 bots",
    "spawngroup [ de_inferno ] | de_x",
    "[1: de_dust2 | main lump | mapload]",
    "| de_\u{85} |",
    "L 01/01/2024 - 00:00:00: \"Bob<3><[U:1:1]><CT>\" say_team \"\"!ping\"\"",
    "L 10/10/2023 - 12:00:00: \"Player<2><STEAM_1:0:123><CT>\" say \"hello\"",
    "x: \"a<b\" say \"\" say \"q\"\"",
    "é: \"ü<\" say \"\"ö\"\"",
    "  !map   de_dust2  ",
    "!a\tb\u{2028}c",
    "0",
    "00065535",
    "65536",
    "+",
    "++1",
];

fn std_number_before(line: &str, word: &str) -> Option<u32> {
    line.split(word)
        .next()
        .and_then(|s| s.split_whitespace().last())
        .and_then(|n| n.parse::<u32>().ok())
}

fn std_map_name(line: &str) -> Option<String> {
    line.split(|c| c == '[' || c == ']' || c == '|')
        .find(|s| s.trim().starts_with("de_"))
        .map(|s| s.trim().to_string())
}

fn std_chat(line: &str) -> Option<(String, String, bool)> {
    let team_only = line.contains("\" say_team \"");
    let needle = if team_only { "\" say_team \"" } else { "\" say \"" };
    let colon = line.find(": \"")?;
    let after = &line[(colon + 3)..];
    let lt = after.find('<')?;
    let player = after[..lt].to_string();
    let say_pos = line.find(needle)?;
    let after_say = &line[say_pos + needle.len()..];
    let first_quote = after_say.find('"')?;
    let rest = &after_say[(first_quote + 1)..];
    let end_quote = rest.find('"')?;
    Some((player, rest[..end_quote].to_string(), team_only))
}

fn std_command(msg: &str) -> Option<(String, Vec<String>)> {
    let msg = msg.trim();
    if !msg.starts_with('!') {
        return None;
    }
    let mut parts = msg.split_whitespace();
    let command = parts.next().unwrap_or("").to_string();
    Some((command, parts.map(|s| s.to_string()).collect()))
}

#[test]
fn lines_agree() {
    for s in SAMPLES {
        let expected: Vec<String> = s.lines().map(|l| l.to_string()).collect();
        assert_eq!(lines_of(s), expected, "{:?}", s);
    }
}

#[test]
fn numbers_agree() {
    for s in SAMPLES {
        for w in ["humans", "bots", "", " ", "de_"] {
            assert_eq!(extract_number_before(s, w), std_number_before(s, w), "{:?} {:?}", s, w);
        }
    }
}

#[test]
fn map_names_agree() {
    for s in SAMPLES {
        assert_eq!(extract_map_name(s), std_map_name(s), "{:?}", s);
    }
}

#[test]
fn chat_lines_agree() {
    for s in SAMPLES {
        let got = parse_chat_line(s).map(|m| (m.player, m.message, m.team_only));
        assert_eq!(got, std_chat(s), "{:?}", s);
    }
}

#[test]
fn commands_agree() {
    for s in SAMPLES {
        assert_eq!(parse_command(s), std_command(s), "{:?}", s);
    }
}

#[test]
fn ports_agree() {
    for s in SAMPLES {
        let got = Config::from_vars(None, Some(s.to_string()), Some("pw".to_string()))
            .ok()
            .map(|c| c.rcon_port);
        assert_eq!(got, s.parse::<u16>().ok(), "{:?}", s);
    }
}
