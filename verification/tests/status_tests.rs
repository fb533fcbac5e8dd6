use control_daemon::monitor;
use control_daemon::status::{
    extract_map_name, extract_number_before, parse_server_status, status_player_counts,
    ServerState,
};

const STATUS: &str = "Server:  Running [0.0.0.0:27015]\n\
hostname: Community Server\n\
players  : 3 humans, 2 bots (16 max) (not hibernating)\n\
loaded spawngroup(  1)  : SV:  [1: de_dust2 | main lump | mapload]\n\
spawngroup [ de_mirage ]\n";

#[test]
fn status_reads_running_map_and_players() {
    let s = parse_server_status(STATUS);
    assert_eq!(s.last_status.as_deref(), Some("Running"));
    assert_eq!(s.map.as_deref(), Some("de_mirage"));
    assert_eq!(s.num_of_players, Some(5));
    assert!(s.last_updated.is_none());
}

#[test]
fn status_of_empty_output_knows_nothing() {
    let s = parse_server_status("");
    assert!(s.last_status.is_none());
    assert!(s.map.is_none());
    assert!(s.num_of_players.is_none());
}

#[test]
fn status_needs_both_counts() {
    let s = parse_server_status("players : 4 humans\r\n");
    assert_eq!(s.num_of_players, None);
    assert_eq!(status_player_counts("players : 4 humans\r\n"), (Some(4), None));
}

#[test]
fn status_hostname_must_start_the_trimmed_line() {
    let s = parse_server_status("   hostname: x\r\nthe hostname: y");
    assert_eq!(s.last_status.as_deref(), Some("Running"));
    let s = parse_server_status("the hostname: y");
    assert!(s.last_status.is_none());
}

#[test]
fn status_later_players_line_overrides() {
    let s = parse_server_status("players : 1 humans, 1 bots\nplayers : 7 humans, 0 bots\n");
    assert_eq!(s.num_of_players, Some(7));
    let s = parse_server_status("players : 1 humans, 1 bots\nplayers : x humans, 0 bots\n");
    assert_eq!(s.num_of_players, None);
}

#[test]
fn status_map_kept_when_line_has_none() {
    let s = parse_server_status("spawngroup [de_nuke]\nspawngroup [1: de_dust2 ]\n");
    assert_eq!(s.map.as_deref(), Some("de_nuke"));
}

#[test]
fn number_before_word() {
    let line = "players  : 3 humans, 2 bots (16 max)";
    assert_eq!(extract_number_before(line, "humans"), Some(3));
    assert_eq!(extract_number_before(line, "bots"), Some(2));
    assert_eq!(extract_number_before("abc", "humans"), None);
    assert_eq!(extract_number_before("players : +7 humans", "humans"), Some(7));
    assert_eq!(extract_number_before("players : -7 humans", "humans"), None);
    assert_eq!(extract_number_before("x 4294967295 humans", "humans"), Some(u32::MAX));
    assert_eq!(extract_number_before("x 4294967296 humans", "humans"), None);
    assert_eq!(extract_number_before("5 humans", ""), None);
    assert_eq!(extract_number_before("12", "humans"), Some(12));
    assert_eq!(extract_number_before("   humans", "humans"), None);
    assert_eq!(extract_number_before("0007\thumans", "humans"), Some(7));
}

#[test]
fn map_name_between_brackets() {
    assert_eq!(extract_map_name("spawngroup [ de_inferno ]").as_deref(), Some("de_inferno"));
    assert_eq!(extract_map_name("a | de_ancient | b").as_deref(), Some("de_ancient"));
    assert_eq!(extract_map_name("[1: de_dust2 | main lump]"), None);
    assert_eq!(extract_map_name("de_vertigo").as_deref(), Some("de_vertigo"));
    assert_eq!(extract_map_name("cs_office"), None);
    assert_eq!(extract_map_name("").as_deref(), None);
    assert_eq!(extract_map_name("x[de_a]de_b").as_deref(), Some("de_a"));
}

#[test]
fn new_states_know_nothing() {
    let s = ServerState::new();
    assert!(s.last_status.is_none() && s.map.is_none() && s.num_of_players.is_none());
    assert!(s.last_updated.is_none());
    let d = ServerState::default();
    assert!(d.last_status.is_none() && d.map.is_none());
    let m = monitor::ServerState::new();
    assert!(!m.is_running);
    assert!(m.current_map.is_none() && m.last_status.is_none() && m.last_updated.is_none());
}

#[test]
fn record_status_keeps_output_and_time() {
    let mut s = ServerState::new();
    let now = std::time::Instant::now();
    s.record_status::<String>(Ok("out".to_string()), now);
    assert_eq!(s.last_status.as_deref(), Some("out"));
    assert_eq!(s.last_updated, Some(now));
    let later = std::time::Instant::now();
    s.record_status(Err("down".to_string()), later);
    assert_eq!(s.last_status.as_deref(), Some("out"));
    assert_eq!(s.last_updated, Some(later));
}

fn same_state(a: &ServerState, b: &ServerState) -> bool {
    a.last_status == b.last_status && a.map == b.map && a.num_of_players == b.num_of_players
}

#[test]
fn quiet_line_changes_nothing_example() {
    for input in [STATUS, "", "players : 2 humans, 1 bots", "spawngroup [de_a]\r", "x\n"] {
        for l in ["", "   ", "map : de_dust2", "version 1.0", "  # hostname later", "bots 3"] {
            let longer = format!("{}\n{}", input, l);
            assert!(same_state(&parse_server_status(input), &parse_server_status(&longer)));
        }
    }
}
