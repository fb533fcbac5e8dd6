//! Chat lines from the server's log, and the commands they carry.
use vstd::prelude::*;

use crate::config::{host_port, host_port_text};
use crate::commands::{command_router, routes, CommandHandler};
use crate::text::{
    chars_of, contains, contains_in, find, find_in, is_first_match, is_word, lemma_find_bounds,
    lemma_first_char, lemma_first_match_unique, all_ws, good_gaps, joined, lemma_trim_around,
    lemma_words_spaced, spaced_words,
    lemma_no_match_before_first, lemma_trim, lemma_words, matches_at, next_word, trim, trim_in,
    words,
};

verus! {

/// A chat message read from a log line.
#[derive(Debug)]
pub struct ChatMessage {
    pub player: String,
    pub message: String,
    pub team_only: bool,
}

/// What marks a team chat line.
pub open spec fn say_team_marker() -> Seq<char> {
    "\" say_team \""@
}

/// What marks an all-chat line.
pub open spec fn say_marker() -> Seq<char> {
    "\" say \""@
}

/// The player, the message and the team flag that a log line carries:
/// the player is what follows the first `: "` up to the next `<`; the message
/// lies between the first two `"` after the (first) say marker.
pub open spec fn chat_fields(line: Seq<char>) -> Option<(Seq<char>, Seq<char>, bool)> {
    let team_only = contains(line, say_team_marker());
    let needle = if team_only {
        say_team_marker()
    } else {
        say_marker()
    };
    match find(line, ": \""@) {
        None => None,
        Some(colon) => {
            let after = line.skip(colon + 3);
            match find(after, "<"@) {
                None => None,
                Some(lt) => {
                    let player = after.take(lt);
                    match find(line, needle) {
                        None => None,
                        Some(say_pos) => {
                            let after_say = line.skip(say_pos + needle.len());
                            match find(after_say, "\""@) {
                                None => None,
                                Some(q1) => {
                                    let rest = after_say.skip(q1 + 1);
                                    match find(rest, "\""@) {
                                        None => None,
                                        Some(q2) => Some((player, rest.take(q2), team_only)),
                                    }
                                },
                            }
                        },
                    }
                },
            }
        },
    }
}

/// Reads a chat message from a log line, if it is one.
pub fn parse_chat_line(line: &str) -> (r: Option<ChatMessage>)
    ensures
        match r {
            Some(m) => chat_fields(line@) == Some((m.player@, m.message@, m.team_only)),
            None => chat_fields(line@) is None,
        },
{
    let v = chars_of(line);
    let n = v.len();
    let ghost l = v@;
    assert(v@.subrange(0, n as int) =~= v@);
    let team_marker = chars_of("\" say_team \"");
    let say = chars_of("\" say \"");
    let colon_quote = chars_of(": \"");
    let lt_char = chars_of("<");
    let quote = chars_of("\"");
    proof {
        reveal_strlit(": \"");
        reveal_strlit("\"");
        reveal_strlit("<");
    }
    let team_only = contains_in(&v, 0, n, &team_marker);
    let needle = if team_only {
        team_marker
    } else {
        say
    };
    let colon = match find_in(&v, 0, n, &colon_quote) {
        Some(k) => k,
        None => return None,
    };
    let start = colon + 3;
    assert(l.skip(colon + 3) =~= v@.subrange(start as int, n as int));
    let lt = match find_in(&v, start, n, &lt_char) {
        Some(k) => k,
        None => return None,
    };
    assert(l.skip(colon + 3).take(lt - start) =~= v@.subrange(start as int, lt as int));
    let say_pos = match find_in(&v, 0, n, &needle) {
        Some(k) => k,
        None => return None,
    };
    let msg_start = say_pos + needle.len();
    assert(l.skip(say_pos + needle@.len()) =~= v@.subrange(msg_start as int, n as int));
    let q1 = match find_in(&v, msg_start, n, &quote) {
        Some(k) => k,
        None => return None,
    };
    let rest_start = q1 + 1;
    assert(l.skip(say_pos + needle@.len()).skip(q1 - msg_start + 1) =~= v@.subrange(
        rest_start as int,
        n as int,
    ));
    let q2 = match find_in(&v, rest_start, n, &quote) {
        Some(k) => k,
        None => return None,
    };
    assert(v@.subrange(rest_start as int, n as int).take(q2 - rest_start) =~= v@.subrange(
        rest_start as int,
        q2 as int,
    ));
    let player = line.substring_char(start, lt).to_owned();
    let message = line.substring_char(rest_start, q2).to_owned();
    Some(ChatMessage { player, message, team_only })
}

/// The words of a chat message that is a command: the trimmed message starts
/// with `'!'`, and its first word is the command, the rest its arguments.
pub open spec fn command_words(message: Seq<char>) -> Option<Seq<Seq<char>>> {
    let msg = trim(message);
    if msg.len() > 0 && msg[0] == '!' {
        Some(words(msg))
    } else {
        None
    }
}

/// Splits a chat message that is a command into the command and its
/// arguments; `None` when the trimmed message does not start with `'!'`.
pub fn parse_command(message: &str) -> (r: Option<(String, Vec<String>)>)
    ensures
        match r {
            Some((command, args)) => command_words(message@) == Some(
                seq![command@] + args@.map_values(|a: String| a@),
            ),
            None => command_words(message@) is None,
        },
{
    let v = chars_of(message);
    let n = v.len();
    assert(v@.subrange(0, n as int) =~= v@);
    let (a, b) = trim_in(&v, 0, n);
    if !(a < b && v[a] == '!') {
        return None;
    }
    let ghost msg = v@.subrange(a as int, b as int);
    let (ca, cb) = match next_word(&v, a, b) {
        Some(w) => w,
        None => {
            assert(!crate::text::is_ws(msg[0]));
            assert(false);
            return None;
        },
    };
    let command = message.substring_char(ca, cb).to_owned();
    let mut args: Vec<String> = Vec::new();
    let mut pos = cb;
    loop
        invariant
            a <= pos <= b <= n == v@.len(),
            v@ == message@,
            msg == v@.subrange(a as int, b as int),
            trim(message@) == msg,
            msg.len() > 0 && msg[0] == '!',
            words(msg) == seq![command@] + args@.map_values(|s: String| s@) + words(
                v@.subrange(pos as int, b as int),
            ),
        decreases b - pos,
    {
        match next_word(&v, pos, b) {
            Some((wa, wb)) => {
                let word = message.substring_char(wa, wb).to_owned();
                let ghost before = args@.map_values(|s: String| s@);
                args.push(word);
                assert(args@.map_values(|s: String| s@) =~= before.push(v@.subrange(
                    wa as int,
                    wb as int,
                )));
                assert(seq![command@] + args@.map_values(|s: String| s@) + words(
                    v@.subrange(wb as int, b as int),
                ) =~= seq![command@] + before + (seq![v@.subrange(wa as int, wb as int)] + words(
                    v@.subrange(wb as int, b as int),
                )));
                pos = wb;
            },
            None => {
                assert(seq![command@] + args@.map_values(|s: String| s@) + words(
                    v@.subrange(pos as int, b as int),
                ) =~= seq![command@] + args@.map_values(|s: String| s@));
                return Some((command, args));
            },
        }
    }
}

/// What the daemon does with a chat message.
#[derive(Debug)]
pub enum CommandPlan {
    /// The message is not a command.
    NotACommand,
    /// A command that the router does not know.
    Unknown(String),
    /// A known command: its handler, its name and its arguments.
    Run(CommandHandler, String, Vec<String>),
}

/// Decides what to do with a chat message: nothing when it is not a command,
/// report an unknown command, or run the handler that the router gives.
pub fn plan_chat_command(chat: &ChatMessage) -> (r: CommandPlan)
    ensures
        match command_words(chat.message@) {
            None => r is NotACommand,
            Some(ws) => if routes().contains_key(ws[0]) {
                r matches CommandPlan::Run(h, c, args) && h == routes()[ws[0]] && c@ == ws[0]
                    && args@.map_values(|a: String| a@) == ws.drop_first()
            } else {
                r matches CommandPlan::Unknown(c) && c@ == ws[0]
            },
        },
{
    match parse_command(chat.message.as_str()) {
        None => CommandPlan::NotACommand,
        Some((command, args)) => {
            let ghost ws = seq![command@] + args@.map_values(|a: String| a@);
            assert(ws[0] == command@);
            assert(ws.drop_first() =~= args@.map_values(|a: String| a@));
            let router = command_router();
            match router.get(command.as_str()) {
                Some(h) => CommandPlan::Run(*h, command, args),
                None => CommandPlan::Unknown(command),
            }
        },
    }
}

/// The UDP port on which the daemon receives the server's log.
pub const LOG_PORT: u16 = 27500;

/// The address that the server is told to send its log to.
pub open spec fn log_address_text(port: u16) -> Seq<char> {
    host_port_text("127.0.0.1"@, port as nat)
}

/// The RCON commands that turn on logging and send the log to the daemon's
/// UDP port `port` on this host, in the order in which they are sent.
pub fn log_setup_commands(port: u16) -> (r: Vec<String>)
    ensures
        r@.map_values(|c: String| c@) == seq![
            "log on"@,
            "sv_logecho 1"@,
            "sv_logfile 1"@,
            "logaddress_delall"@,
            "logaddress_add "@ + log_address_text(port),
        ],
{
    let mut add = "logaddress_add ".to_owned();
    let address = host_port("127.0.0.1", port);
    add.append(address.as_str());
    let r = vec![
        "log on".to_owned(),
        "sv_logecho 1".to_owned(),
        "sv_logfile 1".to_owned(),
        "logaddress_delall".to_owned(),
        add,
    ];
    assert(r@.map_values(|c: String| c@) =~= seq![
        "log on"@,
        "sv_logecho 1"@,
        "sv_logfile 1"@,
        "logaddress_delall"@,
        "logaddress_add "@ + log_address_text(port),
    ]);
    r
}

// ---------------------------------------------------------------------------
// Properties
// ---------------------------------------------------------------------------

/// A chat message read from a line: the player's name holds no `<`, the
/// message holds no `"`, both are pieces of the line, and the message is a
/// team message exactly when the line holds the team marker.
pub proof fn chat_fields_shape(line: Seq<char>)
    ensures
        chat_fields(line) matches Some((player, message, team_only)) ==> {
            &&& !contains(player, "<"@)
            &&& !contains(message, "\""@)
            &&& contains(line, player)
            &&& contains(line, message)
            &&& team_only == contains(line, say_team_marker())
        },
{
    reveal_strlit(": \"");
    reveal_strlit("<");
    reveal_strlit("\"");
    if let Some((player, message, team_only)) = chat_fields(line) {
        let needle = if team_only {
            say_team_marker()
        } else {
            say_marker()
        };
        let colon = find(line, ": \""@).unwrap();
        lemma_find_bounds(line, ": \""@);
        let after = line.skip(colon + 3);
        let lt = find(after, "<"@).unwrap();
        lemma_find_bounds(after, "<"@);
        lemma_no_match_before_first(after, "<"@, lt);
        assert(player == after.take(lt));
        assert(line.subrange(colon + 3, colon + 3 + lt) =~= player);
        assert(matches_at(line, player, colon + 3));
        let say_pos = find(line, needle).unwrap();
        lemma_find_bounds(line, needle);
        let after_say = line.skip(say_pos + needle.len());
        let q1 = find(after_say, "\""@).unwrap();
        lemma_find_bounds(after_say, "\""@);
        let rest = after_say.skip(q1 + 1);
        let q2 = find(rest, "\""@).unwrap();
        lemma_find_bounds(rest, "\""@);
        lemma_no_match_before_first(rest, "\""@, q2);
        assert(message == rest.take(q2));
        let start = say_pos + needle.len() + q1 + 1;
        assert(line.subrange(start, start + q2) =~= message);
        assert(matches_at(line, message, start));
    }
}

/// The marker after which the message follows.
pub open spec fn say_needle(team_only: bool) -> Seq<char> {
    if team_only {
        say_team_marker()
    } else {
        say_marker()
    }
}

/// `s` holds no `c`.
pub open spec fn lacks(s: Seq<char>, c: char) -> bool {
    forall|i: int| 0 <= i < s.len() ==> s[i] != c
}

/// How a chat line with this player, message and team flag is laid out: the
/// player is all the text from the first `: "` up to the next `<`; the message
/// is all the text between the first two `"` that follow the first say marker
/// (the team marker when the line holds one); the flag says whether it does.
pub open spec fn chat_layout(line: Seq<char>, player: Seq<char>, message: Seq<char>, team_only: bool) -> bool {
    &&& team_only == contains(line, say_team_marker())
    &&& lacks(player, '<')
    &&& lacks(message, '"')
    &&& exists|c: int|
        #![trigger is_first_match(line, ": \""@, c)]
        is_first_match(line, ": \""@, c) && c + 3 + player.len() < line.len() && line.subrange(
            c + 3,
            c + 3 + player.len(),
        ) == player && line[c + 3 + player.len()] == '<'
    &&& exists|k: int, q: int|
        #![trigger is_first_match(line, say_needle(team_only), k), line[q]]
        is_first_match(line, say_needle(team_only), k) && k + say_needle(team_only).len() <= q && line[q] == '"' && (forall|
            x: int,
        |
            k + say_needle(team_only).len() <= x < q ==> line[x] != '"') && q + 1 + message.len() < line.len()
            && line.subrange(q + 1, q + 1 + message.len()) == message && line[q + 1
            + message.len()] == '"'
}

/// `parse_chat_line` gives a message exactly when the line is laid out as a
/// chat line: player, message and flag are then the ones of the layout.
pub proof fn chat_line_layout(line: Seq<char>, player: Seq<char>, message: Seq<char>, team_only: bool)
    ensures
        chat_fields(line) == Some((player, message, team_only)) <==> chat_layout(
            line,
            player,
            message,
            team_only,
        ),
{
    reveal_strlit(": \"");
    reveal_strlit("<");
    reveal_strlit("\"");
    assert("<"@ =~= seq!['<']);
    assert("\""@ =~= seq!['"']);
    let cq = ": \""@;
    let needle = say_needle(team_only);
    if chat_fields(line) == Some((player, message, team_only)) {
        let c = find(line, cq).unwrap();
        lemma_find_bounds(line, cq);
        let after = line.skip(c + 3);
        let lt = find(after, "<"@).unwrap();
        lemma_find_bounds(after, "<"@);
        lemma_first_char(after, '<', lt);
        assert(player =~= after.take(lt));
        assert(line.subrange(c + 3, c + 3 + lt) =~= player);
        assert(line[c + 3 + lt] == after[lt]);
        assert forall|i: int| 0 <= i < player.len() implies player[i] != '<' by {
            assert(player[i] == after[i]);
        }
        let k = find(line, needle).unwrap();
        lemma_find_bounds(line, needle);
        let after_say = line.skip(k + needle.len());
        let q1 = find(after_say, "\""@).unwrap();
        lemma_find_bounds(after_say, "\""@);
        lemma_first_char(after_say, '"', q1);
        let q = k + needle.len() + q1;
        assert(line[q] == after_say[q1]);
        assert forall|x: int| k + needle.len() <= x < q implies line[x] != '"' by {
            assert(line[x] == after_say[x - k - needle.len()]);
        }
        let rest = after_say.skip(q1 + 1);
        let q2 = find(rest, "\""@).unwrap();
        lemma_find_bounds(rest, "\""@);
        lemma_first_char(rest, '"', q2);
        assert(message =~= rest.take(q2));
        assert(line.subrange(q + 1, q + 1 + q2) =~= message);
        assert(line[q + 1 + q2] == rest[q2]);
        assert forall|i: int| 0 <= i < message.len() implies message[i] != '"' by {
            assert(message[i] == rest[i]);
        }
        assert(is_first_match(line, cq, c));
        assert(is_first_match(line, needle, k));
        assert(team_only == contains(line, say_team_marker()));
        assert(lacks(player, '<'));
        assert(lacks(message, '"'));
        assert(c + 3 + player.len() < line.len() && line.subrange(c + 3, c + 3 + player.len())
            == player && line[c + 3 + player.len()] == '<');
        assert(k + needle.len() <= q && line[q] == '"');
        assert(q + 1 + message.len() < line.len());
        assert(line.subrange(q + 1, q + 1 + message.len()) == message);
        assert(line[q + 1 + message.len()] == '"');
        assert(is_first_match(line, needle, k) && k + needle.len() <= q && line[q] == '"' && (forall|
            x: int,
        |
            k + needle.len() <= x < q ==> line[x] != '"') && q + 1 + message.len() < line.len()
            && line.subrange(q + 1, q + 1 + message.len()) == message && line[q + 1
            + message.len()] == '"');
        assert(exists|k2: int, q2: int|
            #![trigger is_first_match(line, needle, k2), line[q2]]
            is_first_match(line, needle, k2) && k2 + needle.len() <= q2 && line[q2] == '"' && (forall|
                x: int,
            |
                k2 + needle.len() <= x < q2 ==> line[x] != '"') && q2 + 1 + message.len()
                < line.len() && line.subrange(q2 + 1, q2 + 1 + message.len()) == message && line[q2
                + 1 + message.len()] == '"');
        assert(exists|c2: int|
            #![trigger is_first_match(line, cq, c2)]
            is_first_match(line, cq, c2) && c2 + 3 + player.len() < line.len() && line.subrange(
                c2 + 3,
                c2 + 3 + player.len(),
            ) == player && line[c2 + 3 + player.len()] == '<');
        assert(chat_layout(line, player, message, team_only));
    }
    if chat_layout(line, player, message, team_only) {
        let c = choose|c: int|
            #![trigger is_first_match(line, cq, c)]
            is_first_match(line, cq, c) && c + 3 + player.len() < line.len() && line.subrange(
                c + 3,
                c + 3 + player.len(),
            ) == player && line[c + 3 + player.len()] == '<';
        lemma_first_match_unique(line, cq, c);
        let after = line.skip(c + 3);
        let lt = player.len() as int;
        assert forall|j: int| 0 <= j < lt implies after[j] != '<' by {
            assert(after[j] == line.subrange(c + 3, c + 3 + lt)[j]);
        }
        assert(after[lt] == '<');
        lemma_first_char(after, '<', lt);
        lemma_first_match_unique(after, "<"@, lt);
        assert(after.take(lt) =~= player);
        let (k, q) = choose|k: int, q: int|
            #![trigger is_first_match(line, needle, k), line[q]]
            is_first_match(line, needle, k) && k + needle.len() <= q && line[q] == '"' && (forall|
                x: int,
            |
                k + needle.len() <= x < q ==> line[x] != '"') && q + 1 + message.len()
                < line.len() && line.subrange(q + 1, q + 1 + message.len()) == message && line[q
                + 1 + message.len()] == '"';
        lemma_first_match_unique(line, needle, k);
        let after_say = line.skip(k + needle.len());
        let q1 = q - k - needle.len();
        assert forall|j: int| 0 <= j < q1 implies after_say[j] != '"' by {
            assert(after_say[j] == line[j + k + needle.len()]);
        }
        assert(after_say[q1] == line[q]);
        lemma_first_char(after_say, '"', q1);
        lemma_first_match_unique(after_say, "\""@, q1);
        let rest = after_say.skip(q1 + 1);
        let q2 = message.len() as int;
        assert forall|j: int| 0 <= j < q2 implies rest[j] != '"' by {
            assert(rest[j] == line.subrange(q + 1, q + 1 + q2)[j]);
        }
        assert(rest[q2] == line[q + 1 + q2]);
        lemma_first_char(rest, '"', q2);
        lemma_first_match_unique(rest, "\""@, q2);
        assert(rest.take(q2) =~= message);
        assert(find(line, cq) == Some(c));
        assert(find(after, "<"@) == Some(lt));
        assert(find(line, needle) == Some(k));
        assert(find(after_say, "\""@) == Some(q1));
        assert(find(rest, "\""@) == Some(q2));
        assert(chat_fields(line) == Some((player, message, team_only)));
    }
}

/// A command's words: there is at least one, the first (the command) starts
/// with `!`, and every word is non-empty and holds no whitespace.
pub proof fn command_words_shape(message: Seq<char>)
    ensures
        command_words(message) matches Some(ws) ==> {
            &&& ws.len() >= 1
            &&& ws[0][0] == '!'
            &&& forall|k: int| 0 <= k < ws.len() ==> is_word(#[trigger] ws[k])
        },
{
    let msg = trim(message);
    lemma_words(msg);
}

/// The first non-whitespace character of `m` is `'!'`.
pub open spec fn starts_as_command(m: Seq<char>) -> bool {
    exists|i: int|
        0 <= i < m.len() && #[trigger] m[i] == '!' && forall|j: int| 0 <= j < i ==> is_ws_at(m, j)
}

/// `m[j]` is whitespace.
pub open spec fn is_ws_at(m: Seq<char>, j: int) -> bool {
    crate::text::is_ws(m[j])
}

/// `parse_command` recognises a command exactly when the message's first
/// non-whitespace character is `'!'`, and then gives all of the message's
/// whitespace-separated words, in order: the whole first word as the command
/// and the others as its arguments.
pub proof fn command_words_are_the_words(m: Seq<char>)
    ensures
        command_words(m) is None <==> !starts_as_command(m),
        command_words(m) matches Some(ws) ==> ws[0][0] == '!' && spaced_words(m, ws),
{
    lemma_trim_around(m);
    let msg = trim(m);
    let (a, b) = choose|a: int, b: int|
        0 <= a <= b <= m.len() && msg == m.subrange(a, b) && all_ws(m.take(a)) && all_ws(
            m.skip(b),
        );
    assert forall|j: int| 0 <= j < a implies crate::text::is_ws(m[j]) by {
        assert(m[j] == m.take(a)[j]);
    }
    assert forall|j: int| b <= j < m.len() implies crate::text::is_ws(m[j]) by {
        assert(m[j] == m.skip(b)[j - b]);
    }
    if msg.len() > 0 && msg[0] == '!' {
        assert(m[a] == msg[0]);
        assert(forall|j: int| 0 <= j < a ==> is_ws_at(m, j));
        assert(starts_as_command(m));
        lemma_words(msg);
        lemma_words_spaced(msg);
        let ws = words(msg);
        let (lead, gaps, trail) = choose|lead: Seq<char>, gaps: Seq<Seq<char>>, trail: Seq<char>|
            #![trigger all_ws(lead), all_ws(trail), joined(ws, gaps)]
            all_ws(lead) && all_ws(trail) && gaps.len() + 1 == ws.len() && good_gaps(gaps) && msg
                == lead + joined(ws, gaps) + trail;
        let lead2 = m.take(a) + lead;
        let trail2 = trail + m.skip(b);
        assert(all_ws(lead2)) by {
            assert forall|i: int| 0 <= i < lead2.len() implies crate::text::is_ws(
                #[trigger] lead2[i],
            ) by {
                if i < a {
                    assert(lead2[i] == m.take(a)[i]);
                } else {
                    assert(lead2[i] == lead[i - a]);
                }
            }
        }
        assert(all_ws(trail2)) by {
            assert forall|i: int| 0 <= i < trail2.len() implies crate::text::is_ws(
                #[trigger] trail2[i],
            ) by {
                if i < trail.len() {
                    assert(trail2[i] == trail[i]);
                } else {
                    assert(trail2[i] == m.skip(b)[i - trail.len()]);
                }
            }
        }
        assert(m =~= m.take(a) + msg + m.skip(b));
        assert(m =~= lead2 + joined(ws, gaps) + trail2);
        assert(spaced_words(m, ws));
    } else {
        if starts_as_command(m) {
            let i = choose|i: int|
                0 <= i < m.len() && #[trigger] m[i] == '!' && forall|j: int|
                    0 <= j < i ==> is_ws_at(m, j);
            assert(!crate::text::is_ws(m[i]));
            if msg.len() == 0 {
                assert(i < a || i >= b);
            } else {
                assert(m[a] == msg[0]);
                if i > a {
                    assert(is_ws_at(m, a));
                }
            }
        }
    }
}

} // verus!
