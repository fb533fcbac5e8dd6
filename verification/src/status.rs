//! The server's state as the `status` RCON command reports it, and the parser
//! that reads it from the command's output.
use vstd::prelude::*;
use std::time::Instant;

use crate::text::{
    chars_of, contains, contains_in, find, find_in, lines, next_line, last_word, last_word_in, parse_unsigned, parse_unsigned_in,
    starts_with, starts_with_in, trim, trim_in, lemma_trim, lemma_trim_idempotent,
    is_first_match, lemma_first_match_unique, matches_at, strip_cr, trim_end, trim_start, all_ws,
    is_last_word_at, last_word_law,
};

verus! {

/// `std::time::Instant`, carried through as an opaque value.
#[verifier::external_type_specification]
#[verifier::external_body]
pub struct ExInstant(Instant);

/// What is known of the game server.
#[derive(Debug, Clone)]
pub struct ServerState {
    pub last_status: Option<String>,
    pub last_updated: Option<Instant>,
    pub map: Option<String>,
    pub num_of_players: Option<u32>,
}

impl ServerState {
    /// A state in which nothing is known.
    pub fn new() -> (s: Self)
        ensures
            s.last_status is None,
            s.last_updated is None,
            s.map is None,
            s.num_of_players is None,
    {
        ServerState { last_status: None, last_updated: None, map: None, num_of_players: None }
    }

    /// Records the outcome of one `status` query made at time `now`: its
    /// output becomes the last status when the query succeeded, and the time
    /// of the update is recorded either way.
    pub fn record_status<E>(&mut self, outcome: Result<String, E>, now: Instant)
        ensures
            final(self).last_updated == Some(now),
            final(self).map == old(self).map,
            final(self).num_of_players == old(self).num_of_players,
            match outcome {
                Ok(output) => final(self).last_status == Some(output),
                Err(_) => final(self).last_status == old(self).last_status,
            },
    {
        match outcome {
            Ok(output) => {
                self.last_status = Some(output);
                self.last_updated = Some(now);
            },
            Err(_) => {
                self.last_updated = Some(now);
            },
        }
    }
}

impl Default for ServerState {
    fn default() -> (s: Self)
        ensures
            s.last_status is None,
            s.last_updated is None,
            s.map is None,
            s.num_of_players is None,
    {
        ServerState::new()
    }
}

// ---------------------------------------------------------------------------
// extract_number_before
// ---------------------------------------------------------------------------

/// The text of `line` before the first occurrence of `word`
/// (`line.split(word).next()`), or all of it when `word` does not occur.
pub open spec fn text_before(line: Seq<char>, word: Seq<char>) -> Seq<char> {
    match find(line, word) {
        Some(i) => line.take(i),
        None => line,
    }
}

/// The number written as the last word before the first occurrence of `word`
/// in `line`, if that word parses as a `u32`.
pub open spec fn number_before(line: Seq<char>, word: Seq<char>) -> Option<u32> {
    match last_word(text_before(line, word)) {
        Some(w) => match parse_unsigned(w, u32::MAX as nat) {
            Some(n) => Some(n as u32),
            None => None,
        },
        None => None,
    }
}

fn number_before_in(v: &Vec<char>, lo: usize, hi: usize, word: &Vec<char>) -> (r: Option<u32>)
    requires
        lo <= hi <= v@.len(),
    ensures
        r == number_before(v@.subrange(lo as int, hi as int), word@),
{
    let ghost line = v@.subrange(lo as int, hi as int);
    let end = match find_in(v, lo, hi, word) {
        Some(k) => {
            assert(line.take(k - lo) =~= v@.subrange(lo as int, k as int));
            k
        },
        None => hi,
    };
    assert(text_before(line, word@) == v@.subrange(lo as int, end as int));
    match last_word_in(v, lo, end) {
        Some((a, b)) => match parse_unsigned_in(v, a, b, u32::MAX) {
            Some(n) => Some(n),
            None => None,
        },
        None => None,
    }
}

/// The number that stands as the last word before the first occurrence of
/// `word` in `line`, if it parses as a `u32`.
pub fn extract_number_before(line: &str, word: &str) -> (r: Option<u32>)
    ensures
        r == number_before(line@, word@),
{
    let v = chars_of(line);
    let w = chars_of(word);
    assert(v@.subrange(0, v@.len() as int) =~= v@);
    number_before_in(&v, 0, v.len(), &w)
}

// ---------------------------------------------------------------------------
// extract_map_name
// ---------------------------------------------------------------------------

/// The characters at which a status line is split to look for a map name.
pub open spec fn is_bracket(c: char) -> bool {
    c == '[' || c == ']' || c == '|'
}

pub open spec fn is_first_bracket(s: Seq<char>, i: int) -> bool {
    0 <= i < s.len() && is_bracket(s[i]) && forall|j: int| 0 <= j < i ==> !is_bracket(s[j])
}

/// The position of the first `'['`, `']'` or `'|'` in `s`.
pub open spec fn first_bracket(s: Seq<char>) -> Option<int> {
    if exists|i: int| is_first_bracket(s, i) {
        Some(choose|i: int| is_first_bracket(s, i))
    } else {
        None
    }
}

/// `s.split(|c| c == '[' || c == ']' || c == '|')`.
pub open spec fn bracket_pieces(s: Seq<char>) -> Seq<Seq<char>>
    decreases s.len(),
{
    match first_bracket(s) {
        Some(i) => seq![s.take(i)] + bracket_pieces(s.skip(i + 1)),
        None => seq![s],
    }
}

/// Whether a piece, trimmed, names a map.
pub open spec fn is_map_piece(p: Seq<char>) -> bool {
    starts_with(trim(p), "de_"@)
}

/// The first piece that, trimmed, starts with `"de_"`, trimmed.
pub open spec fn first_map_piece(ps: Seq<Seq<char>>) -> Option<Seq<char>>
    decreases ps.len(),
{
    if ps.len() == 0 {
        None
    } else if is_map_piece(ps[0]) {
        Some(trim(ps[0]))
    } else {
        first_map_piece(ps.drop_first())
    }
}

/// The map name in a status line: the first piece between `'['`, `']'` and
/// `'|'` that, trimmed, starts with `"de_"`, trimmed.
pub open spec fn map_name(line: Seq<char>) -> Option<Seq<char>> {
    first_map_piece(bracket_pieces(line))
}

fn find_bracket(v: &Vec<char>, pos: usize) -> (r: Option<usize>)
    requires
        pos <= v@.len(),
    ensures
        match r {
            Some(k) => pos <= k < v@.len() && first_bracket(v@.skip(pos as int)) == Some(k - pos),
            None => first_bracket(v@.skip(pos as int)) is None,
        },
{
    let ghost s = v@.skip(pos as int);
    let n = v.len();
    let mut k = pos;
    while k < n
        invariant
            pos <= k <= n == v@.len(),
            s == v@.skip(pos as int),
            forall|j: int| 0 <= j < k - pos ==> !is_bracket(s[j]),
        decreases n - k,
    {
        let c = v[k];
        if c == '[' || c == ']' || c == '|' {
            assert(is_first_bracket(s, k - pos));
            let ghost i = choose|i: int| is_first_bracket(s, i);
            assert(i == k - pos) by {
                if i < k - pos {
                    assert(!is_bracket(s[i]));
                } else if i > k - pos {
                    assert(!is_bracket(s[k - pos]));
                }
            }
            return Some(k);
        }
        k = k + 1;
    }
    assert(!exists|i: int| is_first_bracket(s, i));
    None
}

fn map_name_in(v: &Vec<char>, lo: usize, hi: usize) -> (r: Option<(usize, usize)>)
    requires
        lo <= hi <= v@.len(),
    ensures
        match r {
            Some((a, b)) => lo <= a <= b <= hi && map_name(v@.subrange(lo as int, hi as int)) == Some(
                v@.subrange(a as int, b as int),
            ),
            None => map_name(v@.subrange(lo as int, hi as int)) is None,
        },
{
    // Work on a copy of the window so that positions and `skip` agree.
    let mut w: Vec<char> = Vec::new();
    let mut i = lo;
    while i < hi
        invariant
            lo <= i <= hi <= v@.len(),
            w@ == v@.subrange(lo as int, i as int),
        decreases hi - i,
    {
        w.push(v[i]);
        i = i + 1;
    }
    let ghost line = v@.subrange(lo as int, hi as int);
    assert(w@.skip(0) =~= line);
    let de = chars_of("de_");
    let n = w.len();
    let mut pos: usize = 0;
    loop
        invariant
            pos <= n == w@.len(),
            w@ == line,
            line == v@.subrange(lo as int, hi as int),
            lo <= hi <= v@.len(),
            de@ == "de_"@,
            map_name(line) == first_map_piece(bracket_pieces(w@.skip(pos as int))),
        decreases n - pos,
    {
        let found = find_bracket(&w, pos);
        let end = match found {
            Some(k) => k,
            None => n,
        };
        let ghost rest = w@.skip(pos as int);
        assert(rest.take(end - pos) =~= w@.subrange(pos as int, end as int));
        let (a, b) = trim_in(&w, pos, end);
        if starts_with_in(&w, a, b, &de) {
            assert(w@.subrange(a as int, b as int) =~= v@.subrange(lo + a, lo + b));
            proof {
                if found is None {
                    assert(rest =~= w@.subrange(pos as int, end as int));
                }
            }
            return Some((lo + a, lo + b));
        }
        match found {
            Some(k) => {
                let ghost ps = bracket_pieces(rest);
                assert(ps == seq![rest.take(k - pos)] + bracket_pieces(rest.skip(k - pos + 1)));
                assert(ps[0] == rest.take(k - pos));
                assert(!is_map_piece(ps[0]));
                assert(ps.drop_first() =~= bracket_pieces(rest.skip(k - pos + 1)));
                assert(rest.skip(k - pos + 1) =~= w@.skip(k + 1));
                pos = k + 1;
            },
            None => {
                assert(rest =~= w@.subrange(pos as int, end as int));
                assert(bracket_pieces(rest) == seq![rest]);
                assert(!is_map_piece(bracket_pieces(rest)[0]));
                assert(bracket_pieces(rest).drop_first() =~= Seq::<Seq<char>>::empty());
                assert(first_map_piece(Seq::<Seq<char>>::empty()) is None);
                return None;
            },
        }
    }
}

/// The map name in a status line: the first piece between `'['`, `']'` and
/// `'|'` that, trimmed, starts with `"de_"`, trimmed.
pub fn extract_map_name(line: &str) -> (r: Option<String>)
    ensures
        r.deep_view() == map_name(line@),
{
    let v = chars_of(line);
    assert(v@.subrange(0, v@.len() as int) =~= v@);
    match map_name_in(&v, 0, v.len()) {
        Some((a, b)) => Some(line.substring_char(a, b).to_owned()),
        None => None,
    }
}

// ---------------------------------------------------------------------------
// parse_server_status
// ---------------------------------------------------------------------------

/// What the lines of a `status` output read so far say: whether the server
/// answered (a `hostname` line), the map, and the numbers of humans and bots.
pub type StatusFacts = (bool, Option<Seq<char>>, Option<u32>, Option<u32>);

/// Nothing read yet.
pub open spec fn no_facts() -> StatusFacts {
    (false, None, None, None)
}

/// The facts after one more line of the output.
pub open spec fn read_status_line(facts: StatusFacts, raw: Seq<char>) -> StatusFacts {
    let line = trim(raw);
    let running = facts.0 || starts_with(line, "hostname"@);
    let counted = starts_with(line, "players"@) && contains(line, "humans"@);
    let humans = if counted {
        number_before(line, "humans"@)
    } else {
        facts.2
    };
    let bots = if counted {
        number_before(line, "bots"@)
    } else {
        facts.3
    };
    let map = if contains(line, "spawngroup"@) && contains(line, "de_"@) && map_name(line) is Some {
        map_name(line)
    } else {
        facts.1
    };
    (running, map, humans, bots)
}

/// The facts after the lines `ls`, read in order.
pub open spec fn read_status_lines(facts: StatusFacts, ls: Seq<Seq<char>>) -> StatusFacts
    decreases ls.len(),
{
    if ls.len() == 0 {
        facts
    } else {
        read_status_lines(read_status_line(facts, ls[0]), ls.drop_first())
    }
}

/// The facts that a whole `status` output states.
pub open spec fn status_facts(input: Seq<char>) -> StatusFacts {
    read_status_lines(no_facts(), lines(input))
}

/// The number of players: humans and bots, when both are known.
pub open spec fn player_total(humans: Option<u32>, bots: Option<u32>) -> Option<int> {
    match (humans, bots) {
        (Some(h), Some(b)) => Some(h + b),
        _ => None,
    }
}

/// The number of players that a `status` output states fits in a `u32`
/// (else the addition overflows).
pub open spec fn players_fit(input: Seq<char>) -> bool {
    let facts = status_facts(input);
    match player_total(facts.2, facts.3) {
        Some(t) => t <= u32::MAX,
        None => true,
    }
}

/// The server state that a `status` output describes.
pub open spec fn describes(s: ServerState, input: Seq<char>) -> bool {
    let facts = status_facts(input);
    &&& s.last_status.deep_view() == (if facts.0 {
        Some("Running"@)
    } else {
        None
    })
    &&& s.last_updated is None
    &&& s.map.deep_view() == facts.1
    &&& match player_total(facts.2, facts.3) {
        Some(t) => s.num_of_players == Some(t as u32),
        None => s.num_of_players is None,
    }
}

/// Reads the lines of a `status` output; returns the facts and the window of
/// the map name in `v`.
fn read_status(input: &str, v: &Vec<char>) -> (r: (bool, Option<(usize, usize)>, Option<u32>, Option<u32>))
    requires
        v@ == input@,
    ensures
        ({
            let facts = status_facts(input@);
            &&& r.0 == facts.0
            &&& r.2 == facts.2
            &&& r.3 == facts.3
            &&& match r.1 {
                Some((a, b)) => a <= b <= v@.len() && facts.1 == Some(v@.subrange(a as int, b as int)),
                None => facts.1 is None,
            }
        }),
{
    let hostname = chars_of("hostname");
    let players = chars_of("players");
    let humans_word = chars_of("humans");
    let bots_word = chars_of("bots");
    let spawngroup = chars_of("spawngroup");
    let de = chars_of("de_");
    let n = v.len();
    let mut running = false;
    let mut map: Option<(usize, usize)> = None;
    let mut humans: Option<u32> = None;
    let mut bots: Option<u32> = None;
    let mut pos: usize = 0;
    assert(v@.skip(0) =~= v@);
    while pos < n
        invariant
            pos <= n == v@.len(),
            v@ == input@,
            hostname@ == "hostname"@,
            players@ == "players"@,
            humans_word@ == "humans"@,
            bots_word@ == "bots"@,
            spawngroup@ == "spawngroup"@,
            de@ == "de_"@,
            match map {
                Some((a, b)) => a <= b <= n,
                None => true,
            },
            status_facts(input@) == read_status_lines(
                (
                    running,
                    match map {
                        Some((a, b)) => Some(v@.subrange(a as int, b as int)),
                        None => None,
                    },
                    humans,
                    bots,
                ),
                lines(v@.skip(pos as int)),
            ),
        decreases n - pos,
    {
        let (a, b, next) = next_line(v, pos);
        let (ta, tb) = trim_in(v, a, b);
        if starts_with_in(v, ta, tb, &hostname) {
            running = true;
        }
        if starts_with_in(v, ta, tb, &players) && contains_in(v, ta, tb, &humans_word) {
            humans = number_before_in(v, ta, tb, &humans_word);
            bots = number_before_in(v, ta, tb, &bots_word);
        }
        if contains_in(v, ta, tb, &spawngroup) && contains_in(v, ta, tb, &de) {
            match map_name_in(v, ta, tb) {
                Some((ma, mb)) => {
                    map = Some((ma, mb));
                },
                None => {},
            }
        }
        let ghost ls = lines(v@.skip(pos as int));
        assert(ls[0] == v@.subrange(a as int, b as int));
        assert(ls.drop_first() =~= lines(v@.skip(next as int)));
        pos = next;
    }
    assert(v@.skip(n as int) =~= Seq::<char>::empty());
    (running, map, humans, bots)
}

/// The number of humans and the number of bots that a `status` output states.
pub fn status_player_counts(input: &str) -> (r: (Option<u32>, Option<u32>))
    ensures
        r.0 == status_facts(input@).2,
        r.1 == status_facts(input@).3,
{
    let v = chars_of(input);
    let (_, _, humans, bots) = read_status(input, &v);
    (humans, bots)
}

/// The server state that the output of the `status` RCON command describes.
///
/// Line by line, each trimmed: a line that starts with `hostname` marks the
/// server as running; a line that starts with `players` and mentions
/// `humans` gives the numbers before `humans` and `bots`; a line that
/// mentions `spawngroup` and `de_` may give the map. Later lines override
/// earlier ones.
pub fn parse_server_status(input: &str) -> (s: ServerState)
    requires
        players_fit(input@),
    ensures
        describes(s, input@),
{
    let v = chars_of(input);
    let (running, map, humans, bots) = read_status(input, &v);
    let mut state = ServerState::new();
    if running {
        state.last_status = Some("Running".to_owned());
    }
    match map {
        Some((a, b)) => {
            state.map = Some(input.substring_char(a, b).to_owned());
        },
        None => {},
    }
    match (humans, bots) {
        (Some(h), Some(b)) => {
            state.num_of_players = Some(h + b);
        },
        _ => {},
    }
    state
}

// ---------------------------------------------------------------------------
// Properties
// ---------------------------------------------------------------------------

/// No `'['`, `']'` or `'|'` in `s`.
pub open spec fn bracket_free(s: Seq<char>) -> bool {
    forall|i: int| 0 <= i < s.len() ==> !is_bracket(#[trigger] s[i])
}

proof fn lemma_first_bracket_exists(s: Seq<char>, j: int)
    requires
        0 <= j < s.len(),
        is_bracket(s[j]),
    ensures
        first_bracket(s) is Some,
    decreases j,
{
    if exists|k: int| 0 <= k < j && is_bracket(s[k]) {
        let k = choose|k: int| 0 <= k < j && is_bracket(s[k]);
        lemma_first_bracket_exists(s, k);
    } else {
        assert(is_first_bracket(s, j));
    }
}

proof fn lemma_pieces_bracket_free(s: Seq<char>)
    ensures
        forall|k: int| 0 <= k < bracket_pieces(s).len() ==> bracket_free(
            #[trigger] bracket_pieces(s)[k],
        ),
    decreases s.len(),
{
    match first_bracket(s) {
        Some(i) => {
            lemma_pieces_bracket_free(s.skip(i + 1));
            let ps = bracket_pieces(s);
            assert(ps == seq![s.take(i)] + bracket_pieces(s.skip(i + 1)));
            assert(bracket_free(s.take(i)));
            assert forall|k: int| 0 <= k < ps.len() implies bracket_free(#[trigger] ps[k]) by {
                if k > 0 {
                    assert(ps[k] == bracket_pieces(s.skip(i + 1))[k - 1]);
                }
            }
        },
        None => {
            assert forall|i: int| 0 <= i < s.len() implies !is_bracket(#[trigger] s[i]) by {
                if is_bracket(s[i]) {
                    lemma_first_bracket_exists(s, i);
                }
            }
        },
    }
}

proof fn lemma_first_map_piece(ps: Seq<Seq<char>>)
    ensures
        first_map_piece(ps) matches Some(m) ==> exists|k: int|
            0 <= k < ps.len() && is_map_piece(#[trigger] ps[k]) && m == trim(ps[k]),
    decreases ps.len(),
{
    if ps.len() > 0 && !is_map_piece(ps[0]) {
        lemma_first_map_piece(ps.drop_first());
        if first_map_piece(ps) is Some {
            let k = choose|k: int|
                0 <= k < ps.drop_first().len() && is_map_piece(#[trigger] ps.drop_first()[k])
                    && first_map_piece(ps) == Some(trim(ps.drop_first()[k]));
            assert(ps[k + 1] == ps.drop_first()[k]);
        }
    } else if ps.len() > 0 {
        assert(is_map_piece(ps[0]));
    }
}

/// `line[a..b]` is one of the pieces into which `'['`, `']'` and `'|'` cut
/// `line`: it starts at the beginning or just after a separator, ends at the
/// end or just before one, and holds none.
pub open spec fn is_piece(line: Seq<char>, a: int, b: int) -> bool {
    &&& 0 <= a <= b <= line.len()
    &&& (a == 0 || is_bracket(line[a - 1]))
    &&& (b == line.len() || is_bracket(line[b]))
    &&& forall|i: int| a <= i < b ==> !is_bracket(#[trigger] line[i])
}

/// `line[a..b]` is the leftmost piece that, trimmed, starts with `de_`.
pub open spec fn is_first_map_piece(line: Seq<char>, a: int, b: int) -> bool {
    &&& is_piece(line, a, b)
    &&& is_map_piece(line.subrange(a, b))
    &&& forall|a2: int, b2: int|
        #![trigger is_piece(line, a2, b2)]
        is_piece(line, a2, b2) && a2 < a ==> !is_map_piece(line.subrange(a2, b2))
}

proof fn lemma_piece_end_unique(line: Seq<char>, a: int, b: int, b2: int)
    requires
        is_piece(line, a, b),
        is_piece(line, a, b2),
    ensures
        b == b2,
{
    if b < b2 {
        assert(!is_bracket(line[b]));
    } else if b2 < b {
        assert(!is_bracket(line[b2]));
    }
}

proof fn lemma_pieces_split(line: Seq<char>, i: int)
    requires
        first_bracket(line) == Some(i),
    ensures
        0 <= i < line.len(),
        forall|a: int, b: int|
            #![trigger is_piece(line, a, b)]
            is_piece(line, a, b) <==> ((a == 0 && b == i) || (i + 1 <= a && is_piece(
                line.skip(i + 1),
                a - (i + 1),
                b - (i + 1),
            ))),
{
    let r = line.skip(i + 1);
    assert(is_first_bracket(line, i));
    assert forall|a: int, b: int|
        #![trigger is_piece(line, a, b)]
        is_piece(line, a, b) <==> ((a == 0 && b == i) || (i + 1 <= a && is_piece(
            r,
            a - (i + 1),
            b - (i + 1),
        ))) by {
        if is_piece(line, a, b) {
            if a == 0 {
                if b < i {
                    assert(!is_bracket(line[b]));
                } else if b > i {
                    assert(!is_bracket(line[i]));
                }
            } else {
                assert(is_bracket(line[a - 1]));
                assert(a - 1 >= i);
                assert forall|x: int| a - (i + 1) <= x < b - (i + 1) implies !is_bracket(
                    #[trigger] r[x],
                ) by {
                    assert(r[x] == line[x + i + 1]);
                }
                if a - (i + 1) > 0 {
                    assert(r[a - (i + 1) - 1] == line[a - 1]);
                }
                if b - (i + 1) < r.len() {
                    assert(r[b - (i + 1)] == line[b]);
                }
            }
        }
        if a == 0 && b == i {
            assert forall|x: int| a <= x < b implies !is_bracket(#[trigger] line[x]) by {}
        }
        if i + 1 <= a && is_piece(r, a - (i + 1), b - (i + 1)) {
            assert forall|x: int| a <= x < b implies !is_bracket(#[trigger] line[x]) by {
                assert(r[x - (i + 1)] == line[x]);
            }
            if a - (i + 1) > 0 {
                assert(r[a - (i + 1) - 1] == line[a - 1]);
            }
            if b < line.len() {
                assert(r[b - (i + 1)] == line[b]);
            }
        }
    }
}

proof fn lemma_pieces_whole(line: Seq<char>)
    requires
        first_bracket(line) is None,
    ensures
        forall|a: int, b: int|
            #![trigger is_piece(line, a, b)]
            is_piece(line, a, b) <==> (a == 0 && b == line.len()),
{
    assert forall|x: int| 0 <= x < line.len() implies !is_bracket(#[trigger] line[x]) by {
        if is_bracket(line[x]) {
            lemma_first_bracket_exists(line, x);
        }
    }
}

proof fn lemma_map_name_pieces(line: Seq<char>)
    ensures
        match map_name(line) {
            Some(m) => exists|a: int, b: int|
                is_first_map_piece(line, a, b) && m == trim(line.subrange(a, b)),
            None => forall|a: int, b: int|
                #![trigger is_piece(line, a, b)]
                is_piece(line, a, b) ==> !is_map_piece(line.subrange(a, b)),
        },
    decreases line.len(),
{
    match first_bracket(line) {
        Some(i) => {
            lemma_pieces_split(line, i);
            let r = line.skip(i + 1);
            let ps = bracket_pieces(line);
            assert(ps == seq![line.take(i)] + bracket_pieces(r));
            assert(ps[0] == line.take(i));
            assert(ps.drop_first() =~= bracket_pieces(r));
            assert(line.subrange(0, i) =~= line.take(i));
            if is_map_piece(line.take(i)) {
                assert(is_first_map_piece(line, 0, i));
            } else {
                lemma_map_name_pieces(r);
                assert(map_name(line) == map_name(r));
                match map_name(r) {
                    Some(m) => {
                        let (a, b) = choose|a: int, b: int|
                            is_first_map_piece(r, a, b) && m == trim(r.subrange(a, b));
                        let (a1, b1) = (a + i + 1, b + i + 1);
                        assert(r.subrange(a, b) =~= line.subrange(a1, b1));
                        assert(is_piece(line, a1, b1));
                        assert forall|a2: int, b2: int|
                            #![trigger is_piece(line, a2, b2)]
                            is_piece(line, a2, b2) && a2 < a1 implies !is_map_piece(
                                line.subrange(a2, b2),
                            ) by {
                            if a2 == 0 && b2 == i {
                            } else {
                                assert(is_piece(r, a2 - (i + 1), b2 - (i + 1)));
                                assert(r.subrange(a2 - (i + 1), b2 - (i + 1)) =~= line.subrange(
                                    a2,
                                    b2,
                                ));
                            }
                        }
                        assert(is_first_map_piece(line, a1, b1));
                    },
                    None => {
                        assert forall|a: int, b: int|
                            #![trigger is_piece(line, a, b)]
                            is_piece(line, a, b) implies !is_map_piece(line.subrange(a, b)) by {
                            if a == 0 && b == i {
                            } else {
                                assert(is_piece(r, a - (i + 1), b - (i + 1)));
                                assert(r.subrange(a - (i + 1), b - (i + 1)) =~= line.subrange(
                                    a,
                                    b,
                                ));
                            }
                        }
                    },
                }
            }
        },
        None => {
            lemma_pieces_whole(line);
            let ps = bracket_pieces(line);
            assert(ps == seq![line]);
            assert(ps.drop_first() =~= Seq::<Seq<char>>::empty());
            assert(first_map_piece(Seq::<Seq<char>>::empty()) is None);
            assert(line.subrange(0, line.len() as int) =~= line);
            if is_map_piece(line) {
                assert(is_first_map_piece(line, 0, line.len() as int));
            }
        },
    }
}

/// The map name that `extract_map_name` finds is the trimmed text of the
/// leftmost piece (between `[`, `]` and `|`) whose trimmed text starts with
/// `de_`, and there is none exactly when no piece's trimmed text starts so.
pub proof fn map_name_is_first_map_piece(line: Seq<char>, a: int, b: int)
    ensures
        map_name(line) is None <==> forall|a2: int, b2: int|
            #![trigger is_piece(line, a2, b2)]
            is_piece(line, a2, b2) ==> !is_map_piece(line.subrange(a2, b2)),
        is_first_map_piece(line, a, b) ==> map_name(line) == Some(trim(line.subrange(a, b))),
        map_name(line) is Some ==> exists|a2: int, b2: int|
            is_first_map_piece(line, a2, b2) && map_name(line) == Some(trim(line.subrange(a2, b2))),
{
    lemma_map_name_pieces(line);
    if let Some(m) = map_name(line) {
        let (a1, b1) = choose|a1: int, b1: int|
            is_first_map_piece(line, a1, b1) && m == trim(line.subrange(a1, b1));
        assert(is_piece(line, a1, b1));
        if is_first_map_piece(line, a, b) {
            if a < a1 {
                assert(is_piece(line, a, b));
            } else if a1 < a {
                assert(is_piece(line, a1, b1));
            } else {
                lemma_piece_end_unique(line, a, b, b1);
            }
        }
    } else {
        if is_first_map_piece(line, a, b) {
            assert(is_piece(line, a, b));
        }
    }
}

/// A map name that `extract_map_name` finds starts with `de_`, has no
/// whitespace at either end and holds none of `[`, `]` and `|`.
pub proof fn map_name_is_clean(line: Seq<char>)
    ensures
        map_name(line) matches Some(m) ==> starts_with(m, "de_"@) && trim(m) == m && bracket_free(
            m,
        ),
{
    let ps = bracket_pieces(line);
    lemma_first_map_piece(ps);
    lemma_pieces_bracket_free(line);
    if let Some(m) = map_name(line) {
        let k = choose|k: int| 0 <= k < ps.len() && is_map_piece(#[trigger] ps[k]) && m == trim(ps[k]);
        assert(bracket_free(ps[k]));
        lemma_trim(ps[k]);
        lemma_trim_idempotent(ps[k]);
        let (a, b) = choose|a: int, b: int| 0 <= a <= b <= ps[k].len() && trim(ps[k]) == ps[k].subrange(a, b);
        assert forall|i: int| 0 <= i < m.len() implies !is_bracket(#[trigger] m[i]) by {
            assert(m[i] == ps[k][a + i]);
        }
    }
}

/// A line that starts (trimmed) with neither `hostname` nor `players` and
/// does not mention `spawngroup` sets none of the facts.
pub open spec fn is_quiet_line(l: Seq<char>) -> bool {
    &&& !starts_with(trim(l), "hostname"@)
    &&& !starts_with(trim(l), "players"@)
    &&& !contains(trim(l), "spawngroup"@)
}

proof fn lemma_quiet_line(facts: StatusFacts, l: Seq<char>)
    requires
        is_quiet_line(l),
    ensures
        read_status_line(facts, l) == facts,
{
}

proof fn lemma_empty_line_quiet()
    ensures
        is_quiet_line(Seq::<char>::empty()),
{
    reveal_strlit("hostname");
    reveal_strlit("players");
    reveal_strlit("spawngroup");
    let e = Seq::<char>::empty();
    assert(trim_end(e) == e);
    assert(trim_start(e) == e);
    assert(trim(e) == e);
    assert forall|i: int| !matches_at(e, "spawngroup"@, i) by {}
}

/// Reading a raw line depends only on its trimmed text, so a `'\r'` before
/// the line break does not matter.
proof fn lemma_read_strip_cr(facts: StatusFacts, l: Seq<char>)
    ensures
        read_status_line(facts, strip_cr(l)) == read_status_line(facts, l),
{
    if l.len() > 0 && l.last() == '\r' {
        assert(trim_end(l) == trim_end(l.drop_last()));
    }
}

/// With no line break in `l`, its lines are `l` alone (none when empty).
proof fn lemma_lines_single(l: Seq<char>)
    requires
        !contains(l, seq!['\n']),
    ensures
        lines(l) == (if l.len() == 0 {
            Seq::<Seq<char>>::empty()
        } else {
            seq![l]
        }),
{
    if l.len() > 0 {
        assert(!exists|i: int| is_first_match(l, seq!['\n'], i));
        assert(find(l, seq!['\n']) is None);
    }
}

/// The first line break of `s` is still the first one when text follows.
proof fn lemma_newline_find_concat(s: Seq<char>, t: Seq<char>)
    requires
        find(s, seq!['\n']) is Some,
    ensures
        find(s + t, seq!['\n']) == find(s, seq!['\n']),
{
    let p = seq!['\n'];
    let i = find(s, p).unwrap();
    crate::text::lemma_find_bounds(s, p);
    assert((s + t).subrange(i, i + 1) =~= s.subrange(i, i + 1));
    assert forall|j: int| 0 <= j < i implies !matches_at(s + t, p, j) by {
        assert((s + t).subrange(j, j + 1) =~= s.subrange(j, j + 1));
        assert(!matches_at(s, p, j));
    }
    assert(is_first_match(s + t, p, i));
    lemma_first_match_unique(s + t, p, i);
}

/// Without a line break in `s`, the first one in `s + "\n" + l` ends `s`.
proof fn lemma_newline_find_at_end(s: Seq<char>, l: Seq<char>)
    requires
        find(s, seq!['\n']) is None,
    ensures
        find(s + seq!['\n'] + l, seq!['\n']) == Some(s.len() as int),
{
    let p = seq!['\n'];
    let u = s + p + l;
    assert(u.subrange(s.len() as int, s.len() as int + 1) =~= p);
    assert forall|j: int| 0 <= j < s.len() implies !matches_at(u, p, j) by {
        assert(u.subrange(j, j + 1) =~= s.subrange(j, j + 1));
        if matches_at(s, p, j) {
            lemma_first_match_exists(s, p, j);
        }
    }
    assert(is_first_match(u, p, s.len() as int));
    lemma_first_match_unique(u, p, s.len() as int);
}

proof fn lemma_first_match_exists(s: Seq<char>, p: Seq<char>, j: int)
    requires
        matches_at(s, p, j),
    ensures
        exists|k: int| 0 <= k <= j && is_first_match(s, p, k),
    decreases j,
{
    if exists|k: int| 0 <= k < j && matches_at(s, p, k) {
        let k = choose|k: int| 0 <= k < j && matches_at(s, p, k);
        lemma_first_match_exists(s, p, k);
    } else {
        assert(is_first_match(s, p, j));
    }
}

/// The lines of a text without a line break, read: the text as one line
/// (an empty text, which has no lines, reads as an empty line would).
proof fn lemma_read_single(facts: StatusFacts, l: Seq<char>)
    requires
        !contains(l, seq!['\n']),
    ensures
        read_status_lines(facts, lines(l)) == read_status_line(facts, l),
{
    lemma_lines_single(l);
    if l.len() > 0 {
        assert(seq![l].drop_first() =~= Seq::<Seq<char>>::empty());
        assert(seq![l][0] == l);
        assert(read_status_lines(facts, seq![l]) == read_status_lines(
            read_status_line(facts, l),
            Seq::<Seq<char>>::empty(),
        ));
    } else {
        assert(l =~= Seq::<char>::empty());
        lemma_empty_line_quiet();
        lemma_quiet_line(facts, l);
    }
}

/// Reading `s`, a line break and a last line `l` is reading `s`, then `l`.
proof fn lemma_read_append(facts: StatusFacts, s: Seq<char>, l: Seq<char>)
    requires
        !contains(l, seq!['\n']),
    ensures
        read_status_lines(facts, lines(s + seq!['\n'] + l)) == read_status_line(
            read_status_lines(facts, lines(s)),
            l,
        ),
    decreases s.len(),
{
    let p = seq!['\n'];
    let u = s + p + l;
    lemma_read_single(facts, l);
    if s.len() == 0 {
        assert(u =~= p + l);
        lemma_newline_find_at_end(s, l);
        assert(u.take(0) =~= Seq::<char>::empty());
        assert(strip_cr(Seq::<char>::empty()) =~= Seq::<char>::empty());
        assert(u.skip(1) =~= l);
        lemma_empty_line_quiet();
        let ls = lines(u);
        assert(ls == seq![Seq::<char>::empty()] + lines(l));
        assert(ls.drop_first() =~= lines(l));
        lemma_quiet_line(facts, Seq::<char>::empty());
        assert(read_status_lines(facts, ls) == read_status_lines(facts, lines(l)));
        assert(lines(s) =~= Seq::<Seq<char>>::empty());
    } else {
        match find(s, p) {
            Some(i) => {
                crate::text::lemma_find_bounds(s, p);
                assert(u =~= s + (p + l));
                lemma_newline_find_concat(s, p + l);
                let rest = s.skip(i + 1);
                assert(u.take(i) =~= s.take(i));
                assert(u.skip(i + 1) =~= rest + p + l);
                lemma_read_append(read_status_line(facts, strip_cr(s.take(i))), rest, l);
                let lu = lines(u);
                let ls = lines(s);
                assert(lu == seq![strip_cr(s.take(i))] + lines(rest + p + l));
                assert(ls == seq![strip_cr(s.take(i))] + lines(rest));
                assert(lu.drop_first() =~= lines(rest + p + l));
                assert(ls.drop_first() =~= lines(rest));
            },
            None => {
                lemma_newline_find_at_end(s, l);
                assert(u.take(s.len() as int) =~= s);
                assert(u.skip(s.len() as int + 1) =~= l);
                let lu = lines(u);
                assert(lu == seq![strip_cr(s)] + lines(l));
                assert(lu.drop_first() =~= lines(l));
                lemma_read_strip_cr(facts, s);
                let f2 = read_status_line(facts, s);
                assert(lines(s) == seq![s]);
                assert(seq![s].drop_first() =~= Seq::<Seq<char>>::empty());
                assert(seq![s][0] == s);
                assert(read_status_lines(facts, seq![s]) == read_status_lines(
                    f2,
                    Seq::<Seq<char>>::empty(),
                ));
                assert(read_status_lines(f2, Seq::<Seq<char>>::empty()) == f2);
                assert(read_status_lines(facts, lines(s)) == f2);
                lemma_read_single(f2, l);
                assert(read_status_lines(facts, lu) == read_status_lines(f2, lines(l)));
            },
        }
    }
}

/// Appending, after a line break, a line that starts (trimmed) with neither
/// `hostname` nor `players` and does not mention `spawngroup` changes nothing
/// that the status output says: `parse_server_status` describes the same
/// state for both texts.
pub proof fn quiet_line_changes_nothing(input: Seq<char>, l: Seq<char>, s: ServerState)
    requires
        !contains(l, seq!['\n']),
        is_quiet_line(l),
    ensures
        status_facts(input + seq!['\n'] + l) == status_facts(input),
        players_fit(input + seq!['\n'] + l) == players_fit(input),
        describes(s, input + seq!['\n'] + l) == describes(s, input),
{
    lemma_read_append(no_facts(), input, l);
    lemma_quiet_line(status_facts(input), l);
}

/// A line with a map name mentions `de_`.
proof fn lemma_map_name_has_de(t: Seq<char>)
    ensures
        map_name(t) is Some ==> contains(t, "de_"@),
{
    map_name_is_first_map_piece(t, 0, 0);
    if let Some(m) = map_name(t) {
        let (a, b) = choose|a: int, b: int|
            is_first_map_piece(t, a, b) && map_name(t) == Some(trim(t.subrange(a, b)));
        let piece = t.subrange(a, b);
        lemma_trim(piece);
        let (c, d) = choose|c: int, d: int|
            0 <= c <= d <= piece.len() && trim(piece) == piece.subrange(c, d);
        reveal_strlit("de_");
        assert(m.subrange(0, 3) =~= t.subrange(a + c, a + c + 3));
        assert(matches_at(t, "de_"@, a + c));
    }
}

/// A last line that, trimmed, mentions `spawngroup` (anywhere) and holds a map
/// name `m` makes `m` the map, whatever comes before it on the line or in the
/// output.
pub proof fn map_line_sets_map(input: Seq<char>, l: Seq<char>, m: Seq<char>, s: ServerState)
    requires
        !contains(l, seq!['\n']),
        contains(trim(l), "spawngroup"@),
        map_name(trim(l)) == Some(m),
    ensures
        status_facts(input + seq!['\n'] + l).1 == Some(m),
        describes(s, input + seq!['\n'] + l) ==> s.map.deep_view() == Some(m),
        status_facts(l).1 == Some(m),
        describes(s, l) ==> s.map.deep_view() == Some(m),
{
    lemma_read_append(no_facts(), input, l);
    lemma_read_single(no_facts(), l);
    lemma_map_name_has_de(trim(l));
}

/// What one more line (after a line break) changes in what a status output
/// says: the server is running once a trimmed line starts with `hostname`; a
/// trimmed line that starts with `players` and mentions `humans` sets both
/// counts to the numbers before `humans` and `bots`; a trimmed line that
/// mentions `spawngroup` and holds a map name sets the map. Nothing else
/// changes.
pub proof fn appended_line_effects(input: Seq<char>, l: Seq<char>)
    requires
        !contains(l, seq!['\n']),
    ensures
        ({
            let before = status_facts(input);
            let after = status_facts(input + seq!['\n'] + l);
            let t = trim(l);
            &&& after.0 == (before.0 || starts_with(t, "hostname"@))
            &&& if starts_with(t, "players"@) && contains(t, "humans"@) {
                after.2 == number_before(t, "humans"@) && after.3 == number_before(t, "bots"@)
            } else {
                after.2 == before.2 && after.3 == before.3
            }
            &&& if contains(t, "spawngroup"@) && map_name(t) is Some {
                after.1 == map_name(t)
            } else {
                after.1 == before.1
            }
        }),
{
    lemma_read_append(no_facts(), input, l);
    lemma_map_name_has_de(trim(l));
}

/// `e` is where the text before `word` ends: at the first occurrence of
/// `word`, or at the end of the line when it does not occur.
pub open spec fn ends_before(line: Seq<char>, word: Seq<char>, e: int) -> bool {
    is_first_match(line, word, e) || (!contains(line, word) && e == line.len())
}

/// `extract_number_before` reads the last word before the first occurrence of
/// `word` (before the end when `word` does not occur) as a `u32`, and finds
/// nothing when only whitespace precedes it.
pub proof fn number_before_law(line: Seq<char>, word: Seq<char>, e: int, a: int, b: int)
    requires
        ends_before(line, word, e),
    ensures
        is_last_word_at(line.take(e), a, b) ==> number_before(line, word) == match parse_unsigned(
            line.subrange(a, b),
            u32::MAX as nat,
        ) {
            Some(n) => Some(n as u32),
            None => None,
        },
        all_ws(line.take(e)) ==> number_before(line, word) is None,
{
    if is_first_match(line, word, e) {
        lemma_first_match_unique(line, word, e);
    } else {
        assert(!exists|i: int| is_first_match(line, word, i));
        assert(line.take(e) =~= line);
    }
    assert(text_before(line, word) == line.take(e));
    last_word_law(line.take(e), a, b);
    if is_last_word_at(line.take(e), a, b) {
        assert(line.take(e).subrange(a, b) =~= line.subrange(a, b));
    }
}

/// `str::lines`: a text without a line break is one line (none when empty),
/// and a text that starts with a line `l` and a line break has `l` (without
/// a `'\r'` just before the break) as its first line, followed by the lines of
/// the rest.
pub proof fn lines_law(l: Seq<char>, rest: Seq<char>)
    requires
        !contains(l, seq!['\n']),
    ensures
        lines(l) == (if l.len() == 0 {
            Seq::<Seq<char>>::empty()
        } else {
            seq![l]
        }),
        lines(l + seq!['\n'] + rest) == seq![strip_cr(l)] + lines(rest),
{
    lemma_lines_single(l);
    if find(l, seq!['\n']) is Some {
        crate::text::lemma_find_bounds(l, seq!['\n']);
    }
    lemma_newline_find_at_end(l, rest);
    let u = l + seq!['\n'] + rest;
    assert(u.take(l.len() as int) =~= l);
    assert(u.skip(l.len() as int + 1) =~= rest);
}

} // verus!
