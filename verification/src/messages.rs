//! The texts that the coordinator hands out: the reply to the submitter of
//! an action and the events published to observers.
//!
//! Free-text events narrate what happened. Three kinds of event are meant
//! for programs that draw the boards and start with a tag: `__HIT__|`,
//! `__MISS__|` and `__FULL_STATE__|`.

use vstd::prelude::*;
use vstd::string::*;
use crate::board::{xy_pos, xy_text};
use crate::claims::Action;
use crate::errors::GameError;
use crate::fleet::FleetError;
use crate::player::{Outcome, PlayerView, Shot};
use crate::registry::Registry;
use crate::session::{Session, SessionView};
use crate::text::{decimal, push_decimal};

verus! {

/// The views of a list of strings.
pub open spec fn texts(list: Seq<String>) -> Seq<Seq<char>> {
    list.map_values(|s: String| s@)
}

/// The name of an action as it appears in events.
pub open spec fn action_name(action: Action) -> Seq<char> {
    match action {
        Action::Join => "join"@,
        Action::Fire => "fire"@,
        Action::Report => "report"@,
        Action::Wave => "wave"@,
        Action::Win => "win"@,
    }
}

/// What is wrong with a fleet, in words.
pub open spec fn fleet_error_text(fault: FleetError) -> Seq<char> {
    match fault {
        FleetError::OutOfBounds { x, y } => "Ship off the board: ("@ + decimal(x as nat) + ","@
            + decimal(y as nat) + ")"@,
        FleetError::Overlap { x, y } => "Ships overlap at: ("@ + decimal(x as nat) + ","@
            + decimal(y as nat) + ")"@,
        FleetError::WrongComposition => "Ship sizes differ from 1, 1, 2, 2, 3, 4, 5"@,
    }
}

/// Why an action was rejected, in words. Only the text for a game that is
/// not open names the game.
pub open spec fn error_text(error: GameError, game: Seq<char>) -> Seq<char> {
    match error {
        GameError::InvalidAttestation => "Could not verify receipt"@,
        GameError::DecodeFailure => "Failed to decode journal"@,
        GameError::GameNotFound => "Game "@ + game + " not found"@,
        GameError::PlayerNotFound => "Player not found"@,
        GameError::DuplicatePlayer => "Player ID is already taken"@,
        GameError::InvalidFleetLayout(fault) => "Fleet error: "@ + fleet_error_text(fault),
        GameError::NotYourTurn => "Not your turn"@,
        GameError::PendingReportExists => "A shot is waiting for its report"@,
        GameError::TargetAlreadyEliminated => "Target already eliminated"@,
        GameError::ReportMismatch => "Report does not match the pending shot"@,
        GameError::CommitmentMismatch => "Commitment mismatch"@,
        GameError::AlreadyHit => "Shot already hit"@,
        GameError::WinConditionUnmet => "Win condition not met"@,
    }
}

/// The event for an action whose attestation or record was refused.
pub open spec fn unattested_text(action: Action, error: GameError) -> Seq<char> {
    "Rejected "@ + action_name(action) + ": "@ + error_text(error, Seq::empty())
}

/// The event for an action that the rules of the game refused.
pub open spec fn rejected_text(
    action: Action,
    game: Seq<char>,
    player: Seq<char>,
    error: GameError,
) -> Seq<char> {
    "[Game "@ + game + "] Rejected "@ + action_name(action) + " by player "@ + player + ": "@
        + error_text(error, game)
}

/// The event for a newcomer.
pub open spec fn joined_text(game: Seq<char>, player: Seq<char>) -> Seq<char> {
    "[Game "@ + game + "] Player with fleet ID "@ + player + " joined"@
}

/// The event for a repeated join.
pub open spec fn rejoined_text(game: Seq<char>, player: Seq<char>) -> Seq<char> {
    "[Game "@ + game + "] Player "@ + player + " already in game"@
}

/// The event for an accepted shot.
pub open spec fn shot_text(game: Seq<char>, actor: Seq<char>, pos: u8, target: Seq<char>) -> Seq<
    char,
> {
    "[Game "@ + game + "] Player "@ + actor + " shot on position "@ + xy_text(pos as nat)
        + " of Player "@ + target
}

/// The tagged event that tells a drawing program to mark one cell.
pub open spec fn delta_text(outcome: Outcome, player: Seq<char>, pos: u8) -> Seq<char> {
    (match outcome {
        Outcome::Hit => "__HIT__|"@,
        Outcome::Miss => "__MISS__|"@,
    }) + player + "|"@ + decimal(pos as nat)
}

/// The name of the player whose turn it is, or `None` if nobody is there.
pub open spec fn name_or_none(name: Option<Seq<char>>) -> Seq<char> {
    match name {
        Some(n) => n,
        None => "None"@,
    }
}

/// The event that narrates an accepted report.
pub open spec fn resolved_text(
    game: Seq<char>,
    outcome: Outcome,
    pos: u8,
    next: Option<Seq<char>>,
) -> Seq<char> {
    "[Game "@ + game + "] "@ + (match outcome {
        Outcome::Hit => "Hit confirmed"@,
        Outcome::Miss => "Missed shot"@,
    }) + " at "@ + xy_text(pos as nat) + ". Next player: "@ + name_or_none(next)
}

/// The event for an accepted wave.
pub open spec fn waved_text(game: Seq<char>, player: Seq<char>, next: Option<Seq<char>>) -> Seq<
    char,
> {
    "[Game "@ + game + "] Player "@ + player + " waved the turn. Next player: "@ + name_or_none(
        next,
    )
}

/// The event for an accepted victory claim.
pub open spec fn won_text(game: Seq<char>, player: Seq<char>) -> Seq<char> {
    "Player "@ + player + " won the game "@ + game + "! Game over."@
}

/// The parts joined into one text, with `sep` between neighbours.
pub open spec fn joined_with(parts: Seq<Seq<char>>, sep: Seq<char>) -> Seq<char>
    decreases parts.len(),
{
    if parts.len() == 0 {
        Seq::empty()
    } else if parts.len() == 1 {
        parts[0]
    } else {
        joined_with(parts.drop_last(), sep) + sep + parts.last()
    }
}

/// One tried cell in a snapshot: its position, a colon and its mark.
pub open spec fn mark_text(pos: nat, shot: Shot) -> Seq<char> {
    decimal(pos) + ":"@ + decimal(shot.code_spec() as nat)
}

/// The tried cells among the first `n` cells of a grid, in order.
pub open spec fn marks(shots: Seq<Shot>, n: int) -> Seq<Seq<char>>
    decreases n,
{
    if n <= 0 {
        Seq::empty()
    } else if shots[n - 1] == Shot::Untried {
        marks(shots, n - 1)
    } else {
        marks(shots, n - 1).push(mark_text((n - 1) as nat, shots[n - 1]))
    }
}

/// One player in a snapshot of all games.
pub open spec fn entry_text(game: Seq<char>, player: PlayerView) -> Seq<char> {
    "GAME:"@ + game + "|PLAYER:"@ + player.id + "|HITS:"@ + decimal(player.hit_count)
        + "|SHOTS:"@ + joined_with(marks(player.shots, player.shots.len() as int), ","@)
}

/// The snapshot entries of the first `n` players of a game.
pub open spec fn session_entries(session: SessionView, n: int) -> Seq<Seq<char>>
    decreases n,
{
    if n <= 0 {
        Seq::empty()
    } else {
        session_entries(session, n - 1).push(entry_text(session.id, session.players[n - 1]))
    }
}

/// The snapshot entries of the first `n` games.
pub open spec fn entries(sessions: Seq<SessionView>, n: int) -> Seq<Seq<char>>
    decreases n,
{
    if n <= 0 {
        Seq::empty()
    } else {
        entries(sessions, n - 1) + session_entries(
            sessions[n - 1],
            sessions[n - 1].players.len() as int,
        )
    }
}

/// The tagged event that carries every player's hit count and tried cells,
/// game by game and player by player.
pub open spec fn full_state_text(sessions: Seq<SessionView>) -> Seq<char> {
    "__FULL_STATE__|"@ + joined_with(entries(sessions, sessions.len() as int), "||"@)
}

fn action_str(action: Action) -> (s: &'static str)
    ensures
        s@ == action_name(action),
{
    match action {
        Action::Join => "join",
        Action::Fire => "fire",
        Action::Report => "report",
        Action::Wave => "wave",
        Action::Win => "win",
    }
}

/// What is wrong with a fleet, in words.
pub fn fleet_error_message(fault: FleetError) -> (s: String)
    ensures
        s@ == fleet_error_text(fault),
{
    match fault {
        FleetError::OutOfBounds { x, y } => {
            let mut s = String::from_str("Ship off the board: (");
            push_decimal(&mut s, x as u64);
            s.append(",");
            push_decimal(&mut s, y as u64);
            s.append(")");
            s
        },
        FleetError::Overlap { x, y } => {
            let mut s = String::from_str("Ships overlap at: (");
            push_decimal(&mut s, x as u64);
            s.append(",");
            push_decimal(&mut s, y as u64);
            s.append(")");
            s
        },
        FleetError::WrongComposition => String::from_str(
            "Ship sizes differ from 1, 1, 2, 2, 3, 4, 5",
        ),
    }
}

/// Why an action was rejected, in words.
pub fn error_message(error: GameError, game_id: &str) -> (s: String)
    ensures
        s@ == error_text(error, game_id@),
{
    match error {
        GameError::InvalidAttestation => String::from_str("Could not verify receipt"),
        GameError::DecodeFailure => String::from_str("Failed to decode journal"),
        GameError::GameNotFound => {
            let mut s = String::from_str("Game ");
            s.append(game_id);
            s.append(" not found");
            s
        },
        GameError::PlayerNotFound => String::from_str("Player not found"),
        GameError::DuplicatePlayer => String::from_str("Player ID is already taken"),
        GameError::InvalidFleetLayout(fault) => {
            let mut s = String::from_str("Fleet error: ");
            let detail = fleet_error_message(fault);
            s.append(detail.as_str());
            s
        },
        GameError::NotYourTurn => String::from_str("Not your turn"),
        GameError::PendingReportExists => String::from_str("A shot is waiting for its report"),
        GameError::TargetAlreadyEliminated => String::from_str("Target already eliminated"),
        GameError::ReportMismatch => String::from_str("Report does not match the pending shot"),
        GameError::CommitmentMismatch => String::from_str("Commitment mismatch"),
        GameError::AlreadyHit => String::from_str("Shot already hit"),
        GameError::WinConditionUnmet => String::from_str("Win condition not met"),
    }
}

/// The event for an action whose attestation or record was refused.
pub fn unattested_event(action: Action, error: GameError) -> (s: String)
    ensures
        s@ == unattested_text(action, error),
{
    let mut s = String::from_str("Rejected ");
    s.append(action_str(action));
    s.append(": ");
    let empty = String::new();
    let why = error_message(error, empty.as_str());
    s.append(why.as_str());
    s
}

/// The event for an action that the rules of the game refused.
pub fn rejected_event(action: Action, game_id: &String, player_id: &String, error: GameError) -> (s:
    String)
    ensures
        s@ == rejected_text(action, game_id@, player_id@, error),
{
    let mut s = String::from_str("[Game ");
    s.append(game_id.as_str());
    s.append("] Rejected ");
    s.append(action_str(action));
    s.append(" by player ");
    s.append(player_id.as_str());
    s.append(": ");
    let why = error_message(error, game_id.as_str());
    s.append(why.as_str());
    s
}

/// The event for a newcomer.
pub fn joined_event(game_id: &String, player_id: &String) -> (s: String)
    ensures
        s@ == joined_text(game_id@, player_id@),
{
    let mut s = String::from_str("[Game ");
    s.append(game_id.as_str());
    s.append("] Player with fleet ID ");
    s.append(player_id.as_str());
    s.append(" joined");
    s
}

/// The event for a repeated join.
pub fn rejoined_event(game_id: &String, player_id: &String) -> (s: String)
    ensures
        s@ == rejoined_text(game_id@, player_id@),
{
    let mut s = String::from_str("[Game ");
    s.append(game_id.as_str());
    s.append("] Player ");
    s.append(player_id.as_str());
    s.append(" already in game");
    s
}

/// The event for an accepted shot.
pub fn shot_event(game_id: &String, actor: &String, pos: u8, target: &String) -> (s: String)
    ensures
        s@ == shot_text(game_id@, actor@, pos, target@),
{
    let mut s = String::from_str("[Game ");
    s.append(game_id.as_str());
    s.append("] Player ");
    s.append(actor.as_str());
    s.append(" shot on position ");
    let at = xy_pos(pos);
    s.append(at.as_str());
    s.append(" of Player ");
    s.append(target.as_str());
    s
}

/// The tagged event that tells a drawing program to mark one cell.
pub fn delta_event(outcome: Outcome, player_id: &String, pos: u8) -> (s: String)
    ensures
        s@ == delta_text(outcome, player_id@, pos),
{
    let mut s = match outcome {
        Outcome::Hit => String::from_str("__HIT__|"),
        Outcome::Miss => String::from_str("__MISS__|"),
    };
    s.append(player_id.as_str());
    s.append("|");
    push_decimal(&mut s, pos as u64);
    s
}

fn push_name_or_none(s: &mut String, name: &Option<String>)
    ensures
        final(s)@ == old(s)@ + name_or_none(
            match *name {
                Some(n) => Some(n@),
                None => None,
            },
        ),
{
    match name {
        Some(n) => {
            s.append(n.as_str());
        },
        None => {
            s.append("None");
        },
    }
}

/// The event that narrates an accepted report.
pub fn resolved_event(game_id: &String, outcome: Outcome, pos: u8, next: &Option<String>) -> (s:
    String)
    ensures
        s@ == resolved_text(
            game_id@,
            outcome,
            pos,
            match *next {
                Some(n) => Some(n@),
                None => None,
            },
        ),
{
    let mut s = String::from_str("[Game ");
    s.append(game_id.as_str());
    s.append("] ");
    match outcome {
        Outcome::Hit => {
            s.append("Hit confirmed");
        },
        Outcome::Miss => {
            s.append("Missed shot");
        },
    }
    s.append(" at ");
    let at = xy_pos(pos);
    s.append(at.as_str());
    s.append(". Next player: ");
    push_name_or_none(&mut s, next);
    s
}

/// The event for an accepted wave.
pub fn waved_event(game_id: &String, player_id: &String, next: &Option<String>) -> (s: String)
    ensures
        s@ == waved_text(
            game_id@,
            player_id@,
            match *next {
                Some(n) => Some(n@),
                None => None,
            },
        ),
{
    let mut s = String::from_str("[Game ");
    s.append(game_id.as_str());
    s.append("] Player ");
    s.append(player_id.as_str());
    s.append(" waved the turn. Next player: ");
    push_name_or_none(&mut s, next);
    s
}

/// The event for an accepted victory claim.
pub fn won_event(game_id: &String, player_id: &String) -> (s: String)
    ensures
        s@ == won_text(game_id@, player_id@),
{
    let mut s = String::from_str("Player ");
    s.append(player_id.as_str());
    s.append(" won the game ");
    s.append(game_id.as_str());
    s.append("! Game over.");
    s
}

/// Joins the parts into one text, with `sep` between neighbours.
pub fn join_texts(parts: &Vec<String>, sep: &str) -> (s: String)
    ensures
        s@ == joined_with(texts(parts@), sep@),
{
    let mut s = String::new();
    let mut i: usize = 0;
    while i < parts.len()
        invariant
            i <= parts@.len(),
            s@ == joined_with(texts(parts@).subrange(0, i as int), sep@),
        decreases parts@.len() - i,
    {
        let ghost done = texts(parts@).subrange(0, i as int);
        let ghost more = texts(parts@).subrange(0, i + 1);
        proof {
            assert(more.drop_last() =~= done);
            assert(more.last() == parts@[i as int]@);
        }
        if i > 0 {
            s.append(sep);
        }
        s.append(parts[i].as_str());
        proof {
            if i == 0 {
                assert(s@ =~= parts@[0]@);
                assert(more[0] == parts@[0]@);
            }
        }
        i = i + 1;
    }
    proof {
        assert(texts(parts@).subrange(0, parts@.len() as int) =~= texts(parts@));
    }
    s
}

/// The tried cells of a grid as snapshot marks.
fn marks_of(shots: &Vec<Shot>) -> (list: Vec<String>)
    ensures
        texts(list@) == marks(shots@, shots@.len() as int),
{
    let mut list: Vec<String> = Vec::new();
    let mut i: usize = 0;
    proof {
        assert(texts(list@) =~= marks(shots@, 0));
    }
    while i < shots.len()
        invariant
            i <= shots@.len(),
            texts(list@) == marks(shots@, i as int),
        decreases shots@.len() - i,
    {
        let shot: Shot = shots[i];
        if shot != Shot::Untried {
            let mut m = String::new();
            push_decimal(&mut m, i as u64);
            m.append(":");
            push_decimal(&mut m, shot.code() as u64);
            let ghost before = list@;
            list.push(m);
            proof {
                assert(m@ =~= mark_text(i as nat, shot));
                assert(texts(list@) =~= texts(before).push(m@));
            }
        }
        i = i + 1;
    }
    list
}

/// One player in a snapshot of all games.
fn entry(game_id: &String, player_id: &String, hits: u32, shots: &Vec<Shot>) -> (s: String)
    ensures
        s@ == "GAME:"@ + game_id@ + "|PLAYER:"@ + player_id@ + "|HITS:"@ + decimal(hits as nat)
            + "|SHOTS:"@ + joined_with(marks(shots@, shots@.len() as int), ","@),
{
    let mut s = String::from_str("GAME:");
    s.append(game_id.as_str());
    s.append("|PLAYER:");
    s.append(player_id.as_str());
    s.append("|HITS:");
    push_decimal(&mut s, hits as u64);
    s.append("|SHOTS:");
    let list = marks_of(shots);
    let all = join_texts(&list, ",");
    s.append(all.as_str());
    s
}

/// Appends the snapshot entries of every player of a game.
fn push_entries(list: &mut Vec<String>, session: &Session)
    ensures
        texts(final(list)@) == texts(old(list)@) + session_entries(
            session@,
            session@.players.len() as int,
        ),
{
    let mut j: usize = 0;
    proof {
        assert(texts(list@) =~= texts(old(list)@) + session_entries(session@, 0));
    }
    while j < session.player_count()
        invariant
            j <= session@.players.len(),
            texts(list@) == texts(old(list)@) + session_entries(session@, j as int),
        decreases session@.players.len() - j,
    {
        let player = session.player_at(j);
        let shots = player.shots();
        let e = entry(session.id(), player.id(), player.hit_count(), &shots);
        let ghost before = list@;
        list.push(e);
        proof {
            assert(e@ == entry_text(session@.id, session@.players[j as int]));
            assert(texts(list@) =~= texts(before).push(e@));
            assert(texts(list@) =~= texts(old(list)@) + session_entries(session@, j + 1));
        }
        j = j + 1;
    }
}

/// The tagged event that carries every player's hit count and tried cells.
pub fn full_state_event(registry: &Registry) -> (s: String)
    ensures
        s@ == full_state_text(registry@.sessions),
{
    let mut list: Vec<String> = Vec::new();
    let mut i: usize = 0;
    proof {
        assert(texts(list@) =~= entries(registry@.sessions, 0));
    }
    while i < registry.session_count()
        invariant
            i <= registry@.sessions.len(),
            texts(list@) == entries(registry@.sessions, i as int),
        decreases registry@.sessions.len() - i,
    {
        push_entries(&mut list, registry.session_at(i));
        i = i + 1;
    }
    let mut s = String::from_str("__FULL_STATE__|");
    let all = join_texts(&list, "||");
    s.append(all.as_str());
    s
}

} // verus!
