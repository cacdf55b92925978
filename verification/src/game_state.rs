use crate::error::Error;
use crate::message::{RequestMessage, Tag};
use vstd::prelude::*;

verus! {

/// The number of turns in a round of the protocol.
pub const ROUND_TURNS: usize = 10;

/// Represents the possible states a client can be in while playing. The
/// state determines which messages may come next.
#[derive(Copy, Clone, Debug, PartialEq, Eq, Structural)]
pub enum GameState {
    /// Expects a `start-round` message next.
    StartingRound,
    /// Expects a `take-turn` message next.
    FirstTurn,
    /// Expects either a `take-turn` or a `choose` message next. The number
    /// counts the turns taken in this round and lies in `1..=9`: before the
    /// first turn the state is `FirstTurn`, and a round has ten turns. The
    /// flag says whether the player has chosen a stack since the last turn.
    Turns(usize, bool),
    /// State for immediately after the last card of a round was played.
    /// Expects either a `choose` message or a `start-round`.
    TookLastTurn,
}

impl GameState {
    /// Whether the state is one that a game can be in.
    pub open spec fn wf(self) -> bool {
        match self {
            GameState::Turns(n, _) => 1 <= n < ROUND_TURNS,
            _ => true,
        }
    }

    /// The state after one more turn, when `taken` turns of the round were
    /// taken before it.
    pub open spec fn turn_taken(taken: usize) -> GameState {
        if taken + 1 < ROUND_TURNS {
            GameState::Turns((taken + 1) as usize, false)
        } else {
            GameState::TookLastTurn
        }
    }

    /// The transition table: the state that follows when a message of the
    /// given kind arrives, if the state accepts it.
    pub open spec fn after(self, tag: Tag) -> Option<GameState> {
        match (self, tag) {
            (GameState::StartingRound, Tag::StartRound) => Some(GameState::FirstTurn),
            (GameState::FirstTurn, Tag::TakeTurn) => Some(GameState::turn_taken(0)),
            (GameState::Turns(n, _), Tag::TakeTurn) => Some(GameState::turn_taken(n)),
            (GameState::Turns(n, false), Tag::Choose) => Some(GameState::Turns(n, true)),
            (GameState::TookLastTurn, Tag::StartRound) => Some(GameState::FirstTurn),
            (GameState::TookLastTurn, Tag::Choose) => Some(GameState::StartingRound),
            _ => None,
        }
    }

    /// The number of turns of the round that are still to be taken.
    pub open spec fn turns_left(self) -> nat {
        match self {
            GameState::StartingRound => 0,
            GameState::FirstTurn => ROUND_TURNS as nat,
            GameState::Turns(n, _) => if n < ROUND_TURNS {
                (ROUND_TURNS - n) as nat
            } else {
                0
            },
            GameState::TookLastTurn => 0,
        }
    }

    /// Given a message, returns the next state for the game. If the message
    /// is not valid for the current state of the game this function returns
    /// `Err`.
    pub fn next_state(&self, message: &RequestMessage) -> (result: Result<GameState, Error>)
        ensures
            match result {
                Ok(next) => self.after(message@.tag()) == Some(next),
                Err(e) => self.after(message@.tag()) is None && e == Error::GameState(
                    *self,
                    message@.tag(),
                ),
            },
    {
        self.accept(message.tag())
    }

    /// Returns the next state for the game when a message of the given kind
    /// arrives, or `Err` if the current state does not accept such a
    /// message.
    pub fn accept(&self, tag: Tag) -> (result: Result<GameState, Error>)
        ensures
            match result {
                Ok(next) => self.after(tag) == Some(next),
                Err(e) => self.after(tag) is None && e == Error::GameState(*self, tag),
            },
            self.wf() && result is Ok ==> result->Ok_0.wf(),
    {
        match (*self, tag) {
            (GameState::StartingRound, Tag::StartRound) => Ok(GameState::FirstTurn),
            (GameState::FirstTurn, Tag::TakeTurn) => Ok(Self::take_turn(0)),
            (GameState::Turns(n, _), Tag::TakeTurn) => Ok(Self::take_turn(n)),
            (GameState::Turns(n, false), Tag::Choose) => Ok(GameState::Turns(n, true)),
            (GameState::TookLastTurn, Tag::StartRound) => Ok(GameState::FirstTurn),
            (GameState::TookLastTurn, Tag::Choose) => Ok(GameState::StartingRound),
            _ => Err(Error::GameState(*self, tag)),
        }
    }

    /// Returns the state after one more turn.
    pub fn take_turn(taken: usize) -> (next: GameState)
        ensures
            next == GameState::turn_taken(taken),
    {
        if taken < ROUND_TURNS - 1 {
            GameState::Turns(taken + 1, false)
        } else {
            GameState::TookLastTurn
        }
    }
}

/// The state after messages of the given kinds arrived in order, if each
/// was accepted in its turn.
pub open spec fn after_all(state: GameState, tags: Seq<Tag>) -> Option<GameState>
    decreases tags.len(),
{
    if tags.len() == 0 {
        Some(state)
    } else {
        match state.after(tags[0]) {
            Some(next) => after_all(next, tags.skip(1)),
            None => None,
        }
    }
}

/// Some turns, one behind the other.
pub open spec fn turns(count: nat) -> Seq<Tag> {
    Seq::new(count, |i: int| Tag::TakeTurn)
}

/// A message that is accepted leads from a state of the protocol to a state
/// of the protocol. A turn leaves one turn less to take in the round, the
/// start of a round leaves ten, and a choice leaves as many as there were.
pub proof fn lemma_turns_left(state: GameState, tag: Tag)
    requires
        state.wf(),
        state.after(tag) is Some,
    ensures
        state.after(tag)->0.wf(),
        match tag {
            Tag::StartRound => state.after(tag)->0.turns_left() == ROUND_TURNS,
            Tag::TakeTurn => state.after(tag)->0.turns_left() + 1 == state.turns_left(),
            Tag::Choose => state.after(tag)->0.turns_left() == state.turns_left(),
        },
{
}

/// From the first turn on, a number of turns below ten leads to the state
/// that counts them, and ten turns lead to the end of the round.
pub proof fn lemma_turns_in_a_row(count: nat)
    requires
        1 <= count <= ROUND_TURNS,
    ensures
        after_all(GameState::FirstTurn, turns(count)) == Some(
            if count < ROUND_TURNS {
                GameState::Turns(count as usize, false)
            } else {
                GameState::TookLastTurn
            },
        ),
    decreases count,
{
    lemma_more_turns(GameState::FirstTurn, 0, count);
}

/// From a state in which `taken` turns of the round were taken, all the
/// turns that are left are accepted one after the other.
proof fn lemma_more_turns(state: GameState, taken: nat, count: nat)
    requires
        taken + count <= ROUND_TURNS,
        count >= 1,
        taken == 0 ==> state == GameState::FirstTurn,
        taken > 0 ==> state is Turns && state->Turns_0 == taken,
    ensures
        after_all(state, turns(count)) == Some(
            if taken + count < ROUND_TURNS {
                GameState::Turns((taken + count) as usize, false)
            } else {
                GameState::TookLastTurn
            },
        ),
    decreases count,
{
    let next = state.after(Tag::TakeTurn)->0;
    assert(turns(count)[0] == Tag::TakeTurn);
    assert(turns(count).skip(1) == turns((count - 1) as nat));
    if count > 1 {
        lemma_more_turns(next, taken + 1, (count - 1) as nat);
    } else {
        assert(after_all(next, turns(0)) == Some(next));
    }
}

/// A round is a start and ten turns: from the state that expects a round,
/// they lead to the end of the round. There one more turn is refused, a
/// choice leads back to the state that expects a round, and the start of
/// the next round is accepted.
pub proof fn lemma_round()
    ensures
        after_all(GameState::StartingRound, seq![Tag::StartRound] + turns(ROUND_TURNS as nat))
            == Some(GameState::TookLastTurn),
        GameState::TookLastTurn.after(Tag::TakeTurn) is None,
        GameState::TookLastTurn.after(Tag::Choose) == Some(GameState::StartingRound),
        GameState::TookLastTurn.after(Tag::StartRound) == Some(GameState::FirstTurn),
{
    let tags = seq![Tag::StartRound] + turns(ROUND_TURNS as nat);
    assert(tags[0] == Tag::StartRound);
    assert(tags.skip(1) == turns(ROUND_TURNS as nat));
    lemma_turns_in_a_row(ROUND_TURNS as nat);
}

/// A player may choose once in a turn: in a state that has seen no choice
/// since the last turn a choice is accepted, and in the state that follows
/// a second choice is refused.
pub proof fn lemma_choose_once(n: usize)
    ensures
        GameState::Turns(n, false).after(Tag::Choose) == Some(GameState::Turns(n, true)),
        GameState::Turns(n, true).after(Tag::Choose) is None,
        after_all(GameState::Turns(n, false), seq![Tag::Choose, Tag::Choose]) is None,
{
    let tags = seq![Tag::Choose, Tag::Choose];
    let chosen = GameState::Turns(n, true);
    assert(tags[0] == Tag::Choose);
    assert(tags.skip(1)[0] == Tag::Choose);
    assert(tags.skip(1).len() == 1);
    assert(after_all(chosen, tags.skip(1)) is None);
    assert(after_all(GameState::Turns(n, false), tags) == after_all(chosen, tags.skip(1)));
}

} // verus!
