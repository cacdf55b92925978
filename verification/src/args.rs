use crate::ai_player::AiPlayer;
use crate::card::Card;
use crate::dealer::Dealer;
use crate::player::Player;
use crate::standard_dealer::StandardDealer;
use vstd::prelude::*;

verus! {

/// Command line arguments for the game.
#[derive(Debug)]
pub struct Args {
    /// Number of players to create.
    pub arg_players: u8,
    /// Optional configuration file.
    pub flag_conf: Option<String>,
    /// Optional bull value mapping.
    pub flag_bulls: Option<String>,
    /// If the game should be played with human players.
    pub flag_human: bool,
}

impl Args {
    /// Whether the arguments are in order: the game takes two to ten
    /// players.
    pub open spec fn valid(&self) -> bool {
        2 <= self.arg_players <= 10
    }

    /// Returns whether the arguments are in order.
    pub fn validate(&self) -> (valid: bool)
        ensures
            valid == self.valid(),
    {
        !(self.arg_players < 2 || self.arg_players > 10)
    }
}

/// Returns the dealer of the standard game, who has not opened a deck
/// yet.
pub fn dealer(_args: &Args) -> (dealer: StandardDealer)
    ensures
        dealer.deck() == Seq::<Card>::empty(),
{
    StandardDealer::default()
}

/// Returns as many computer players as the arguments ask for. They are
/// numbered from zero and hold no cards.
pub fn players(args: &Args) -> (players: Vec<AiPlayer>)
    ensures
        players@.len() == args.arg_players,
        forall|k: int|
            0 <= k < players@.len() ==> {
                &&& (#[trigger] players@[k]).ident() == k
                &&& players@[k].holding() == Seq::<Card>::empty()
                &&& players@[k].taken() == Seq::<Card>::empty()
            },
{
    let mut players: Vec<AiPlayer> = Vec::new();
    let mut id: u8 = 0;
    while id < args.arg_players
        invariant
            id <= args.arg_players,
            players@.len() == id,
            forall|k: int|
                0 <= k < players@.len() ==> {
                    &&& (#[trigger] players@[k]).ident() == k
                    &&& players@[k].holding() == Seq::<Card>::empty()
                    &&& players@[k].taken() == Seq::<Card>::empty()
                },
        decreases args.arg_players - id,
    {
        players.push(AiPlayer::new(id));
        id += 1;
    }
    players
}

} // verus!
