use vstd::prelude::*;

verus! {

/// The parameters of a game. One value is built at start-up and handed by
/// reference to every component that needs it.
#[derive(Clone, Copy, Debug)]
pub struct Configuration {
    pub turn_count: usize,
    pub stack_size: usize,
    pub win_score: u32,
    pub deck_size: u8,
    pub bull_range: (u8, u8),
}

impl Configuration {
    /// The configuration of the standard game: ten turns a round, stacks of
    /// five, a winning score of 66, and 104 cards worth one to seven bulls.
    pub open spec fn standard() -> Configuration {
        Configuration {
            turn_count: 10,
            stack_size: 5,
            win_score: 66,
            deck_size: 104,
            bull_range: (1, 7),
        }
    }

    /// Builds a configuration from its five parameters.
    pub fn new(
        turn_count: usize,
        stack_size: usize,
        win_score: u32,
        deck_size: u8,
        bull_range: (u8, u8),
    ) -> (config: Configuration)
        ensures
            config == (Configuration { turn_count, stack_size, win_score, deck_size, bull_range }),
    {
        Configuration { turn_count, stack_size, win_score, deck_size, bull_range }
    }

    /// Returns the number of turns per round.
    pub fn turn_count(&self) -> (n: usize)
        ensures
            n == self.turn_count,
    {
        self.turn_count
    }

    /// Returns the size at which a stack on the board is full.
    pub fn stack_size(&self) -> (n: usize)
        ensures
            n == self.stack_size,
    {
        self.stack_size
    }

    /// Returns the score at which the game ends after a round, unless there
    /// is a tie.
    pub fn win_score(&self) -> (n: u32)
        ensures
            n == self.win_score,
    {
        self.win_score
    }

    /// Returns the number of cards in a deck.
    pub fn deck_size(&self) -> (n: u8)
        ensures
            n == self.deck_size,
    {
        self.deck_size
    }

    /// Returns the allowed bull values as `(lower, upper)`, both inclusive.
    pub fn bull_range(&self) -> (range: (u8, u8))
        ensures
            range == self.bull_range,
    {
        self.bull_range
    }
}

impl Default for Configuration {
    /// The configuration of the standard game.
    fn default() -> (config: Configuration)
        ensures
            config == Configuration::standard(),
    {
        Configuration {
            turn_count: 10,
            stack_size: 5,
            win_score: 66,
            deck_size: 104,
            bull_range: (1, 7),
        }
    }
}

} // verus!
