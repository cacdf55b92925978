//! A remote player for the card game 6 Nimmt! (Take 5).
//!
//! The crate holds the game's own rules (cards, stacks, the board, dealing and
//! stacking) and the engine that lets a remote process play it: the tagged
//! wire messages with their array encoding, the streaming decoder, the
//! turn-sequencing state machine and the adapter between validated messages
//! and a player.

pub mod ai_player;
pub mod args;
pub mod board;
pub mod card;
pub mod client;
pub mod configuration;
pub mod custom_dealer;
pub mod dealer;
pub mod decode;
pub mod encode;
pub mod error;
pub mod game;
pub mod game_state;
pub mod grammar;
pub mod lexer;
pub mod message;
pub mod player;
pub mod player_proxy;
pub mod roundtrip;
pub mod stack;
pub mod standard_dealer;
pub mod starting_hand;
pub mod stdin_player;
pub mod stream;
pub mod text;
pub mod token;
pub mod validation;

pub use board::{Board, StackId};
pub use card::Card;
pub use client::Client;
pub use configuration::Configuration;
pub use dealer::Dealer;
pub use game::Game;
pub use game_state::GameState;
pub use player::Player;
pub use stack::Stack;
