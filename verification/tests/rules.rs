use take5::ai_player::AiPlayer;
use take5::board::{Board, StackId};
use take5::card::{sort_descending, Card};
use take5::configuration::Configuration;
use take5::custom_dealer::CustomDealer;
use take5::dealer::{find_player, placement, replace, sort_played, Dealer, Placement};
use take5::game::{play_cards, show_played, sort_by_score, Game};
use take5::player::{count_bulls, Player};
use take5::stack::{wide_bulls, Stack};
use take5::standard_dealer::{standard_bull, StandardDealer};

/// A card of a deck that has every face from 1 to 255 and every bull value.
fn make_card(face: u8, bull: u8) -> Card {
    Card::new(face, bull, &Configuration::new(10, 5, 66, 255, (0, 255))).unwrap()
}

fn config() -> Configuration {
    Configuration::default()
}

fn deck(bull: u8) -> Vec<Card> {
    Card::deck(move |_| bull, &config())
}

fn stack(faces: &[u8]) -> Stack {
    Stack::new(faces.iter().map(|&face| make_card(face, 1)).collect()).unwrap()
}

fn board(tops: [&[u8]; 4]) -> Board {
    Board::new([stack(tops[0]), stack(tops[1]), stack(tops[2]), stack(tops[3])])
}

#[test]
fn the_configuration_of_the_standard_game() {
    let config = Configuration::default();
    assert_eq!(10, config.turn_count());
    assert_eq!(5, config.stack_size());
    assert_eq!(66, config.win_score());
    assert_eq!(104, config.deck_size());
    assert_eq!((1, 7), config.bull_range());
    let other = Configuration::new(3, 4, 5, 6, (7, 8));
    assert_eq!(3, other.turn_count());
    assert_eq!(4, other.stack_size());
    assert_eq!(5, other.win_score());
    assert_eq!(6, other.deck_size());
    assert_eq!((7, 8), other.bull_range());
}

#[test]
fn a_deck_holds_each_face_once_by_rising_value() {
    let deck = Card::deck(|face| if face < 52 { 4 } else { 3 }, &config());
    assert_eq!(deck.len(), config().deck_size() as usize);
    assert_eq!(deck[30].bull(), 4);
    assert_eq!(deck[70].bull(), 3);
    assert_eq!(deck[0].face(), 1);
    assert_eq!(deck[54].face(), 55);
    assert_eq!(deck[103].face(), 104);
    for (i, card) in deck.iter().enumerate() {
        assert_eq!(i + 1, card.face() as usize);
    }
    let full = Card::deck(|_| 0, &Configuration::new(10, 5, 66, 255, (0, 0)));
    assert_eq!(255, full.len());
    assert_eq!(255, full[254].face());
    assert!(Card::deck(|_| 0, &Configuration::new(10, 5, 66, 0, (0, 0))).is_empty());
}

#[test]
fn a_stack_is_full_at_the_size_of_the_configuration() {
    let mut deck = deck(3);
    let mut stack = Stack::default();
    assert!(!stack.full(&config()));
    assert!(stack.is_empty());
    assert_eq!(None, stack.last());
    for _ in 0..config().stack_size() {
        stack.push(deck.pop().unwrap(), &config());
    }
    assert!(stack.full(&config()));
    assert_eq!(stack.len(), config().stack_size());
    assert_eq!(15, stack.bulls());
    assert_eq!(Some(make_card(100, 3)), stack.last());
    let cards = stack.give();
    assert_eq!(cards.len(), 5);
    assert_eq!(stack.len(), 0);
    assert_eq!(0, stack.bulls());
    assert_eq!(make_card(104, 3), cards[0]);
    assert_eq!(make_card(100, 3), cards[4]);
}

#[test]
fn bulls_are_summed_over_the_cards() {
    let stack = Stack::new(vec![make_card(1, 7), make_card(2, 255), make_card(3, 0)]).unwrap();
    assert_eq!(262, stack.bulls());
    assert_eq!(262, wide_bulls(stack.cards()));
    assert_eq!(262, count_bulls(stack.cards()));
    let light = Stack::new(vec![make_card(9, 200), make_card(8, 61)]).unwrap();
    assert!(light.fewer_bulls_than(&stack));
    assert!(!stack.fewer_bulls_than(&light));
    assert!(!stack.fewer_bulls_than(&stack));
    assert!(Stack::default().fewer_bulls_than(&light));
}

#[test]
fn a_card_goes_on_the_stack_closest_below_it() {
    let mut deck = deck(3);
    let mut board = Board::default();
    for id in StackId::all().iter() {
        board.push(*id, deck.remove(1), &config());
    }
    let card0 = deck.remove(0);
    let card1 = deck.remove(0);
    assert_eq!(board.closest_smaller(&card0), None);
    assert_eq!(board.closest_smaller(&card1), Some(StackId::D));

    let board = self::board([&[10], &[40], &[30, 35], &[20]]);
    let at = |face| board.closest_smaller(&make_card(face, 1));
    assert_eq!(None, at(5));
    assert_eq!(None, at(10));
    assert_eq!(Some(StackId::A), at(11));
    assert_eq!(Some(StackId::A), at(20));
    assert_eq!(Some(StackId::D), at(21));
    assert_eq!(Some(StackId::D), at(35));
    assert_eq!(Some(StackId::C), at(36));
    assert_eq!(Some(StackId::C), at(40));
    assert_eq!(Some(StackId::B), at(41));
    assert_eq!(Some(StackId::B), at(104));
    // Of stacks with the same top card, the last one takes the card.
    let twins = self::board([&[10], &[30], &[30], &[20]]);
    assert_eq!(Some(StackId::C), twins.closest_smaller(&make_card(31, 1)));
}

#[test]
fn the_board_is_cleared_stack_by_stack() {
    let mut board = board([&[1], &[2, 3], &[4], &[5]]);
    assert!(!board[StackId::A].is_empty());
    assert_eq!(2, board.stack(StackId::B).len());
    assert_eq!(vec![make_card(2, 1), make_card(3, 1)], board.give(StackId::B));
    assert!(board[StackId::B].is_empty());
    assert_eq!(1, board[StackId::C].len());
    board.clear();
    for id in StackId::all().iter() {
        assert!(board[*id].is_empty());
    }
    assert_eq!(
        [StackId::A, StackId::B, StackId::C, StackId::D],
        StackId::all()
    );
    let taken = self::board([&[1], &[2, 3], &[4], &[5]]).take(StackId::B);
    assert_eq!(&vec![make_card(2, 1), make_card(3, 1)], taken.cards());
}

#[test]
fn cards_are_sorted_by_face_and_then_by_bulls() {
    let cards = vec![
        make_card(5, 1),
        make_card(9, 2),
        make_card(5, 3),
        make_card(1, 7),
        make_card(9, 1),
    ];
    let sorted = sort_descending(&cards);
    assert_eq!(
        vec![
            make_card(9, 2),
            make_card(9, 1),
            make_card(5, 3),
            make_card(5, 1),
            make_card(1, 7),
        ],
        sorted
    );
    let mut by_std = cards.clone();
    by_std.sort_by(|a, b| b.cmp(a));
    assert_eq!(by_std, sorted);
    assert!(make_card(5, 1).lower_than(&make_card(5, 3)));
    assert!(make_card(4, 9).lower_than(&make_card(5, 3)));
    assert!(!make_card(5, 3).lower_than(&make_card(5, 3)));
    assert!(sort_descending(&Vec::new()).is_empty());
}

#[test]
fn the_ai_plays_its_lowest_card_and_keeps_the_rest_in_order() {
    let mut ai = AiPlayer::new(1);
    assert_eq!(ai.id(), 1);
    assert_eq!("AI Player 1", ai.name());
    assert_eq!("AI Player 255", AiPlayer::new(255).name());
    assert!(ai.hand().is_empty());
    assert!(ai.pile().is_empty());
    for face in [40, 7, 99, 8, 23] {
        ai.draw(make_card(face, 3));
    }
    assert_eq!(ai.hand().len(), 5);
    assert_eq!(make_card(7, 3), ai.play());
    let left: Vec<u8> = ai.hand().iter().map(|card| card.face()).collect();
    assert_eq!(vec![99, 40, 23, 8], left);
    assert_eq!(make_card(8, 3), ai.play());
    assert_eq!(3, ai.hand().len());
    ai.look_at_played(&[(make_card(8, 3), 1)]);
    ai.look_at_taken((&[make_card(8, 3)], 1));
    assert_eq!(3, ai.hand().len());

    let mut deck = deck(3);
    deck.split_off(5);
    ai.take(deck);
    assert_eq!(ai.pile().len(), 5);
    assert_eq!(ai.score(), 15);
    ai.take(vec![make_card(55, 7)]);
    assert_eq!(ai.score(), 22);
    assert_eq!(make_card(55, 7), ai.pile()[5]);
}

#[test]
fn the_ai_takes_the_stack_with_the_fewest_bulls() {
    let bulls = |b: [&[u8]; 4]| {
        let make = |bulls: &[u8]| Stack::new(bulls.iter().map(|&b| make_card(9, b)).collect()).unwrap();
        Board::new([make(b[0]), make(b[1]), make(b[2]), make(b[3])])
    };
    let mut ai = AiPlayer::new(1);
    assert_eq!(StackId::A, ai.choose_stack());
    ai.look_at_board(&bulls([&[5], &[2, 2], &[3], &[7]]));
    assert_eq!(StackId::C, ai.choose_stack());
    // Of stacks with the fewest bulls the first one is taken.
    let mut ai = AiPlayer::new(1);
    ai.look_at_board(&bulls([&[5], &[1, 1], &[2], &[7]]));
    assert_eq!(StackId::B, ai.choose_stack());
    // The player starts from the stack that it preferred before.
    ai.look_at_board(&bulls([&[3], &[3], &[3], &[3]]));
    assert_eq!(StackId::B, ai.choose_stack());
    ai.look_at_board(&bulls([&[3], &[4], &[3], &[2]]));
    assert_eq!(StackId::D, ai.choose_stack());
    ai.look_at_board(&bulls([&[1], &[1], &[1], &[1]]));
    assert_eq!(StackId::D, ai.choose_stack());
}

#[test]
fn the_standard_game_gives_each_face_its_bulls() {
    assert_eq!(7, standard_bull(55));
    assert_eq!(5, standard_bull(11));
    assert_eq!(5, standard_bull(99));
    assert_eq!(3, standard_bull(10));
    assert_eq!(3, standard_bull(100));
    assert_eq!(2, standard_bull(5));
    assert_eq!(2, standard_bull(95));
    assert_eq!(5, standard_bull(110));
    assert_eq!(1, standard_bull(1));
    assert_eq!(1, standard_bull(104));
    let total: u32 = (1..=104).map(|face| standard_bull(face) as u32).sum();
    assert_eq!(171, total);
}

#[test]
fn a_shuffled_deck_holds_every_card_once() {
    let mut dealer = StandardDealer::default();
    dealer.open(&config());
    let mut cards = Vec::new();
    for _ in 0..104 {
        let card = dealer.deal();
        assert!(1 <= card.face() && card.face() <= config().deck_size());
        assert_eq!(standard_bull(card.face()), card.bull());
        cards.push(card);
    }
    cards.sort();
    assert_eq!(Card::deck(standard_bull, &config()), cards);
    // A second deck is a whole deck again.
    dealer.open(&config());
    let mut faces: Vec<u8> = (0..104).map(|_| dealer.deal().face()).collect();
    faces.sort();
    assert_eq!((1..=104).collect::<Vec<u8>>(), faces);
}

#[test]
fn a_shuffled_deck_is_out_of_order() {
    let mut dealer = StandardDealer::default();
    dealer.open(&config());
    let dealt: Vec<Card> = (0..104).map(|_| dealer.deal()).collect();
    let rising = Card::deck(standard_bull, &config());
    let mut falling = rising.clone();
    falling.reverse();
    assert!(dealt != rising);
    assert!(dealt != falling);
    let mut custom = CustomDealer::new(vec![3; 104]);
    custom.open(&config());
    let dealt: Vec<u8> = (0..104).map(|_| custom.deal().face()).collect();
    assert!(dealt != (1..=104).collect::<Vec<u8>>());
    assert!(dealt != (1..=104).rev().collect::<Vec<u8>>());
}

#[test]
fn each_player_gets_every_nth_card_of_the_deck() {
    let config = Configuration::new(3, 5, 66, 20, (1, 7));
    let mut dealer = CustomDealer::new(vec![1; 20]);
    dealer.open(&config);
    let mut probe = Vec::new();
    while probe.len() < 20 {
        probe.push(dealer.deal());
    }
    // A dealer whose deck is known: it deals what it was handed, last first.
    struct Fixed(Vec<Card>);
    impl Dealer for Fixed {
        fn open(&mut self, _config: &Configuration) {}
        fn deal(&mut self) -> Card {
            self.0.pop().unwrap()
        }
    }
    let deck: Vec<Card> = (1..=20).map(|face| make_card(face, 1)).collect();
    let mut dealer = Fixed(deck);
    let mut players: Vec<AiPlayer> = (0..4).map(AiPlayer::new).collect();
    players[2].draw(make_card(99, 1));
    dealer.deals(&mut players, &config);
    let faces = |player: &AiPlayer| player.hand().iter().map(|c| c.face()).collect::<Vec<u8>>();
    assert_eq!(vec![20, 16, 12], faces(&players[0]));
    assert_eq!(vec![19, 15, 11], faces(&players[1]));
    assert_eq!(vec![99, 18, 14, 10], faces(&players[2]));
    assert_eq!(vec![17, 13, 9], faces(&players[3]));
    let mut board = Board::default();
    dealer.flip(&mut board, &config);
    assert_eq!(&vec![make_card(8, 1)], board[StackId::A].cards());
    assert_eq!(&vec![make_card(7, 1)], board[StackId::B].cards());
    assert_eq!(&vec![make_card(6, 1)], board[StackId::C].cards());
    assert_eq!(&vec![make_card(5, 1)], board[StackId::D].cards());
    assert_eq!(4, dealer.0.len());
    // Flipping clears the board first.
    dealer.flip(&mut board, &config);
    assert_eq!(&vec![make_card(4, 1)], board[StackId::A].cards());
    assert_eq!(&vec![make_card(1, 1)], board[StackId::D].cards());
}

#[test]
fn hands_are_dealt_one_card_at_a_time() {
    let mut dealer = CustomDealer::new(vec![2; 104]);
    dealer.open(&config());
    let mut players: Vec<AiPlayer> = (0..3).map(AiPlayer::new).collect();
    players[1].draw(make_card(1, 1));
    dealer.deals(&mut players, &config());
    assert_eq!(10, players[0].hand().len());
    assert_eq!(11, players[1].hand().len());
    assert_eq!(10, players[2].hand().len());
    assert_eq!(make_card(1, 1), players[1].hand()[0]);
    let mut board = Board::default();
    dealer.flip(&mut board, &config());
    let mut seen: Vec<Card> = Vec::new();
    for player in players.iter() {
        seen.extend(player.hand().iter().skip(if player.id() == 1 { 1 } else { 0 }));
    }
    for id in StackId::all().iter() {
        assert_eq!(1, board[*id].len());
        seen.push(board[*id].last().unwrap());
    }
    // 34 cards left the deck, each another one.
    seen.sort();
    seen.dedup();
    assert_eq!(34, seen.len());
    for _ in 0..70 {
        let card = dealer.deal();
        assert!(!seen.contains(&card));
        seen.push(card);
    }
    seen.sort();
    assert_eq!(Card::deck(|_| 2, &config()), seen);
}

#[test]
fn a_card_is_placed_or_takes_a_stack() {
    let config = config();
    let mut board = board([&[10], &[40, 41, 42, 43, 44], &[30], &[20]]);
    let place = |board: &Board, face| placement(board, &make_card(face, 1), &config);
    assert_eq!(Placement::MustChoose, place(&board, 9));
    assert_eq!(Placement::OnTop(StackId::A), place(&board, 15));
    assert_eq!(Placement::OnTop(StackId::C), place(&board, 44));
    assert_eq!(Placement::Takes(StackId::B), place(&board, 45));
    let taken = replace(&mut board, StackId::B, make_card(45, 1), &config);
    assert_eq!(
        vec![40, 41, 42, 43, 44],
        taken.iter().map(|card| card.face()).collect::<Vec<u8>>()
    );
    assert_eq!(&vec![make_card(45, 1)], board[StackId::B].cards());
    assert_eq!(Placement::OnTop(StackId::B), place(&board, 46));
}

#[test]
fn played_cards_are_stacked_from_the_lowest() {
    let config = config();
    let mut dealer = StandardDealer::default();
    let mut players: Vec<AiPlayer> = (0..3).map(AiPlayer::new).collect();
    let mut board = board([&[10, 11, 12, 13, 14], &[40], &[30], &[20]]);
    let played = vec![(make_card(50, 1), 2), (make_card(15, 1), 0), (make_card(5, 1), 1)];
    assert_eq!(
        vec![(make_card(5, 1), 1), (make_card(15, 1), 0), (make_card(50, 1), 2)],
        sort_played(played.clone())
    );
    assert_eq!(Some(1), find_player(&players, 1));
    assert_eq!(None, find_player(&players, 3));
    dealer.stack(&mut board, played, &mut players, &config);
    // The 5 is below every stack: player 1 looks at the board and takes
    // stack B, the first of those with the fewest bulls. The 15 goes on the
    // 14, where player 0 takes the full stack first. The 50 goes on the 30.
    assert_eq!(&[make_card(40, 1)][..], players[1].pile());
    assert_eq!(1, players[1].score());
    assert_eq!(5, players[0].pile().len());
    assert_eq!(make_card(10, 1), players[0].pile()[0]);
    assert_eq!(make_card(14, 1), players[0].pile()[4]);
    assert!(players[2].pile().is_empty());
    assert_eq!(&vec![make_card(15, 1)], board[StackId::A].cards());
    assert_eq!(&vec![make_card(5, 1)], board[StackId::B].cards());
    assert_eq!(&vec![make_card(30, 1), make_card(50, 1)], board[StackId::C].cards());
    assert_eq!(&vec![make_card(20, 1)], board[StackId::D].cards());

    // A card on a full stack takes it.
    let mut board = self::board([&[10, 11, 12, 13, 14], &[40], &[30], &[20]]);
    dealer.stack(&mut board, vec![(make_card(16, 1), 2)], &mut players, &config);
    assert_eq!(5, players[2].pile().len());
    assert_eq!(make_card(10, 1), players[2].pile()[0]);
    assert_eq!(&vec![make_card(16, 1)], board[StackId::A].cards());
}

#[test]
fn players_are_put_in_the_order_of_their_scores() {
    let mut players: Vec<AiPlayer> = (0..4).map(AiPlayer::new).collect();
    players[0].take(vec![make_card(1, 5)]);
    players[1].take(vec![make_card(2, 2)]);
    players[2].take(vec![make_card(3, 5)]);
    players[3].take(vec![make_card(4, 1), make_card(5, 1)]);
    sort_by_score(&mut players);
    let ids: Vec<u8> = players.iter().map(|player| player.id()).collect();
    assert_eq!(vec![1, 3, 0, 2], ids);
}

#[test]
fn a_round_leaves_the_hands_empty_and_the_cards_on_the_board_or_in_the_piles() {
    let config = config();
    let players: Vec<AiPlayer> = (0..4).map(AiPlayer::new).collect();
    let mut game = Game::new(StandardDealer::default(), players);
    assert!(game.goes_on(&config));
    game.round(&config);
    let mut cards = 0;
    for player in game.players.iter() {
        assert!(player.hand().is_empty());
        cards += player.pile().len();
    }
    for id in StackId::all().iter() {
        let stack = &game.board[*id];
        assert!(1 <= stack.len() && stack.len() <= 5);
        cards += stack.len();
    }
    assert_eq!(44, cards);
    // At least 24 of the 44 cards do not fit on the board.
    let taken: usize = game.players.iter().map(|player| player.pile().len()).sum();
    assert!(taken >= 24);
}

#[test]
fn the_game_runs_until_a_player_has_lost() {
    let config = config();
    let players: Vec<AiPlayer> = (0..5).map(AiPlayer::new).collect();
    let mut game = Game::new(StandardDealer::default(), players);
    // No round: the game is not over.
    assert!(!game.run(&config, 0));
    assert!(game.players.iter().all(|player| player.pile().is_empty()));
    // Each round gives bulls to someone, so a thousand rounds are enough.
    assert!(game.run(&config, 1000));
    assert!(!game.goes_on(&config));
    let scores: Vec<u32> = game.players.iter().map(|player| player.score()).collect();
    assert!(scores.iter().any(|&score| score >= config.win_score()));
    assert!(scores[0] != scores[1]);
    let mut sorted = scores.clone();
    sorted.sort();
    assert_eq!(sorted, scores);
    let mut ids: Vec<u8> = game.players.iter().map(|player| player.id()).collect();
    ids.sort();
    assert_eq!(vec![0, 1, 2, 3, 4], ids);
    // A game that is over plays no more rounds.
    assert!(game.run(&config, 1));
    let again: Vec<u32> = game.players.iter().map(|player| player.score()).collect();
    assert_eq!(scores, again);
}

#[test]
fn in_a_turn_every_player_plays_one_card() {
    let config = config();
    let mut players: Vec<AiPlayer> = (0..3).map(AiPlayer::new).collect();
    for (k, player) in players.iter_mut().enumerate() {
        player.draw(make_card(50 + k as u8, 1));
        player.draw(make_card(60 + k as u8, 1));
    }
    let board = board([&[10], &[40], &[30], &[20]]);
    let played = play_cards(&mut players, &board);
    assert_eq!(
        vec![(make_card(50, 1), 0), (make_card(51, 1), 1), (make_card(52, 1), 2)],
        played
    );
    show_played(&mut players, &played);
    for (k, player) in players.iter().enumerate() {
        assert_eq!(&[make_card(60 + k as u8, 1)][..], player.hand());
    }

    let mut game = Game::new(StandardDealer::default(), players);
    game.board = board;
    game.turn(&config);
    // The 60, the 61 and the 62 went on the 40, one after the other.
    assert_eq!(
        vec![40, 60, 61, 62],
        game.board[StackId::B].cards().iter().map(|c| c.face()).collect::<Vec<u8>>()
    );
    for player in game.players.iter() {
        assert!(player.hand().is_empty());
        assert!(player.pile().is_empty());
    }
}

#[test]
fn a_card_below_every_stack_takes_the_stack_that_its_player_names() {
    let config = config();
    let mut dealer = StandardDealer::default();
    let mut players: Vec<AiPlayer> = (0..2).map(AiPlayer::new).collect();
    let mut board = board([&[10], &[20], &[30], &[40]]);
    let played = vec![(make_card(15, 1), 0), (make_card(5, 1), 1)];
    dealer.stack(&mut board, played, &mut players, &config);
    assert_eq!(&vec![make_card(5, 1), make_card(15, 1)], board[StackId::A].cards());
    assert_eq!(&vec![make_card(20, 1)], board[StackId::B].cards());
    assert_eq!(&vec![make_card(30, 1)], board[StackId::C].cards());
    assert_eq!(&vec![make_card(40, 1)], board[StackId::D].cards());
    assert_eq!(&[make_card(10, 1)][..], players[1].pile());
    assert!(players[0].pile().is_empty());
}
