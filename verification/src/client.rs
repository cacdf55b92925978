use crate::board::StackId;
use crate::card::Card;
use crate::configuration::Configuration;
use crate::encode::{encode_response, false_text, response_text};
use crate::game_state::{GameState, ROUND_TURNS};
use crate::grammar::DecodeError;
use crate::message::{RequestMessage, RequestView, ResponseMessage, ResponseView, Tag};
use crate::player::{Player, Sight};
use crate::player_proxy::{answers, askable, shown, PlayerProxy};
use crate::stream::{arrived, arrived_length, next_unit, unit_length};
use vstd::prelude::*;

verus! {

/// The byte that ends a line.
pub const LINE_FEED: u8 = 10;

/// A text as it goes out: alone, or with a line feed behind it where the
/// server wants its answers line by line.
pub open spec fn framed(text: Seq<u8>, newline: bool) -> Seq<u8> {
    if newline {
        text.push(LINE_FEED)
    } else {
        text
    }
}

/// The text that answers a request: that of the response, or `false` where
/// the request came out of turn.
pub open spec fn reply_text(response: Option<ResponseView>, newline: bool) -> Seq<u8> {
    match response {
        Some(response) => framed(response_text(response), newline),
        None => framed(false_text(), newline),
    }
}

/// The state after a unit was read: a request that the state accepts moves
/// it on; a request out of turn and a unit that is no request leave it as
/// it is.
pub open spec fn step(state: GameState, unit: Result<RequestView, DecodeError>) -> GameState {
    match unit {
        Ok(request) => match state.after(request.tag()) {
            Some(next) => next,
            None => state,
        },
        Err(_) => state,
    }
}

/// The state after some units were read, one after the other.
pub open spec fn state_after(state: GameState, units: Seq<Result<RequestView, DecodeError>>)
    -> GameState
    decreases units.len(),
{
    if units.len() == 0 {
        state
    } else {
        state_after(step(state, units[0]), units.skip(1))
    }
}

/// The answers that are due when some units are read one after the other
/// from a state: one for each request, and none for a unit that is no
/// request. A request that comes in turn is due a response of its kind, and
/// one that comes out of turn is due the answer `false`, which stands here
/// as `None`.
pub open spec fn due(state: GameState, units: Seq<Result<RequestView, DecodeError>>) -> Seq<
    Option<Tag>,
>
    decreases units.len(),
{
    if units.len() == 0 {
        Seq::empty()
    } else {
        match units[0] {
            Ok(request) => seq![
                if state.after(request.tag()) is Some {
                    Some(request.tag())
                } else {
                    None
                },
            ] + due(step(state, units[0]), units.skip(1)),
            Err(_) => due(state, units.skip(1)),
        }
    }
}

/// Whether a text is an answer that is due: the text of some response of
/// the kind, or `false`, with a line feed behind it where one is wanted.
pub open spec fn is_due(text: Seq<u8>, kind: Option<Tag>, newline: bool) -> bool {
    match kind {
        Some(tag) => exists|response: ResponseView|
            #[trigger] response.tag() == tag && text == reply_text(Some(response), newline),
        None => text == reply_text(None, newline),
    }
}

/// Whether some texts are the answers that are due, in order.
pub open spec fn all_due(texts: Seq<Vec<u8>>, kinds: Seq<Option<Tag>>, newline: bool) -> bool {
    &&& texts.len() == kinds.len()
    &&& forall|i: int| 0 <= i < texts.len() ==> is_due((#[trigger] texts[i])@, kinds[i], newline)
}

/// What the player has seen after a unit was read: the board of a request
/// that the state accepts, if it holds one, and no more than before after a
/// request out of turn or a unit that is no request.
pub open spec fn look(
    state: GameState,
    seen: Seq<Sight>,
    unit: Result<RequestView, DecodeError>,
) -> Seq<Sight> {
    match unit {
        Ok(request) => if state.after(request.tag()) is Some {
            shown(request, seen)
        } else {
            seen
        },
        Err(_) => seen,
    }
}

/// What the player has seen after some units were read, one after the
/// other.
pub open spec fn seen_after(
    state: GameState,
    seen: Seq<Sight>,
    units: Seq<Result<RequestView, DecodeError>>,
) -> Seq<Sight>
    decreases units.len(),
{
    if units.len() == 0 {
        seen
    } else {
        seen_after(step(state, units[0]), look(state, seen, units[0]), units.skip(1))
    }
}

/// Whether some texts answer some units that were read one after the other
/// from a state by a player who held `holding` before and holds `left`
/// after. A unit that is no request has no answer and leaves the hand as it
/// is. So does a request out of turn, whose answer is `false`. The answer
/// to a request in turn is the text of a response that answers the request,
/// given the hand before and the hand after it.
pub open spec fn answered(
    state: GameState,
    holding: Seq<Card>,
    units: Seq<Result<RequestView, DecodeError>>,
    texts: Seq<Vec<u8>>,
    newline: bool,
    left: Seq<Card>,
) -> bool
    decreases units.len(),
{
    if units.len() == 0 {
        texts.len() == 0 && left == holding
    } else {
        let before = units.drop_last();
        match units.last() {
            Err(_) => answered(state, holding, before, texts, newline, left),
            Ok(request) => texts.len() > 0 && (match state_after(state, before).after(
                request.tag(),
            ) {
                None => texts.last()@ == reply_text(None, newline) && answered(
                    state,
                    holding,
                    before,
                    texts.drop_last(),
                    newline,
                    left,
                ),
                Some(_) => exists|response: ResponseView, held: Seq<Card>|
                    {
                        &&& #[trigger] answers(request, response, held, left)
                        &&& texts.last()@ == reply_text(Some(response), newline)
                        &&& answered(state, holding, before, texts.drop_last(), newline, held)
                    },
            }),
        }
    }
}

/// The state after some units and one more is that after the units, moved
/// on by the one.
pub proof fn lemma_state_after_one_more(
    state: GameState,
    units: Seq<Result<RequestView, DecodeError>>,
    unit: Result<RequestView, DecodeError>,
)
    ensures
        state_after(state, units.push(unit)) == step(state_after(state, units), unit),
    decreases units.len(),
{
    let more = units.push(unit);
    if units.len() == 0 {
        assert(more.skip(1) == Seq::<Result<RequestView, DecodeError>>::empty());
        assert(state_after(step(state, unit), more.skip(1)) == step(state, unit));
    } else {
        assert(more[0] == units[0]);
        assert(more.skip(1) == units.skip(1).push(unit));
        lemma_state_after_one_more(step(state, units[0]), units.skip(1), unit);
    }
}

/// A unit that is no request is dropped: the units behind it are answered
/// as if it had not come. It moves neither the state nor the hand nor what
/// the player has seen, and no answer is due for it.
pub proof fn lemma_unit_dropped(
    state: GameState,
    holding: Seq<Card>,
    seen: Seq<Sight>,
    error: DecodeError,
    units: Seq<Result<RequestView, DecodeError>>,
    texts: Seq<Vec<u8>>,
    newline: bool,
    left: Seq<Card>,
)
    ensures
        state_after(state, seq![Err(error)] + units) == state_after(state, units),
        seen_after(state, seen, seq![Err(error)] + units) == seen_after(state, seen, units),
        due(state, seq![Err(error)] + units) == due(state, units),
        answered(state, holding, seq![Err(error)] + units, texts, newline, left) == answered(
            state,
            holding,
            units,
            texts,
            newline,
            left,
        ),
    decreases units.len(),
{
    let dropped: Result<RequestView, DecodeError> = Err(error);
    let all = seq![dropped] + units;
    assert(all[0] == dropped);
    assert(all.skip(1) == units);
    if units.len() == 0 {
        assert(all.last() == dropped);
        assert(all.drop_last() == units);
    } else {
        let before = units.drop_last();
        let short = texts.drop_last();
        assert(all.last() == units.last());
        assert(all.drop_last() == seq![dropped] + before);
        lemma_unit_dropped(state, holding, seen, error, before, texts, newline, left);
        lemma_unit_dropped(state, holding, seen, error, before, short, newline, left);
        if let Ok(request) = units.last() {
            if texts.len() > 0 && state_after(state, before).after(request.tag()) is Some {
                let with = answered(state, holding, all, texts, newline, left);
                let without = answered(state, holding, units, texts, newline, left);
                if with {
                    let (response, held) = choose|response: ResponseView, held: Seq<Card>|
                        {
                            &&& #[trigger] answers(request, response, held, left)
                            &&& texts.last()@ == reply_text(Some(response), newline)
                            &&& answered(state, holding, all.drop_last(), short, newline, held)
                        };
                    lemma_unit_dropped(state, holding, seen, error, before, short, newline, held);
                    assert(answers(request, response, held, left));
                    assert(without);
                }
                if without {
                    let (response, held) = choose|response: ResponseView, held: Seq<Card>|
                        {
                            &&& #[trigger] answers(request, response, held, left)
                            &&& texts.last()@ == reply_text(Some(response), newline)
                            &&& answered(state, holding, before, short, newline, held)
                        };
                    lemma_unit_dropped(state, holding, seen, error, before, short, newline, held);
                    assert(answers(request, response, held, left));
                    assert(with);
                }
            }
        }
    }
}

/// Returns the text that answers a request: that of the response, or
/// `false` where there is none because the request came out of turn.
pub fn reply(response: Option<&ResponseMessage>, newline: bool) -> (text: Vec<u8>)
    ensures
        text@ == reply_text(
            match response {
                Some(response) => Some(response@),
                None => None,
            },
            newline,
        ),
{
    let mut text = match response {
        Some(response) => encode_response(response),
        None => {
            let text = vec![102u8, 97, 108, 115, 101];
            assert(text@ =~= false_text());
            text
        },
    };
    if newline {
        text.push(LINE_FEED);
    }
    text
}

/// A client who takes the messages of a server and plays the game.
///
/// The client keeps the state of the protocol, which says what messages may
/// come next, and the player who decides. It reads and writes nothing
/// itself: the bytes that came from the server are handed to it, and it
/// hands back the bytes that are to be sent.
pub struct Client<P: Player> {
    player: PlayerProxy<P>,
    newline: bool,
    current_state: GameState,
    config: Configuration,
    pending: Vec<u8>,
}

impl<P: Player> Client<P> {
    /// The state of the protocol.
    pub closed spec fn state(&self) -> GameState {
        self.current_state
    }

    /// The configuration that requests must keep to.
    pub closed spec fn config(&self) -> Configuration {
        self.config
    }

    /// Whether a line feed goes behind each answer.
    pub closed spec fn newline(&self) -> bool {
        self.newline
    }

    /// The cards that the player holds.
    pub closed spec fn holding(&self) -> Seq<Card> {
        self.player.player.holding()
    }

    /// The cards that the player has taken.
    pub closed spec fn taken(&self) -> Seq<Card> {
        self.player.player.taken()
    }

    /// All that the player was given to look at.
    pub closed spec fn seen(&self) -> Seq<Sight> {
        self.player.player.seen()
    }

    /// The player who decides.
    pub closed spec fn decider(&self) -> P {
        self.player.player
    }

    /// The bytes that came in after the last unit that was read.
    pub closed spec fn pending(&self) -> Seq<u8> {
        self.pending@
    }

    /// Whether the client is in order: the state is one of the protocol, a
    /// starting hand holds a card for each turn of a round, and the player
    /// holds a card for each turn that is left of the round.
    pub open spec fn wf(&self) -> bool {
        &&& self.state().wf()
        &&& self.config().turn_count >= ROUND_TURNS
        &&& self.holding().len() >= self.state().turns_left()
    }

    /// Returns a client for the given player, ready for the first round.
    /// A round of the protocol has ten turns, so the configuration must
    /// deal ten cards at least.
    pub fn new(player: P, newline: bool, config: Configuration) -> (client: Client<P>)
        requires
            config.turn_count >= ROUND_TURNS,
        ensures
            client.wf(),
            client.state() == GameState::StartingRound,
            client.config() == config,
            client.newline() == newline,
            client.holding() == player.holding(),
            client.taken() == player.taken(),
            client.seen() == player.seen(),
            client.pending() == Seq::<u8>::empty(),
    {
        Client {
            player: PlayerProxy { player },
            newline,
            current_state: GameState::StartingRound,
            config,
            pending: Vec::new(),
        }
    }

    /// Returns the current state of the game.
    pub fn current_state(&self) -> (state: &GameState)
        ensures
            *state == self.state(),
    {
        &self.current_state
    }

    /// Returns the player.
    pub fn player(&self) -> (player: &P)
        ensures
            *player == self.decider(),
            player.holding() == self.holding(),
            player.taken() == self.taken(),
            player.seen() == self.seen(),
    {
        &self.player.player
    }

    /// Takes a request. Where the state accepts it, the state moves on, the
    /// player is asked, and the player's response is returned. Where it
    /// comes out of turn, nothing changes and there is no response.
    pub fn respond(&mut self, message: RequestMessage) -> (response: Option<ResponseMessage>)
        requires
            old(self).wf(),
            message@.valid(old(self).config()),
        ensures
            final(self).wf(),
            final(self).config() == old(self).config(),
            final(self).newline() == old(self).newline(),
            final(self).pending() == old(self).pending(),
            final(self).taken() == old(self).taken(),
            final(self).state() == step(old(self).state(), Ok(message@)),
            match response {
                Some(response) => {
                    &&& old(self).state().after(message@.tag()) is Some
                    &&& answers(message@, response@, old(self).holding(), final(self).holding())
                    &&& final(self).seen() == shown(message@, old(self).seen())
                },
                None => {
                    &&& old(self).state().after(message@.tag()) is None
                    &&& final(self).holding() == old(self).holding()
                    &&& final(self).seen() == old(self).seen()
                },
            },
            response is Some ==> (match message {
                RequestMessage::StartRound(_) => true,
                RequestMessage::TakeTurn(board) => exists|looking: &mut P, playing: &mut P|
                    {
                        &&& *looking == old(self).decider()
                        &&& #[trigger] call_ensures(P::look_at_board, (looking, &board), ())
                        &&& *playing == *final(looking)
                        &&& #[trigger] call_ensures(P::play, (playing,), response->0@->TakeTurn_0)
                        &&& *final(playing) == final(self).decider()
                    },
                RequestMessage::Choose(board) => {
                    &&& exists|looking: &mut P|
                        {
                            &&& *looking == old(self).decider()
                            &&& #[trigger] call_ensures(P::look_at_board, (looking, &board), ())
                            &&& *final(looking) == final(self).decider()
                        }
                    &&& exists|id: StackId|
                        {
                            &&& #[trigger] call_ensures(
                                P::choose_stack,
                                (&final(self).decider(),),
                                id,
                            )
                            &&& response->0@->Choose_0 == board@[id.index()]
                        }
                },
            }),
    {
        match self.current_state.next_state(&message) {
            Ok(next_state) => {
                assert(askable(message@, self.player.player.holding()));
                let ghost asked = message;
                let response = self.player.process_message(message);
                self.current_state = next_state;
                let ghost after = self.player.player;
                assert(self.decider() == after);
                proof {
                    match asked {
                        RequestMessage::StartRound(_) => {},
                        RequestMessage::TakeTurn(board) => {
                            let (looking, playing) = choose|looking: &mut P, playing: &mut P|
                                {
                                    &&& *looking == old(self).player.player
                                    &&& #[trigger] call_ensures(
                                        P::look_at_board,
                                        (looking, &board),
                                        (),
                                    )
                                    &&& *playing == *final(looking)
                                    &&& #[trigger] call_ensures(
                                        P::play,
                                        (playing,),
                                        response@->TakeTurn_0,
                                    )
                                    &&& *final(playing) == after
                                };
                            assert(call_ensures(P::look_at_board, (looking, &board), ()));
                            assert(call_ensures(P::play, (playing,), response@->TakeTurn_0));
                        },
                        RequestMessage::Choose(board) => {
                            let looking = choose|looking: &mut P|
                                {
                                    &&& *looking == old(self).player.player
                                    &&& #[trigger] call_ensures(
                                        P::look_at_board,
                                        (looking, &board),
                                        (),
                                    )
                                    &&& *final(looking) == after
                                };
                            assert(call_ensures(P::look_at_board, (looking, &board), ()));
                            let id = choose|id: StackId|
                                {
                                    &&& #[trigger] call_ensures(P::choose_stack, (&after,), id)
                                    &&& response@->Choose_0 == board@[id.index()]
                                };
                            assert(call_ensures(P::choose_stack, (&after,), id));
                        },
                    }
                }
                Some(response)
            },
            Err(_) => None,
        }
    }

    /// Takes a request and returns the bytes that answer it: the text of
    /// the player's response, or `false` where the request came out of
    /// turn, and a line feed behind it where the server wants one.
    pub fn handle_message(&mut self, message: RequestMessage) -> (text: Vec<u8>)
        requires
            old(self).wf(),
            message@.valid(old(self).config()),
        ensures
            final(self).wf(),
            final(self).config() == old(self).config(),
            final(self).newline() == old(self).newline(),
            final(self).pending() == old(self).pending(),
            final(self).taken() == old(self).taken(),
            final(self).state() == step(old(self).state(), Ok(message@)),
            match old(self).state().after(message@.tag()) {
                Some(_) => exists|response: ResponseView|
                    {
                        &&& #[trigger] answers(
                            message@,
                            response,
                            old(self).holding(),
                            final(self).holding(),
                        )
                        &&& text@ == reply_text(Some(response), old(self).newline())
                    },
                None => {
                    &&& text@ == reply_text(None, old(self).newline())
                    &&& final(self).holding() == old(self).holding()
                },
            },
            final(self).seen() == if old(self).state().after(message@.tag()) is Some {
                shown(message@, old(self).seen())
            } else {
                old(self).seen()
            },
            old(self).state().after(message@.tag()) is Some ==> (match message {
                RequestMessage::StartRound(_) => true,
                RequestMessage::TakeTurn(board) => exists|
                    looking: &mut P,
                    playing: &mut P,
                    card: Card,
                |
                    {
                        &&& *looking == old(self).decider()
                        &&& #[trigger] call_ensures(P::look_at_board, (looking, &board), ())
                        &&& *playing == *final(looking)
                        &&& #[trigger] call_ensures(P::play, (playing,), card)
                        &&& *final(playing) == final(self).decider()
                        &&& text@ == reply_text(
                            Some(ResponseView::TakeTurn(card)),
                            old(self).newline(),
                        )
                    },
                RequestMessage::Choose(board) => {
                    &&& exists|looking: &mut P|
                        {
                            &&& *looking == old(self).decider()
                            &&& #[trigger] call_ensures(P::look_at_board, (looking, &board), ())
                            &&& *final(looking) == final(self).decider()
                        }
                    &&& exists|id: StackId|
                        {
                            &&& #[trigger] call_ensures(
                                P::choose_stack,
                                (&final(self).decider(),),
                                id,
                            )
                            &&& text@ == reply_text(
                                Some(ResponseView::Choose(board@[id.index()])),
                                old(self).newline(),
                            )
                        }
                },
            }),
            is_due(
                text@,
                if old(self).state().after(message@.tag()) is Some {
                    Some(message@.tag())
                } else {
                    None
                },
                old(self).newline(),
            ),
    {
        let ghost request = message@;
        let response = self.respond(message);
        let text = reply(response.as_ref(), self.newline);
        proof {
            if response is Some {
                assert(answers(request, response->0@, old(self).holding(), self.holding()));
                assert(response->0@.tag() == request.tag());
            }
        }
        text
    }

    /// Takes the bytes that came from the server and returns the answers
    /// that are to be sent, in order. The bytes are put behind those that
    /// are pending, and each unit that is then there as a whole is read: a
    /// request is handled and answered, and a unit that is no request is
    /// dropped without an answer. What is left, the beginning of a unit at
    /// most, stays pending.
    pub fn receive(&mut self, bytes: &[u8]) -> (answers: Vec<Vec<u8>>)
        requires
            old(self).wf(),
        ensures
            final(self).wf(),
            final(self).config() == old(self).config(),
            final(self).newline() == old(self).newline(),
            final(self).taken() == old(self).taken(),
            final(self).state() == state_after(
                old(self).state(),
                arrived(old(self).pending() + bytes@, old(self).config()),
            ),
            all_due(
                answers@,
                due(old(self).state(), arrived(old(self).pending() + bytes@, old(self).config())),
                old(self).newline(),
            ),
            answered(
                old(self).state(),
                old(self).holding(),
                arrived(old(self).pending() + bytes@, old(self).config()),
                answers@,
                old(self).newline(),
                final(self).holding(),
            ),
            final(self).seen() == seen_after(
                old(self).state(),
                old(self).seen(),
                arrived(old(self).pending() + bytes@, old(self).config()),
            ),
            final(self).pending() == (old(self).pending() + bytes@).skip(
                arrived_length(old(self).pending() + bytes@) as int,
            ),
            unit_length(final(self).pending()) is None,
    {
        let mut i: usize = 0;
        while i < bytes.len()
            invariant
                i <= bytes@.len(),
                self.pending@ == old(self).pending@ + bytes@.take(i as int),
                self.player == old(self).player,
                self.newline == old(self).newline,
                self.current_state == old(self).current_state,
                self.config == old(self).config,
            decreases bytes.len() - i,
        {
            self.pending.push(bytes[i]);
            assert(bytes@.take(i + 1) == bytes@.take(i as int).push(bytes@[i as int]));
            i += 1;
        }
        assert(bytes@.take(i as int) == bytes@);
        let ghost text = self.pending@;
        let ghost mut done: Seq<Option<Tag>> = Seq::empty();
        let ghost mut read: Seq<Result<RequestView, DecodeError>> = Seq::empty();
        let mut answers: Vec<Vec<u8>> = Vec::new();
        let mut at: usize = 0;
        assert(text.skip(0) == text);
        assert(read + arrived(text, self.config) == arrived(text, self.config));
        assert(done + due(self.current_state, arrived(text, self.config)) == due(
            self.current_state,
            arrived(text, self.config),
        ));
        loop
            invariant_except_break
                self.wf(),
                self.config == old(self).config,
                self.newline == old(self).newline,
                self.taken() == old(self).taken(),
                self.pending@ == text,
                at <= text.len(),
                state_after(old(self).current_state, arrived(text, self.config)) == state_after(
                    self.current_state,
                    arrived(text.skip(at as int), self.config),
                ),
                due(old(self).current_state, arrived(text, self.config)) == done + due(
                    self.current_state,
                    arrived(text.skip(at as int), self.config),
                ),
                all_due(answers@, done, self.newline),
                arrived(text, self.config) == read + arrived(text.skip(at as int), self.config),
                self.current_state == state_after(old(self).current_state, read),
                answered(
                    old(self).current_state,
                    old(self).holding(),
                    read,
                    answers@,
                    self.newline,
                    self.holding(),
                ),
                seen_after(old(self).current_state, old(self).seen(), arrived(text, self.config))
                    == seen_after(
                    self.current_state,
                    self.seen(),
                    arrived(text.skip(at as int), self.config),
                ),
                arrived_length(text) == at + arrived_length(text.skip(at as int)),
            ensures
                self.wf(),
                self.config == old(self).config,
                self.newline == old(self).newline,
                self.taken() == old(self).taken(),
                self.pending@ == text,
                at <= text.len(),
                self.current_state == state_after(
                    old(self).current_state,
                    arrived(text, self.config),
                ),
                all_due(
                    answers@,
                    due(old(self).current_state, arrived(text, self.config)),
                    self.newline,
                ),
                answered(
                    old(self).current_state,
                    old(self).holding(),
                    arrived(text, self.config),
                    answers@,
                    self.newline,
                    self.holding(),
                ),
                self.seen() == seen_after(
                    old(self).current_state,
                    old(self).seen(),
                    arrived(text, self.config),
                ),
                arrived_length(text) == at,
                unit_length(text.skip(at as int)) is None,
            decreases text.len() - at,
        {
            let ghost rest = text.skip(at as int);
            match next_unit(self.pending.as_slice(), at, &self.config) {
                Some(unit) => {
                    proof {
                        let n = unit.end - at;
                        assert(rest.take(n) == text.subrange(at as int, unit.end as int));
                        assert(rest.skip(n) == text.skip(unit.end as int));
                        let units = arrived(rest, self.config);
                        let more = arrived(rest.skip(n), self.config);
                        assert(units.skip(1) == more);
                    }
                    let ghost state = self.current_state;
                    let ghost held = self.holding();
                    let ghost first = arrived(rest, self.config)[0];
                    let ghost later = due(
                        step(state, first),
                        arrived(text.skip(unit.end as int), self.config),
                    );
                    proof {
                        let more = arrived(text.skip(unit.end as int), self.config);
                        assert(read + (seq![first] + more) == read.push(first) + more);
                        lemma_state_after_one_more(old(self).current_state, read, first);
                        assert(read.push(first).drop_last() == read);
                        assert(read.push(first).last() == first);
                    }
                    match unit.request {
                        Ok(request) => {
                            let ghost kind = if state.after(request@.tag()) is Some {
                                Some(request@.tag())
                            } else {
                                None
                            };
                            let ghost before = answers@;
                            let ghost asked = request@;
                            let text = self.handle_message(request);
                            answers.push(text);
                            proof {
                                assert(answers@.drop_last() == before);
                                assert(answers@.last() == text);
                                if state.after(asked.tag()) is Some {
                                    let response = choose|response: ResponseView|
                                        #[trigger] crate::player_proxy::answers(
                                            asked,
                                            response,
                                            held,
                                            self.holding(),
                                        ) && text@ == reply_text(Some(response), self.newline);
                                    assert(crate::player_proxy::answers(
                                        asked,
                                        response,
                                        held,
                                        self.holding(),
                                    ));
                                }
                                assert(answered(
                                    old(self).current_state,
                                    old(self).holding(),
                                    read.push(first),
                                    answers@,
                                    self.newline,
                                    self.holding(),
                                ));
                                assert(done + (seq![kind] + later) == done.push(kind) + later);
                                assert forall|i: int| 0 <= i < answers@.len() implies is_due(
                                    (#[trigger] answers@[i])@,
                                    done.push(kind)[i],
                                    self.newline,
                                ) by {
                                    if i < before.len() {
                                        assert(answers@[i] == before[i]);
                                    }
                                }
                                done = done.push(kind);
                            }
                        },
                        Err(_) => {},
                    }
                    proof {
                        read = read.push(first);
                    }
                    at = unit.end;
                },
                None => {
                    proof {
                        assert(done + Seq::<Option<Tag>>::empty() == done);
                        assert(read + Seq::<Result<RequestView, DecodeError>>::empty() == read);
                    }
                    break ;
                },
            }
        }
        self.pending = self.pending.split_off(at);
        answers
    }

    /// Takes all the bytes that a server sent until it closed the
    /// connection, and returns the answers in order. An array that the
    /// bytes end in is dropped like any other unit that is no request.
    pub fn start(&mut self, bytes: &[u8]) -> (answers: Vec<Vec<u8>>)
        requires
            old(self).wf(),
        ensures
            final(self).wf(),
            final(self).config() == old(self).config(),
            final(self).newline() == old(self).newline(),
            final(self).taken() == old(self).taken(),
            final(self).state() == state_after(
                old(self).state(),
                arrived(old(self).pending() + bytes@, old(self).config()),
            ),
            all_due(
                answers@,
                due(old(self).state(), arrived(old(self).pending() + bytes@, old(self).config())),
                old(self).newline(),
            ),
            answered(
                old(self).state(),
                old(self).holding(),
                arrived(old(self).pending() + bytes@, old(self).config()),
                answers@,
                old(self).newline(),
                final(self).holding(),
            ),
            final(self).seen() == seen_after(
                old(self).state(),
                old(self).seen(),
                arrived(old(self).pending() + bytes@, old(self).config()),
            ),
            final(self).pending() == Seq::<u8>::empty(),
    {
        let answers = self.receive(bytes);
        self.pending.clear();
        answers
    }
}

} // verus!
