//! One turn of a game driven by agents: the agent picks an index into the
//! current player's legal actions, and the table plays it.
use crate::agents::Agent;
use crate::constants::{MAX_PLAYERS, MIN_PLAYERS};
use crate::game::arrays::{combo_items, combos_get, combos_len};
use crate::game::deal::all_distinct;
use crate::game::combo::Combo;
use crate::game::game_state::GameState;
use crate::game::laws::{cards_in_hands, lemma_action_spends_cards, lemma_legal_actions_exact, lemma_player_to_move_can_act};
use std::collections::HashMap;
use crate::game::rules::{self, apply_combo, legal_kinds, uid_index};
use vstd::prelude::*;

verus! {

broadcast use vstd::std_specs::hash::group_hash_axioms;

/// An agent answered with an index past the end of the legal actions.
#[derive(Debug, Clone, Copy, PartialEq, Eq, Structural)]
pub struct InvalidActionIndex {
    pub uid: u8,
    pub index: usize,
}

/// The legal actions of the player whose turn it is.
pub open spec fn current_legal_kinds(m: rules::GameModel) -> Seq<crate::game::combo::ComboKind> {
    legal_kinds(
        m.players[uid_index(m.players, m.players[m.current_player_index as int].uid)].hand,
        m.current_trick_type,
    )
}

impl GameState {
    /// Plays the action at `choice_index` among the legal actions of the
    /// player whose turn it is, and says whether the game is now over. An
    /// index past the end is refused and leaves the table as it was.
    pub fn take_turn(&mut self, choice_index: usize) -> (r: Result<bool, InvalidActionIndex>)
        requires
            old(self).wf(),
            !old(self)@.is_game_over,
        ensures
            final(self).wf(),
            choice_index >= current_legal_kinds(old(self)@).len() ==> r == Err::<bool, InvalidActionIndex>(
                InvalidActionIndex {
                    uid: old(self)@.players[old(self)@.current_player_index as int].uid,
                    index: choice_index,
                },
            ) && final(self)@ == old(self)@,
            choice_index < current_legal_kinds(old(self)@).len() ==> exists|c: Combo|
                c@ == current_legal_kinds(old(self)@)[choice_index as int] && final(self)@
                    == apply_combo(old(self)@, c) && r == Ok::<bool, InvalidActionIndex>(
                    final(self)@.is_game_over,
                ),
    {
        let ghost m = self@;
        let uid = self.current_player_uid();
        proof {
            assert(rules::has_uid(m.players, uid)) by {
                assert(m.players[m.current_player_index as int].uid == uid);
            }
        }
        let actions = self.legal_actions(uid);
        let n = combos_len(&actions);
        proof {
            assert(combo_items(actions).map_values(|c: Combo| c@).len() == n);
        }
        if choice_index >= n {
            return Err(InvalidActionIndex { uid, index: choice_index });
        }
        let combo = combos_get(&actions, choice_index);
        let kind = combo.kind();
        proof {
            let cur = m.current_player_index as int;
            let idx = uid_index(m.players, uid);
            assert(m.players[cur].uid == uid);
            assert(idx == cur);
            assert(combo_items(actions).map_values(|c: Combo| c@)[choice_index as int] == combo@);
            lemma_legal_actions_exact(m.players[cur].hand, m.current_trick_type, combo@);
            assert(legal_kinds(m.players[cur].hand, m.current_trick_type).contains(combo@));
            rules::lemma_wf_payout_fits(m);
        }
        self.apply_action(combo);
        Ok(self.is_game_over())
    }
}

/// The turn on table `m` was refused because of `e`: it names the player to
/// move and an index past the end of that player's legal actions.
pub open spec fn refused_turn(m: rules::GameModel, e: InvalidActionIndex) -> bool {
    &&& e.uid == m.players[m.current_player_index as int].uid
    &&& e.index >= current_legal_kinds(m).len()
}

/// A game together with the agent that decides for each seat.
pub struct GameRunner {
    state: GameState,
    agents: HashMap<u8, Box<dyn Agent>>,
}

/// The uids of the participants, in order.
pub open spec fn participant_uids(participants: Seq<(u8, Box<dyn Agent>)>) -> Seq<u8> {
    participants.map_values(|p: (u8, Box<dyn Agent>)| p.0)
}

impl GameRunner {
    /// The table being played.
    pub closed spec fn table(&self) -> rules::GameModel {
        self.state@
    }

    /// The agent seated under each uid.
    pub closed spec fn seating(&self) -> Map<u8, Box<dyn Agent>> {
        self.agents@
    }

    /// The uids that have an agent.
    pub open spec fn seated(&self) -> Set<u8> {
        self.seating().dom()
    }

    /// Every seated agent always names one of the actions it is offered.
    pub open spec fn agents_answer_in_range(&self) -> bool {
        forall|u: u8| self.seated().contains(u) ==> (#[trigger] self.seating()[u]).answers_in_range()
    }

    /// Every seat of the table has an agent.
    pub open spec fn wf(&self) -> bool {
        &&& rules::model_wf(self.table())
        &&& forall|i: int|
            0 <= i < self.table().players.len() ==> self.seated().contains(
                #[trigger] self.table().players[i].uid,
            )
    }

    /// A game for the participants (three to six, with distinct uids), seated
    /// in the order given, dealt from a deck shuffled with `seed` (or an
    /// operating-system seed when there is none); with a seed the table is the
    /// one the seeded shuffle deals. Each participant's agent is kept under its
    /// uid. The contract names the uids that have an agent but not which agent
    /// each holds: Verus proves nothing about trait-object values stored in a
    /// map or a sequence.
    pub fn new(participants: Vec<(u8, Box<dyn Agent>)>, seed: Option<u64>) -> (runner: Self)
        requires
            MIN_PLAYERS <= participants.len() <= MAX_PLAYERS,
            all_distinct(participant_uids(participants@)),
        ensures
            runner.wf(),
            runner.table().players.len() == participants.len(),
            forall|i: int|
                0 <= i < participants.len() ==> #[trigger] runner.table().players[i].uid
                    == participants@[i].0,
            !runner.table().is_game_over,
            forall|u: u8|
                runner.seated().contains(u) <==> participant_uids(participants@).contains(u),
            exists|deck: Seq<u8>|
                crate::game::deal::is_full_deck(deck) && runner.table()
                    == crate::game::deal::fresh_table(participant_uids(participants@), deck),
            seed matches Some(s) ==> runner.table() == crate::game::deal::fresh_table(
                participant_uids(participants@),
                crate::random::seeded_shuffle(crate::game::deal::ordered_deck(), s),
            ),
    {
        let ghost uids = participant_uids(participants@);
        let ghost ps = participants@;
        let mut player_uids: Vec<u8> = Vec::new();
        let mut agents: HashMap<u8, Box<dyn Agent>> = HashMap::new();
        for participant in it: participants
            invariant
                uids == participant_uids(it.seq()),
                it.seq() == ps,
                all_distinct(uids),
                player_uids@ == uids.take(it.index() as int),
                forall|j: int| 0 <= j < it.index() ==> agents@.contains_key(#[trigger] uids[j]),
                forall|u: u8|
                    agents@.contains_key(u) ==> exists|j: int|
                        0 <= j < it.index() && #[trigger] uids[j] == u,
        {
            let (uid, agent) = participant;
            let ghost before = agents@;
            let ghost k = it.index() as int;
            player_uids.push(uid);
            agents.insert(uid, agent);
            proof {
                assert(uids[k] == uid);
                vstd::map::axiom_map_insert_domain(before, uid, agent);
                assert forall|j: int| 0 <= j <= k implies agents@.contains_key(#[trigger] uids[j]) by {
                    if j < k {
                        assert(before.contains_key(uids[j]));
                    }
                }
                assert forall|u: u8| agents@.contains_key(u) implies exists|j: int|
                    0 <= j <= k && #[trigger] uids[j] == u by {
                    if u != uid {
                        assert(before.contains_key(u));
                    } else {
                        assert(uids[k] == u);
                    }
                }
            }
        }
        let state = GameState::new(player_uids, seed);
        let runner = GameRunner { state, agents };
        proof {
            assert(player_uids@ =~= uids);
            let deck = choose|deck: Seq<u8>|
                crate::game::deal::is_full_deck(deck) && runner.state@
                    == crate::game::deal::fresh_table(uids, deck);
            assert forall|i: int| 0 <= i < runner.table().players.len() implies runner.seated().contains(
                #[trigger] runner.table().players[i].uid,
            ) by {
                assert(runner.table().players[i].uid == uids[i]);
            }
            assert forall|u: u8| runner.seated().contains(u) <==> uids.contains(u) by {
                if uids.contains(u) {
                    let j = choose|j: int| 0 <= j < uids.len() && uids[j] == u;
                    assert(agents@.contains_key(uids[j]));
                }
            }
        }
        runner
    }

    /// Plays the game to its end and hands back the final table. Each turn
    /// the agent of the player to move picks one of the legal actions; an
    /// agent that answers with an index past the end stops the game with an
    /// error naming it; when every seated agent always answers within range,
    /// the game ends with a finished table. The game always ends: every turn
    /// takes at least one card out of the hands.
    pub fn run_game(&mut self) -> (r: Result<&GameState, InvalidActionIndex>)
        requires
            old(self).wf(),
            !old(self).table().is_game_over,
        ensures
            final(self).wf(),
            final(self).seating() == old(self).seating(),
            old(self).agents_answer_in_range() ==> r is Ok,
            r matches Ok(state) ==> state@ == final(self).table() && state@.is_game_over,
            r matches Err(e) ==> !final(self).table().is_game_over && refused_turn(
                final(self).table(),
                e,
            ),
    {
        let ghost seats = self.seating();
        loop
            invariant_except_break
                self.wf(),
                !self.table().is_game_over,
                self.seating() == seats,
                seats == old(self).seating(),
                old(self).agents_answer_in_range() ==> self.agents_answer_in_range(),
            ensures
                self.wf(),
                self.seating() == seats,
                self.table().is_game_over,
            decreases cards_in_hands(self.table().players),
        {
            match self.run_iteration() {
                Ok(over) => {
                    if over {
                        break;
                    }
                    proof {
                        crate::game::laws::lemma_cards_in_hands_nonneg(self.table().players);
                    }
                },
                Err(e) => return Err(e),
            }
        }
        Ok(&self.state)
    }

    /// One turn: the agent of the player to move picks an action among the
    /// legal ones, and the table plays it.
    fn run_iteration(&mut self) -> (r: Result<bool, InvalidActionIndex>)
        requires
            old(self).wf(),
            !old(self).table().is_game_over,
        ensures
            final(self).wf(),
            r matches Ok(over) ==> over == final(self).table().is_game_over && cards_in_hands(
                final(self).table().players,
            ) < cards_in_hands(old(self).table().players),
            final(self).seating() == old(self).seating(),
            old(self).agents_answer_in_range() ==> r is Ok,
            r matches Ok(_) ==> exists|c: Combo|
                current_legal_kinds(old(self).table()).contains(c@) && final(self).table()
                    == apply_combo(old(self).table(), c),
            r matches Err(e) ==> final(self).table() == old(self).table() && refused_turn(
                old(self).table(),
                e,
            ),
    {
        let ghost m = self.state@;
        let current_player_uid = self.state.current_player_uid();
        proof {
            assert(rules::has_uid(m.players, current_player_uid)) by {
                assert(m.players[m.current_player_index as int].uid == current_player_uid);
            }
            assert(self.seated().contains(m.players[m.current_player_index as int].uid));
        }
        let valid_actions = self.state.legal_actions(current_player_uid);
        let scrubbed_state = self.state.scrub_state(current_player_uid);
        let choice_index = match self.agents.get(&current_player_uid) {
            Some(current_agent) => {
                proof {
                    lemma_player_to_move_can_act(m);
                    let cur = m.current_player_index as int;
                    assert(uid_index(m.players, current_player_uid) == cur);
                    assert(combo_items(valid_actions).map_values(|c: Combo| c@).len()
                        == combo_items(valid_actions).len());
                }
                current_agent.choose_action(scrubbed_state, &valid_actions)
            },
            None => {
                proof {
                    assert(false);
                }
                0
            },
        };
        let result = self.state.take_turn(choice_index);
        proof {
            if result is Ok {
                let legal = current_legal_kinds(m);
                let c = choose|c: Combo|
                    c@ == legal[choice_index as int] && self.state@ == apply_combo(m, c);
                let cur = m.current_player_index as int;
                assert(uid_index(m.players, m.players[cur].uid) == cur);
                assert(legal.contains(c@));
                lemma_legal_actions_exact(m.players[cur].hand, m.current_trick_type, c@);
                lemma_action_spends_cards(m, c);
                crate::game::laws::lemma_action_keeps_seats(m, c);
                assert forall|i: int| 0 <= i < self.table().players.len() implies self.seated().contains(
                    #[trigger] self.table().players[i].uid,
                ) by {
                    assert(self.table().players[i].uid == m.players[i].uid);
                }
            }
        }
        result
    }
}

} // verus!
