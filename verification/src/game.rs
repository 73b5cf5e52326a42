//! A game in progress: the turn counter, the players and the world, and
//! what a click, the end of a turn and a computer player's turn do to them.

use vstd::prelude::*;
use crate::cubic::{Cube, key_of, fits};
use crate::world::{World, Tile, Player, ACTIONS_PER_TURN, MAX_TRAVEL_DISTANCE, armies_owned};
use crate::world::morale::{ArmyAdjustment, adjusted, same_owner};
use crate::world::orders::{order_outcome, lemma_order_keeps_tiles, lemma_order_owned, lemma_adjusted_owned};
use crate::world::movement::{legal_moves, lemma_visited_in_world};
use crate::world::growth::{trained, lemma_trained_owned};
use crate::world::turn::{idle_penalty, has_movable_army};
use crate::ai::{ScoredMove, scores_ok, target_list_ok, sorted_by_score, useful_army_keys};

verus! {

broadcast use vstd::std_specs::hash::group_hash_axioms;

/// The turn counter, the players (the one to move being the turn's
/// position in their list) and the world.
pub struct Game {
    pub turn: i32,
    pub players: Vec<Player>,
    pub world: World,
}

/// The position of the player to move on `turn` among `n` players.
pub open spec fn player_on_turn(turn: i32, n: nat) -> int {
    (((turn - 1) as usize) as int) % (n as int)
}

/// The world and players after the player at `idx` clicks on `t`. With a
/// selection that may legally be ordered onto `t`, the order is carried out,
/// costs an action and clears the selection. Otherwise the click selects
/// `t` if it holds an army of the player that may move and is not already
/// selected, and clears the selection if not.
pub open spec fn click_outcome(m: Map<u64, Tile>, ps: Seq<Player>, idx: int, t: Cube<i32>) -> (Map<u64, Tile>, Seq<Player>) {
    let p = ps[idx];
    if p.selection is Some && legal_moves(m, p.selection->0, idx as usize).contains(key_of(t)) {
        (order_outcome(m, p.selection->0, t), ps.update(idx, Player { actions: (p.actions - 1) as i32, selection: None, ..p }))
    } else {
        let selectable = m[key_of(t)].army is Some && m[key_of(t)].army->0.owner_index == Some(idx as usize)
            && m[key_of(t)].army->0.can_move && p.selection != Some(t);
        (m, ps.update(idx, Player { selection: if selectable { Some(t) } else { None }, ..p }))
    }
}

/// The world and players after the computer player at `idx` clicked on the
/// origin and then the target of each of the first `n` moves of `ts`, as
/// long as it had actions left.
pub open spec fn ai_clicks(m: Map<u64, Tile>, ps: Seq<Player>, idx: int, ts: Seq<ScoredMove>, n: nat) -> (Map<u64, Tile>, Seq<Player>)
    decreases n,
{
    if n == 0 {
        (m, ps)
    } else {
        let (m1, ps1) = ai_clicks(m, ps, idx, ts, (n - 1) as nat);
        if ps1[idx].actions > 0 {
            let (m2, ps2) = click_outcome(m1, ps1, idx, ts[n - 1].origin);
            click_outcome(m2, ps2, idx, ts[n - 1].target)
        } else {
            (m1, ps1)
        }
    }
}

/// Once the computer player is out of actions, further moves change nothing.
pub proof fn lemma_ai_clicks_done(m: Map<u64, Tile>, ps: Seq<Player>, idx: int, ts: Seq<ScoredMove>, i: nat, n: nat)
    requires
        i <= n,
        ai_clicks(m, ps, idx, ts, i).1[idx].actions <= 0,
    ensures
        ai_clicks(m, ps, idx, ts, n) == ai_clicks(m, ps, idx, ts, i),
    decreases n - i,
{
    if n > i {
        lemma_ai_clicks_done(m, ps, idx, ts, i, (n - 1) as nat);
    }
}

/// The world after the end of the turn of `player`, once its armies were
/// trained into `trained_world`: its idle armies lose morale, then every
/// army may move again.
pub open spec fn turn_ended(trained_world: Map<u64, Tile>, player: usize) -> Map<u64, Tile> {
    trained_world.map_values(|t: Tile| adjusted(t, idle_penalty(trained_world, player)))
        .map_values(|t: Tile| adjusted(t, ArmyAdjustment::Refresh))
}

/// `g1` is `g0` after the end of the turn of its player to move: the turn
/// counter advanced, that player's selection cleared and its actions
/// restored, and the world trained and its turn ended (see `turn_ended`).
pub open spec fn next_turn_done(g0: Game, g1: Game) -> bool {
    &&& g1.turn == g0.turn + 1
    &&& g1.players@ == g0.players@.update(g0.current(), Player {
        selection: None,
        actions: ACTIONS_PER_TURN,
        ..g0.players@[g0.current()]
    })
    &&& exists|w: Map<u64, Tile>| #[trigger] trained(g0.world.world@, g0.current() as usize, w)
        && g1.world.world@ == turn_ended(w, g0.current() as usize)
}

impl Game {
    /// The position of the player to move.
    pub open spec fn current(&self) -> int {
        player_on_turn(self.turn, self.players@.len())
    }

    /// The game is consistent: the world and its indexes agree, its tiles
    /// are within bounds and every army has an owner; there are players;
    /// only the player to move may have a selection, which then holds one of
    /// its armies; and the computer players' weights are within limits.
    pub open spec fn wf(&self) -> bool {
        &&& self.world.wf()
        &&& self.world.within_bounds()
        &&& armies_owned(self.world.world@)
        &&& self.players.len() > 0
        &&& self.turn > i32::MIN
        &&& forall|i: int| 0 <= i < self.players.len() && i != self.current()
            ==> (#[trigger] self.players@[i]).selection is None
        &&& (self.players@[self.current()].selection matches Some(s) ==> self.world.has(s)
            && self.world.at(s).army is Some
            && self.world.at(s).army->0.owner_index == Some(self.current() as usize))
        &&& forall|i: int| 0 <= i < self.players.len() ==> ((#[trigger] self.players@[i]).ai matches Some(ai)
            ==> scores_ok(ai.scores))
    }

    /// The position of the player to move.
    pub fn current_player_index(&self) -> (i: usize)
        requires
            self.players.len() > 0,
            self.turn > i32::MIN,
        ensures
            i == self.current(),
            i < self.players.len(),
    {
        ((self.turn - 1) as usize) % self.players.len()
    }

    /// The player to move.
    pub fn current_player(&self) -> (p: &Player)
        requires
            self.players.len() > 0,
            self.turn > i32::MIN,
        ensures
            *p == self.players@[self.current()],
    {
        let index = self.current_player_index();
        &self.players[index]
    }

    /// The player to move, to be changed.
    pub fn current_player_mut(&mut self) -> (p: &mut Player)
        requires
            old(self).players.len() > 0,
            old(self).turn > i32::MIN,
        ensures
            *p == old(self).players@[old(self).current()],
            final(self).players@ == old(self).players@.update(old(self).current(), *final(p)),
            final(self).turn == old(self).turn,
            final(self).world == old(self).world,
    {
        let index = self.current_player_index();
        &mut self.players[index]
    }
}

/// Two optional cubes are the same.
fn same_cube(a: Option<Cube<i32>>, b: Option<Cube<i32>>) -> (r: bool)
    ensures
        r == (a == b),
{
    match (a, b) {
        (Some(x), Some(y)) => x == y,
        (None, None) => true,
        _ => false,
    }
}

impl Game {
    /// The player to move clicks on `target_cube` (see `click_outcome`).
    pub fn click(&mut self, target_cube: &Cube<i32>)
        requires
            old(self).wf(),
            old(self).world.has(*target_cube),
            ({
                let p = old(self).players@[old(self).current()];
                p.selection is Some && legal_moves(old(self).world.world@, p.selection->0, old(self).current() as usize)
                    .contains(key_of(*target_cube)) ==> p.actions > i32::MIN
            }),
        ensures
            final(self).wf(),
            final(self).turn == old(self).turn,
            (final(self).world.world@, final(self).players@)
                == click_outcome(old(self).world.world@, old(self).players@, old(self).current(), *target_cube),
            final(self).world.world@.dom() == old(self).world.world@.dom(),
    {
        let ghost m = self.world.world@;
        let ghost ps = self.players@;
        let idx = self.current_player_index();
        let target = self.world.get(target_cube).unwrap();
        let mut is_target_selectable = false;
        if let Some(army) = &target.army {
            if same_owner(army.owner_index, Some(idx)) && army.can_move
                && !same_cube(Some(*target_cube), self.players[idx].selection) {
                is_target_selectable = true;
            }
        }
        if let Some(selection) = self.players[idx].selection {
            assert(self.world.has(selection));
            let legal = self.world.get_all_legal_moves(&selection, &idx);
            if legal.contains(&target_cube.key()) {
                proof {
                    assert(key_of(selection) != key_of(*target_cube));
                    lemma_order_keeps_tiles(m, selection, *target_cube);
                    lemma_order_owned(m, selection, *target_cube);
                }
                self.world.execute_army_order(&selection, target_cube);
                let player = self.current_player_mut();
                player.actions = player.actions - 1;
                player.selection = None;
                proof {
                    assert forall|c: Cube<i32>| #[trigger] self.world.has(c) implies fits(c, MAX_TRAVEL_DISTANCE as int) by {
                        assert(old(self).world.has(c));
                    }
                }
                return;
            }
        }
        let player = self.current_player_mut();
        if is_target_selectable {
            player.selection = Some(*target_cube);
        } else {
            player.selection = None;
        }
    }

    /// Ends the turn of the player to move: its selection is cleared and its
    /// actions restored, its armies trained, its idle armies penalized, every
    /// army may move again, and the next player is to move.
    pub fn next_turn(&mut self)
        requires
            old(self).wf(),
            old(self).turn < i32::MAX,
        ensures
            final(self).wf(),
            next_turn_done(*old(self), *final(self)),
    {
        let ghost m = self.world.world@;
        let current_player_index = self.current_player_index();
        let player = self.current_player_mut();
        player.selection = None;
        player.actions = ACTIONS_PER_TURN;
        self.world.train_armies(&current_player_index);
        let ghost w = self.world.world@;
        proof {
            lemma_trained_owned(m, current_player_index, w);
        }
        self.world.apply_idle_morale_penalty(current_player_index);
        let ghost w2 = self.world.world@;
        proof {
            lemma_adjusted_owned(w, idle_penalty(w, current_player_index));
        }
        self.world.adjust_armies(&ArmyAdjustment::Refresh);
        proof {
            lemma_adjusted_owned(w2, ArmyAdjustment::Refresh);
            assert(self.world.world@.dom() =~= m.dom());
            assert forall|c: Cube<i32>| #[trigger] self.world.has(c) implies fits(c, MAX_TRAVEL_DISTANCE as int) by {
                assert(old(self).world.has(c));
            }
        }
        self.turn = self.turn + 1;
        proof {
            assert forall|i: int| 0 <= i < self.players.len() && i != self.current()
                implies (#[trigger] self.players@[i]).selection is None by {
                if i != player_on_turn((self.turn - 1) as i32, self.players@.len()) {
                    assert(self.players@[i] == old(self).players@[i]);
                }
            }
            assert(self.world.world@ == turn_ended(w, current_player_index));
            assert(trained(old(self).world.world@, old(self).current() as usize, w));
        }
    }
}

impl Game {
    /// One step of the game loop. When the player to move has no action
    /// left or no army that may move, its turn ends. Otherwise a computer
    /// player clicks on the origin and then the target of each move that
    /// `generate_targets` ranks, while it has actions, and then gives up the
    /// rest of its turn; a human player's turn goes on unchanged.
    pub fn _update(&mut self)
        requires
            old(self).wf(),
            old(self).turn < i32::MAX,
        ensures
            final(self).wf(),
            ({
                let idx = old(self).current();
                let p = old(self).players@[idx];
                let m = old(self).world.world@;
                if p.actions == 0 || !has_movable_army(old(self).world, idx as usize) {
                    next_turn_done(*old(self), *final(self))
                } else if p.ai is None {
                    &&& final(self).turn == old(self).turn
                    &&& final(self).world.world@ == m
                    &&& final(self).players@ == old(self).players@
                } else {
                    &&& final(self).turn == old(self).turn
                    &&& exists|ts: Seq<ScoredMove>| #[trigger] target_list_ok(p.ai->0.scores, idx as usize, m,
                            useful_army_keys(old(self).world, idx as usize), ts)
                        && sorted_by_score(ts)
                        && final(self).world.world@ == ai_clicks(m, old(self).players@, idx, ts, ts.len()).0
                        && final(self).players@ == ai_clicks(m, old(self).players@, idx, ts, ts.len()).1.update(idx,
                            Player { actions: 0, ..ai_clicks(m, old(self).players@, idx, ts, ts.len()).1[idx] })
                }
            }),
    {
        let idx = self.current_player_index();
        let can_player_issue_a_command = self.world.can_player_issue_a_command(&idx);
        if self.players[idx].actions == 0 || !can_player_issue_a_command {
            self.next_turn();
            return;
        }
        proof {
            let k = choose|k: u64| #[trigger] self.world.owned_keys(idx).contains(k)
                && self.world.world@[k].army is Some && self.world.world@[k].army->0.can_move;
            assert(self.world.world@.contains_key(k) && self.world.world@[k].owner_index is Some);
            assert(self.players@[idx as int].ai matches Some(ai) ==> scores_ok(ai.scores));
        }
        let targets = match &self.players[idx].ai {
            Some(ai) => ai.generate_targets(&idx, &self.world),
            None => {
                return;
            },
        };
        let ghost m0 = self.world.world@;
        let ghost ps0 = self.players@;
        let ghost scores = self.players@[idx as int].ai->0.scores;
        proof {
            assert forall|j: int| 0 <= j < targets@.len() implies m0.contains_key(key_of(#[trigger] targets@[j].origin))
                && m0.contains_key(key_of(targets@[j].target)) by {
                let mv = targets@[j];
                assert(useful_army_keys(self.world, idx).contains(key_of(mv.origin)));
                lemma_visited_in_world(m0, mv.origin, MAX_TRAVEL_DISTANCE as nat);
            }
        }
        let mut i: usize = 0;
        while i < targets.len() && self.players[idx].actions > 0
            invariant
                self.wf(),
                self.turn == old(self).turn,
                self.players.len() == ps0.len(),
                idx == self.current(),
                idx < ps0.len(),
                0 <= i <= targets.len(),
                self.world.world@.dom() == m0.dom(),
                (self.world.world@, self.players@) == ai_clicks(m0, ps0, idx as int, targets@, i as nat),
                forall|j: int| 0 <= j < targets@.len() ==> m0.contains_key(key_of(#[trigger] targets@[j].origin))
                    && m0.contains_key(key_of(targets@[j].target)),
            decreases targets.len() - i,
        {
            let mv = targets[i];
            assert(targets@[i as int] == mv);
            assert(self.world.has(mv.origin));
            self.click(&mv.origin);
            assert(self.world.has(mv.target));
            self.click(&mv.target);
            i = i + 1;
        }
        proof {
            if i < targets.len() {
                lemma_ai_clicks_done(m0, ps0, idx as int, targets@, i as nat, targets@.len());
            }
        }
        let player = self.current_player_mut();
        player.skip_turn();
        proof {
            assert(target_list_ok(scores, idx, m0, useful_army_keys(old(self).world, idx), targets@));
        }
    }
}

} // verus!
