//! Game session controller: the alternating-play state machine.
//!
//! The controller owns the used-set, the running score and the turn count,
//! and turns each opponent event into the next engine action.  It performs
//! no I/O itself: the surrounding program reads the opponent's lines and
//! emits the chosen names.

use vstd::prelude::*;
use vstd::string::StringExecFns;

use crate::adjacency::LookupTable;
use crate::adjacency::lemma_row_weight_at;
use crate::pools::Pool;
use crate::recommend::our_next_move;
use crate::recommend::recommend_spec;

verus! {

/// Lifecycle of a session.
pub enum SessionStatus {
    NotStarted,
    InProgress,
    WonByExhaustion,
    ConcededByOpponent,
    ConcededBySelf,
}

/// What the opponent did this turn: named a participant, or gave up.
pub enum OpponentEvent {
    Move(String),
    Concede,
}

/// What the engine answers: name the participant under this global index,
/// give up, or acknowledge that the session is over.
pub enum EngineAction {
    Say(usize),
    GiveUp,
    Finished,
}

/// Read one line of the opponent's protocol: the literal concession token
/// ends the game, any other line names a participant.
pub fn parse_event(line: String) -> (ev: OpponentEvent)
    ensures
        match ev {
            OpponentEvent::Concede => line@ == "IGiveUp"@,
            OpponentEvent::Move(n) => line@ != "IGiveUp"@ && n == line,
        },
{
    let token = String::from_str("IGiveUp");
    if line == token {
        OpponentEvent::Concede
    } else {
        OpponentEvent::Move(line)
    }
}

/// The mutable session state: status, the participants already named by
/// either side, the cumulative weight of our moves, and the turn count.
pub struct SessionState {
    pub status: SessionStatus,
    pub used: Vec<usize>,
    pub score: u64,
    pub turns: u64,
}

impl SessionState {
    pub fn new() -> (s: SessionState)
        ensures
            s.status is NotStarted,
            s.used@.len() == 0,
            s.score == 0,
            s.turns == 0,
    {
        SessionState { status: SessionStatus::NotStarted, used: Vec::new(), score: 0, turns: 0 }
    }

    pub fn start(&mut self)
        requires
            old(self).status is NotStarted,
        ensures
            final(self).status is InProgress,
            final(self).used@ == old(self).used@,
            final(self).score == old(self).score,
            final(self).turns == old(self).turns,
    {
        self.status = SessionStatus::InProgress;
    }

    /// Record our own opening move: it joins the used-set but, per the
    /// scoring rules, counts neither weight nor a turn.
    pub fn record_opening(&mut self, g: usize)
        requires
            old(self).status is InProgress,
        ensures
            final(self).status is InProgress,
            final(self).used@ == old(self).used@.push(g),
            old(self).used@.is_prefix_of(final(self).used@),
            final(self).score == old(self).score,
            final(self).turns == old(self).turns,
    {
        self.used.push(g);
        proof {
            assert(old(self).used@.is_prefix_of(self.used@));
        }
    }

    /// The opponent cannot move at all (an empty opposite pool): the
    /// session resolves at once by exhaustion.
    pub fn resolve_exhausted(&mut self)
        requires
            old(self).status is InProgress,
        ensures
            final(self).status is WonByExhaustion,
            final(self).used@ == old(self).used@,
            final(self).score == old(self).score,
            final(self).turns == old(self).turns,
    {
        self.status = SessionStatus::WonByExhaustion;
    }

    /// One turn of the alternating protocol.  A concession by the opponent
    /// closes the session in our favour.  Otherwise the opponent's move is
    /// answered by the greedy recommendation: the chosen participant is
    /// emitted and joins the used-set, its weight joins the score, and the
    /// turn is counted; with no eligible answer — also for an opponent move
    /// the table does not know — the engine gives up and the session ends as
    /// conceded by us.  The used-set only ever grows.
    pub fn step(
        &mut self,
        lookup: &LookupTable,
        opponent_pool: &Pool,
        event: &OpponentEvent,
    ) -> (act: EngineAction)
        requires
            old(self).status is InProgress,
            lookup.wf(),
            opponent_pool.wf(),
            old(self).turns < u64::MAX,
            forall|u: int, i: int|
                0 <= u < lookup.rows().len() && 0 <= i < (#[trigger] lookup.rows()[u]).len()
                    ==> (#[trigger] lookup.rows()[u][i]).weight + old(self).score <= u64::MAX,
        ensures
            old(self).used@.is_prefix_of(final(self).used@),
            match event {
                OpponentEvent::Concede => {
                    &&& final(self).status is ConcededByOpponent
                    &&& act is Finished
                    &&& final(self).used@ == old(self).used@
                    &&& final(self).score == old(self).score
                    &&& final(self).turns == old(self).turns
                },
                OpponentEvent::Move(name) => {
                    let rec = match opponent_pool.spec_lookup(name@) {
                        None => None,
                        Some(j) => recommend_spec(*lookup, old(self).used@, j),
                    };
                    match rec {
                        Some(c) => {
                            &&& act == EngineAction::Say(c.0)
                            &&& final(self).status is InProgress
                            &&& final(self).used@ == old(self).used@.push(c.0)
                            &&& final(self).score == old(self).score + c.1
                            &&& final(self).turns == old(self).turns + 1
                        },
                        None => {
                            &&& act is GiveUp
                            &&& final(self).status is ConcededBySelf
                            &&& final(self).used@ == old(self).used@
                            &&& final(self).score == old(self).score
                            &&& final(self).turns == old(self).turns
                        },
                    }
                },
            },
    {
        match event {
            OpponentEvent::Concede => {
                self.status = SessionStatus::ConcededByOpponent;
                EngineAction::Finished
            },
            OpponentEvent::Move(name) => {
                let rec = our_next_move(lookup, &self.used, opponent_pool, name);
                match rec {
                    Some(pw) => {
                        proof {
                            let j = opponent_pool.spec_lookup(name@).unwrap();
                            let row = lookup.rows()[j];
                            let k = choose|k: int|
                                0 <= k < row.len() && (#[trigger] row[k]).partner == pw.0;
                            assert(forall|j2: int|
                                0 <= j2 < k ==> (#[trigger] row[j2]).partner != row[k].partner);
                            lemma_row_weight_at(row, k);
                            assert(row[k].weight == pw.1);
                            assert(row[k].weight + self.score <= u64::MAX);
                        }
                        self.used.push(pw.0);
                        self.score = self.score + pw.1;
                        self.turns = self.turns + 1;
                        proof {
                            assert(old(self).used@.is_prefix_of(self.used@));
                        }
                        EngineAction::Say(pw.0)
                    },
                    None => {
                        self.status = SessionStatus::ConcededBySelf;
                        EngineAction::GiveUp
                    },
                }
            },
        }
    }

    /// The final performance report: a session we conceded scores 0; a
    /// session with no scored turn reports the theoretical best single-edge
    /// weight of the table; otherwise the average weight per turn.
    pub fn final_score(&self, lookup: &LookupTable) -> (r: u64)
        requires
            !(self.status is InProgress),
            !(self.status is NotStarted),
        ensures
            self.status is ConcededBySelf ==> r == 0,
            !(self.status is ConcededBySelf) && self.turns == 0 ==> (forall|u: int, i: int|
                0 <= u < lookup.rows().len() && 0 <= i < (#[trigger] lookup.rows()[u]).len()
                    ==> (#[trigger] lookup.rows()[u][i]).weight <= r) && (r == 0 || exists|
                u: int,
                i: int,
            |
                0 <= u < lookup.rows().len() && 0 <= i < (#[trigger] lookup.rows()[u]).len()
                    && (#[trigger] lookup.rows()[u][i]).weight == r),
            !(self.status is ConcededBySelf) && self.turns != 0 ==> r == self.score as int
                / self.turns as int,
    {
        match self.status {
            SessionStatus::ConcededBySelf => 0,
            _ => {
                if self.turns == 0 {
                    crate::recommend::maximum_score(lookup)
                } else {
                    self.score / self.turns
                }
            },
        }
    }
}

} // verus!
