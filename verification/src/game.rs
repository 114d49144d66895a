use vstd::prelude::*;
use vstd::seq_lib::lemma_multiset_commutative;

verus! {

use crate::cards::Card;
use crate::deck::{
    Rng, full_deck, has_duplicate, lemma_universe_distinct, sample_without_replacement, universe,
};
use crate::equity::{hand_views, holes_flat};
use crate::errors::PokerError;
use crate::eval::{best_rank, evaluate, lemma_best_of_is_best_rank};

/// The betting phase a hand is in; `Complete` means the pot has been
/// settled and the hand is over.
#[derive(Clone, Copy, PartialEq, Eq, Structural, Debug)]
pub enum Street {
    Preflop,
    Flop,
    Turn,
    River,
    Showdown,
    Complete,
}

/// The street after one step: streets advance in order, and `Complete` is
/// final.
pub open spec fn next_street(s: Street) -> Street {
    match s {
        Street::Preflop => Street::Flop,
        Street::Flop => Street::Turn,
        Street::Turn => Street::River,
        Street::River => Street::Showdown,
        Street::Showdown => Street::Complete,
        Street::Complete => Street::Complete,
    }
}

/// The sum of a chip-stack sequence, as an unbounded integer.
pub open spec fn seq_sum(s: Seq<u64>) -> int
    decreases s.len(),
{
    if s.len() == 0 {
        0
    } else {
        seq_sum(s.drop_last()) + s.last()
    }
}

pub proof fn lemma_seq_sum_nonneg(s: Seq<u64>)
    ensures
        seq_sum(s) >= 0,
    decreases s.len(),
{
    if s.len() > 0 {
        lemma_seq_sum_nonneg(s.drop_last());
    }
}

pub proof fn lemma_seq_sum_update(s: Seq<u64>, i: int, v: u64)
    requires
        0 <= i < s.len(),
    ensures
        seq_sum(s.update(i, v)) == seq_sum(s) - s[i] + v,
    decreases s.len(),
{
    if i == s.len() - 1 {
        assert(s.update(i, v).drop_last() =~= s.drop_last());
        assert(s.update(i, v).last() == v);
    } else {
        assert(s.update(i, v).drop_last() =~= s.drop_last().update(i, v));
        assert(s.update(i, v).last() == s.last());
        lemma_seq_sum_update(s.drop_last(), i, v);
    }
}

pub proof fn lemma_seq_sum_elem(s: Seq<u64>, i: int)
    requires
        0 <= i < s.len(),
    ensures
        s[i] <= seq_sum(s),
    decreases s.len(),
{
    if i == s.len() - 1 {
        lemma_seq_sum_nonneg(s.drop_last());
    } else {
        lemma_seq_sum_elem(s.drop_last(), i);
    }
}

pub proof fn lemma_seq_sum_pair(s: Seq<u64>, i: int, j: int)
    requires
        0 <= i < s.len(),
        0 <= j < s.len(),
        i != j,
    ensures
        s[i] + s[j] <= seq_sum(s),
{
    lemma_seq_sum_update(s, i, 0);
    lemma_seq_sum_elem(s.update(i, 0), j);
}

/// The seat after `i` clockwise at a table of `n` seats.
pub open spec fn next_seat(i: int, n: int) -> int {
    if i + 1 == n {
        0
    } else {
        i + 1
    }
}

/// Player stacks, blinds, button position, the pot, and the current
/// street of one hand. Created with the blinds already posted; mutated
/// only by `HoldemSimulation::step`.
pub struct GameState {
    pub stacks: Vec<u64>,
    pub pot: u64,
    pub small_blind: u64,
    pub big_blind: u64,
    pub button: usize,
    pub street: Street,
}

impl GameState {
    /// Well-formedness: at least two seats, the button in range, and the
    /// total chips in play representable in a chip count.
    pub open spec fn wf(self) -> bool {
        &&& self.stacks@.len() >= 2
        &&& self.button < self.stacks@.len()
        &&& seq_sum(self.stacks@) + self.pot <= u64::MAX
    }

    /// Total chips in play: all stacks plus the pot. Constant across every
    /// step of a hand.
    pub open spec fn total_chips(self) -> int {
        seq_sum(self.stacks@) + self.pot
    }

    /// Starts a hand: posts the small blind from the seat after the button
    /// and the big blind from the seat after that, both capped at the
    /// seat's stack (a short blind goes all-in rather than negative), and
    /// puts the posted chips in the pot. Fails with `InvalidPlayerCount`
    /// when fewer than two stacks are supplied.
    pub fn new(stacks: Vec<u64>, big_blind: u64, small_blind: u64, button: usize) -> (r: Result<
        GameState,
        PokerError,
    >)
        requires
            seq_sum(stacks@) <= u64::MAX,
            stacks@.len() >= 2 ==> button < stacks@.len(),
        ensures
            match r {
                Err(e) => e == PokerError::InvalidPlayerCount && stacks@.len() < 2,
                Ok(gs) => {
                    let n = stacks@.len() as int;
                    let sb_seat = next_seat(button as int, n);
                    let bb_seat = next_seat(sb_seat, n);
                    let sb_paid: int = if small_blind <= stacks@[sb_seat] {
                        small_blind as int
                    } else {
                        stacks@[sb_seat] as int
                    };
                    let after_sb = stacks@.update(sb_seat, (stacks@[sb_seat] - sb_paid) as u64);
                    let bb_paid: int = if big_blind <= after_sb[bb_seat] {
                        big_blind as int
                    } else {
                        after_sb[bb_seat] as int
                    };
                    &&& stacks@.len() >= 2
                    &&& gs.stacks@ == after_sb.update(bb_seat, (after_sb[bb_seat] - bb_paid) as u64)
                    &&& gs.pot == sb_paid + bb_paid
                    &&& gs.street == Street::Preflop
                    &&& gs.button == button
                    &&& gs.small_blind == small_blind
                    &&& gs.big_blind == big_blind
                    &&& gs.wf()
                    &&& gs.total_chips() == seq_sum(stacks@)
                },
            },
    {
        let n = stacks.len();
        if n < 2 {
            return Err(PokerError::InvalidPlayerCount);
        }
        let ghost orig = stacks@;
        let mut stacks = stacks;
        let sb_seat = if button + 1 == n {
            0
        } else {
            button + 1
        };
        let bb_seat = if sb_seat + 1 == n {
            0
        } else {
            sb_seat + 1
        };
        let sb_stack = stacks[sb_seat];
        let sb_paid = if small_blind <= sb_stack {
            small_blind
        } else {
            sb_stack
        };
        stacks[sb_seat] = sb_stack - sb_paid;
        proof {
            lemma_seq_sum_update(orig, sb_seat as int, (sb_stack - sb_paid) as u64);
        }
        let bb_stack = stacks[bb_seat];
        let bb_paid = if big_blind <= bb_stack {
            big_blind
        } else {
            bb_stack
        };
        stacks[bb_seat] = bb_stack - bb_paid;
        proof {
            lemma_seq_sum_update(
                orig.update(sb_seat as int, (sb_stack - sb_paid) as u64),
                bb_seat as int,
                (bb_stack - bb_paid) as u64,
            );
            lemma_seq_sum_nonneg(stacks@);
            lemma_seq_sum_pair(orig, sb_seat as int, bb_seat as int);
        }
        let pot = sb_paid + bb_paid;
        Ok(
            GameState {
                stacks,
                pot,
                small_blind,
                big_blind,
                button,
                street: Street::Preflop,
            },
        )
    }
}

/// The stacks after paying the listed winner seats in order: each gets
/// `share`, and the first `rem` listed get one remainder chip more.
pub open spec fn paid_stacks(stacks: Seq<u64>, winners: Seq<int>, share: int, rem: int) -> Seq<u64>
    decreases winners.len(),
{
    if winners.len() == 0 {
        stacks
    } else {
        let prev = paid_stacks(stacks, winners.drop_last(), share, rem);
        let w = winners.last();
        let bonus: int = if winners.len() - 1 < rem {
            1
        } else {
            0
        };
        prev.update(w, (prev[w] + share + bonus) as u64)
    }
}

/// Paying winners adds exactly `share` per winner plus one chip for each
/// of the first `rem` winners; no stack leaves the chip-count range.
pub proof fn lemma_paid_sum(stacks: Seq<u64>, winners: Seq<int>, share: int, rem: int)
    requires
        forall|j: int| 0 <= j < winners.len() ==> 0 <= #[trigger] winners[j] < stacks.len(),
        share >= 0,
        rem >= 0,
        seq_sum(stacks) + share * winners.len() + (if winners.len() <= rem {
            winners.len() as int
        } else {
            rem
        }) <= u64::MAX,
    ensures
        paid_stacks(stacks, winners, share, rem).len() == stacks.len(),
        seq_sum(paid_stacks(stacks, winners, share, rem)) == seq_sum(stacks) + share
            * winners.len() + (if winners.len() <= rem {
            winners.len() as int
        } else {
            rem
        }),
    decreases winners.len(),
{
    if winners.len() > 0 {
        let k = winners.len() as int;
        assert(share * (k - 1) + share == share * k) by (nonlinear_arith);
        assert(share * (k - 1) >= 0) by (nonlinear_arith)
            requires
                share >= 0,
                k >= 1,
        ;
        lemma_paid_sum(stacks, winners.drop_last(), share, rem);
        let prev = paid_stacks(stacks, winners.drop_last(), share, rem);
        let w = winners.last();
        lemma_seq_sum_elem(prev, w);
        let bonus: int = if k - 1 < rem {
            1
        } else {
            0
        };
        assert(prev[w] + share + bonus <= u64::MAX);
        lemma_seq_sum_update(prev, w, (prev[w] + share + bonus) as u64);
    }
}

/// What one `step` changed: the street transition, the amount awarded
/// from the pot (zero except at showdown), and the winning seats (empty
/// except at showdown).
pub struct StepResult {
    pub from_street: Street,
    pub to_street: Street,
    pub pot_awarded: u64,
    pub winners: Vec<usize>,
}

/// One simulated hand: the game state together with the dealt hole cards
/// and the five-card board, advanced street by street by `step`.
pub struct HoldemSimulation {
    pub game_state: GameState,
    pub holes: Vec<Vec<Card>>,
    pub board: Vec<Card>,
}

impl HoldemSimulation {
    /// Every card of the deal, in dealing order: all hole cards, then the
    /// board.
    pub open spec fn deal(self) -> Seq<Card> {
        holes_flat(hand_views(self.holes@)) + self.board@
    }

    /// Well-formedness: a well-formed game state, two hole cards per
    /// seat, a full five-card board, and no card dealt twice.
    pub open spec fn wf(self) -> bool {
        &&& self.game_state.wf()
        &&& self.holes@.len() == self.game_state.stacks@.len()
        &&& (forall|p: int|
            0 <= p < self.holes@.len() ==> (#[trigger] self.holes@[p])@.len() == 2)
        &&& self.board@.len() == 5
        &&& !has_duplicate(self.deal())
    }

    /// The seven cards seat `p` shows down: its hole cards plus the board.
    pub open spec fn seven(self, p: int) -> Seq<Card> {
        self.holes@[p]@ + self.board@
    }

    /// Whether seat `p` holds a hand at least as strong as every seat's.
    pub open spec fn is_winner(self, p: int) -> bool {
        forall|q: int|
            0 <= q < self.holes@.len() ==> best_rank(#[trigger] self.seven(q)) <= best_rank(
                self.seven(p),
            )
    }

    /// The seats in clockwise order starting after the button.
    pub open spec fn rotation(self) -> Seq<int> {
        let n = self.game_state.stacks@.len() as int;
        let b = self.game_state.button as int;
        Seq::new(n as nat, |i: int| if b + 1 + i < n {
            b + 1 + i
        } else {
            b + 1 + i - n
        })
    }

    /// The winning seats in pot-award order: clockwise from the button.
    pub open spec fn winner_seats(self) -> Seq<int> {
        self.rotation().filter(|p: int| self.is_winner(p))
    }

    /// Deals a fresh hand for the given game state: two hole cards per
    /// seat and five board cards, drawn without replacement from a full
    /// deck shuffled by the seed.
    pub fn new(game_state: GameState, seed: u64) -> (r: HoldemSimulation)
        requires
            game_state.wf(),
            game_state.stacks@.len() <= 23,
        ensures
            r.wf(),
            r.game_state == game_state,
    {
        let n = game_state.stacks.len();
        let mut rng = Rng::seeded(seed);
        let mut deck = full_deck();
        let mut holes: Vec<Vec<Card>> = Vec::new();
        let ghost mut dealt: Seq<Card> = Seq::<Card>::empty();
        proof {
            dealt.to_multiset_ensures();
            assert(forall|x: Card| !dealt.contains(x));
            assert(universe().to_multiset() =~= deck@.to_multiset().add(dealt.to_multiset()));
            assert(dealt =~= holes_flat(hand_views(holes@)));
        }
        let mut p: usize = 0;
        while p < n
            invariant
                n <= 23,
                p <= n,
                holes@.len() == p,
                deck@.len() == 52 - 2 * p,
                forall|q: int| 0 <= q < p ==> (#[trigger] holes@[q])@.len() == 2,
                dealt == holes_flat(hand_views(holes@)),
                universe().to_multiset() == deck@.to_multiset().add(dealt.to_multiset()),
            decreases n - p,
        {
            let hole = sample_without_replacement(&mut deck, 2, &mut rng);
            proof {
                broadcast use vstd::multiset::group_multiset_axioms;

                lemma_multiset_commutative(dealt, hole@);
                assert(universe().to_multiset() =~= deck@.to_multiset().add(
                    (dealt + hole@).to_multiset(),
                ));
                assert(hand_views(holes@.push(hole)) =~= hand_views(holes@).push(hole@));
                assert(hand_views(holes@).push(hole@).drop_last() =~= hand_views(holes@));
                assert(holes_flat(hand_views(holes@).push(hole@)) == holes_flat(hand_views(holes@))
                    + hole@);
            }
            holes.push(hole);
            proof {
                dealt = dealt + hole@;
            }
            p += 1;
        }
        let board = sample_without_replacement(&mut deck, 5, &mut rng);
        proof {
            broadcast use vstd::multiset::group_multiset_axioms;
            broadcast use vstd::seq_lib::group_to_multiset_ensures;

            lemma_multiset_commutative(dealt, board@);
            let full_deal = dealt + board@;
            assert(universe().to_multiset() =~= deck@.to_multiset().add(full_deal.to_multiset()));
            lemma_universe_distinct();
            universe().lemma_multiset_has_no_duplicates();
            assert forall|x: Card| full_deal.to_multiset().contains(x) implies full_deal
                .to_multiset().count(x) == 1 by {
                assert(universe().to_multiset().count(x) == deck@.to_multiset().count(x)
                    + full_deal.to_multiset().count(x));
                assert(full_deal.to_multiset().count(x) >= 1);
                assert(universe().to_multiset().contains(x));
                assert(universe().to_multiset().count(x) == 1);
            }
            full_deal.lemma_multiset_has_no_duplicates_conv();
            assert(!has_duplicate(full_deal));
        }
        HoldemSimulation { game_state, holes, board }
    }

    /// The strength of each seat's showdown hand, in seat order.
    fn showdown_ranks(&self) -> (ranks: Vec<u32>)
        requires
            self.wf(),
        ensures
            ranks@.len() == self.holes@.len(),
            forall|p: int| 0 <= p < ranks@.len() ==> #[trigger] ranks@[p] as int == best_rank(
                self.seven(p),
            ),
    {
        let n = self.holes.len();
        let mut ranks: Vec<u32> = Vec::new();
        let mut p: usize = 0;
        while p < n
            invariant
                self.wf(),
                n == self.holes@.len(),
                p <= n,
                ranks@.len() == p,
                forall|q: int| 0 <= q < p ==> #[trigger] ranks@[q] as int == best_rank(
                    self.seven(q),
                ),
            decreases n - p,
        {
            let mut seven: Vec<Card> = Vec::new();
            seven.push(self.holes[p][0]);
            seven.push(self.holes[p][1]);
            proof {
                assert(seven@ =~= self.holes@[p as int]@ + self.board@.take(0));
            }
            let mut b: usize = 0;
            while b < 5
                invariant
                    self.wf(),
                    p < self.holes@.len(),
                    b <= 5,
                    seven@ == self.holes@[p as int]@ + self.board@.take(b as int),
                decreases 5 - b,
            {
                seven.push(self.board[b]);
                proof {
                    assert((self.holes@[p as int]@ + self.board@.take(b as int)).push(
                        self.board@[b as int],
                    ) =~= self.holes@[p as int]@ + self.board@.take(b + 1));
                }
                b += 1;
            }
            proof {
                assert(self.board@.take(5) =~= self.board@);
                assert(seven@ =~= self.seven(p as int));
            }
            let v = match evaluate(&seven) {
                Ok(v) => v,
                Err(_) => {
                    proof {
                        assert(false);
                    }
                    0
                },
            };
            proof {
                lemma_best_of_is_best_rank(self.seven(p as int), v as int);
            }
            ranks.push(v);
            p += 1;
        }
        ranks
    }

    /// The winning seats, walked clockwise from the button, given each
    /// seat's showdown strength.
    fn collect_winners(&self, ranks: &Vec<u32>) -> (w: Vec<usize>)
        requires
            self.wf(),
            ranks@.len() == self.holes@.len(),
            forall|p: int| 0 <= p < ranks@.len() ==> #[trigger] ranks@[p] as int == best_rank(
                self.seven(p),
            ),
        ensures
            w@.map_values(|x: usize| x as int) == self.winner_seats(),
            w@.len() >= 1,
            forall|j: int| 0 <= j < w@.len() ==> (#[trigger] w@[j]) < self.holes@.len(),
    {
        let n = ranks.len();
        let mut best: u32 = ranks[0];
        let mut i: usize = 1;
        while i < n
            invariant
                n == ranks@.len(),
                n >= 2,
                1 <= i <= n,
                exists|q: int| 0 <= q < i && #[trigger] ranks@[q] == best,
                forall|q: int| 0 <= q < i ==> #[trigger] ranks@[q] <= best,
            decreases n - i,
        {
            if ranks[i] > best {
                best = ranks[i];
            }
            i += 1;
        }
        proof {
            assert forall|p: int| 0 <= p < n implies (self.is_winner(p) <==> ranks@[p]
                == best) by {
                let q0 = choose|q: int| 0 <= q < n && #[trigger] ranks@[q] == best;
                if ranks@[p] == best {
                    assert forall|q: int| 0 <= q < n implies best_rank(#[trigger] self.seven(q))
                        <= best_rank(self.seven(p)) by {
                        assert(ranks@[q] <= best);
                    }
                } else {
                    assert(best_rank(self.seven(q0)) > best_rank(self.seven(p)));
                }
            }
        }
        let btn = self.game_state.button;
        let mut w: Vec<usize> = Vec::new();
        proof {
            reveal(Seq::filter);
            assert(w@.map_values(|x: usize| x as int) =~= self.rotation().take(0).filter(
                |p: int| self.is_winner(p),
            ));
        }
        let mut i: usize = 0;
        while i < n
            invariant
                self.wf(),
                n == ranks@.len(),
                n == self.holes@.len(),
                n >= 2,
                btn == self.game_state.button,
                btn < n,
                i <= n,
                forall|p: int| 0 <= p < n ==> (self.is_winner(p) <==> ranks@[p] == best),
                w@.map_values(|x: usize| x as int) == self.rotation().take(i as int).filter(
                    |p: int| self.is_winner(p),
                ),
                forall|j: int| 0 <= j < w@.len() ==> (#[trigger] w@[j]) < n,
            decreases n - i,
        {
            let seat = if i < n - 1 - btn {
                btn + 1 + i
            } else {
                i - (n - 1 - btn)
            };
            proof {
                assert(self.rotation()[i as int] == seat as int);
            }
            let ghost w_pre = w@;
            if ranks[seat] == best {
                w.push(seat);
            }
            proof {
                reveal(Seq::filter);
                let pred = |p: int| self.is_winner(p);
                assert(self.rotation().take(i + 1).drop_last() =~= self.rotation().take(i as int));
                assert(self.rotation().take(i + 1).last() == seat as int);
                assert(self.rotation().take(i + 1).filter(pred) == if pred(seat as int) {
                    w_pre.map_values(|x: usize| x as int).push(seat as int)
                } else {
                    w_pre.map_values(|x: usize| x as int)
                });
                if ranks@[seat as int] == best {
                    assert(w@.map_values(|x: usize| x as int) =~= w_pre.map_values(
                        |x: usize| x as int,
                    ).push(seat as int));
                }
            }
            i += 1;
        }
        proof {
            assert(self.rotation().take(n as int) =~= self.rotation());
            let q0 = choose|q: int| 0 <= q < n && #[trigger] ranks@[q] == best;
            assert(self.is_winner(q0));
            let pos: int = if q0 > btn {
                q0 - btn - 1
            } else {
                q0 + n - btn - 1
            };
            assert(self.rotation()[pos] == q0);
            self.rotation().lemma_filter_contains(|p: int| self.is_winner(p), pos);
            assert(self.winner_seats().contains(q0));
            assert(w@.map_values(|x: usize| x as int).len() >= 1);
        }
        w
    }

    /// Advances the hand by exactly one transition:
    /// Preflop, Flop, Turn and River each pass to the next street without
    /// touching chips; at Showdown the pot is awarded to the seats with
    /// the strongest seven-card hands (split evenly, remainder chips to
    /// the earliest winners clockwise from the button) and the hand is
    /// Complete. Total chips (stacks plus pot) are conserved by every
    /// step, and a completed hand has an empty pot, so a full run from
    /// deal to Complete leaves the sum of the stacks unchanged.
    /// Calling `step` on a complete hand fails with `GameAlreadyComplete`
    /// and mutates nothing.
    pub fn step(&mut self) -> (r: Result<StepResult, PokerError>)
        requires
            old(self).wf(),
        ensures
            final(self).wf(),
            final(self).holes == old(self).holes,
            final(self).board == old(self).board,
            final(self).game_state.button == old(self).game_state.button,
            final(self).game_state.small_blind == old(self).game_state.small_blind,
            final(self).game_state.big_blind == old(self).game_state.big_blind,
            final(self).game_state.stacks@.len() == old(self).game_state.stacks@.len(),
            match r {
                Err(e) => e == PokerError::GameAlreadyComplete && old(self).game_state.street
                    == Street::Complete && *final(self) == *old(self),
                Ok(sr) => {
                    &&& old(self).game_state.street != Street::Complete
                    &&& final(self).game_state.street == next_street(old(self).game_state.street)
                    &&& final(self).game_state.total_chips() == old(self).game_state.total_chips()
                    &&& sr.from_street == old(self).game_state.street
                    &&& sr.to_street == final(self).game_state.street
                    &&& (old(self).game_state.street != Street::Showdown ==> {
                        &&& final(self).game_state.stacks == old(self).game_state.stacks
                        &&& final(self).game_state.pot == old(self).game_state.pot
                        &&& sr.pot_awarded == 0
                        &&& sr.winners@.len() == 0
                    })
                    &&& (old(self).game_state.street == Street::Showdown ==> {
                        let w = old(self).winner_seats();
                        let pot = old(self).game_state.pot as int;
                        &&& w.len() >= 1
                        &&& final(self).game_state.pot == 0
                        &&& sr.pot_awarded == old(self).game_state.pot
                        &&& sr.winners@.map_values(|x: usize| x as int) == w
                        &&& final(self).game_state.stacks@ == paid_stacks(
                            old(self).game_state.stacks@,
                            w,
                            pot / w.len() as int,
                            pot % w.len() as int,
                        )
                    })
                },
            },
    {
        let from = self.game_state.street;
        match from {
            Street::Complete => Err(PokerError::GameAlreadyComplete),
            Street::Showdown => {
                let ranks = self.showdown_ranks();
                let winners = self.collect_winners(&ranks);
                let pot = self.game_state.pot;
                let k = winners.len();
                let share: u64 = pot / (k as u64);
                let rem: u64 = pot % (k as u64);
                let ghost stacks0 = self.game_state.stacks@;
                let ghost wseq = old(self).winner_seats();
                proof {
                    let ki = k as int;
                    let poti = pot as int;
                    vstd::arithmetic::div_mod::lemma_fundamental_div_mod(poti, ki);
                    assert(poti == ki * (poti / ki) + (poti % ki));
                    assert(share as int == poti / ki);
                    assert(rem as int == poti % ki);
                    assert(ki * (poti / ki) == ki * (share as int));
                    assert(ki * (share as int) == share as int * ki) by (nonlinear_arith);
                    assert(share as int * k as int + rem as int == pot as int);
                    lemma_seq_sum_nonneg(stacks0);
                }
                let mut j: usize = 0;
                while j < k
                    invariant
                        j <= k,
                        k == winners@.len(),
                        k == wseq.len(),
                        k >= 1,
                        winners@.map_values(|x: usize| x as int) == wseq,
                        forall|t: int| 0 <= t < winners@.len() ==> (#[trigger] winners@[t])
                            < stacks0.len(),
                        share as int * k as int + rem as int == pot as int,
                        seq_sum(stacks0) >= 0,
                        seq_sum(stacks0) + pot <= u64::MAX,
                        self.game_state.stacks@ == paid_stacks(
                            stacks0,
                            wseq.take(j as int),
                            share as int,
                            rem as int,
                        ),
                        self.game_state.pot == pot,
                        self.game_state.street == Street::Showdown,
                        self.game_state.button == old(self).game_state.button,
                        self.game_state.small_blind == old(self).game_state.small_blind,
                        self.game_state.big_blind == old(self).game_state.big_blind,
                        self.holes == old(self).holes,
                        self.board == old(self).board,
                        stacks0.len() == old(self).game_state.stacks@.len(),
                    decreases k - j,
                {
                    proof {
                        assert(share as int * j as int <= share as int * k as int) by (
                        nonlinear_arith)
                            requires
                                0 <= share as int,
                                0 <= j as int <= k as int,
                        ;
                        assert(share as int * (j + 1) == share as int * j as int + share as int)
                            by (nonlinear_arith);
                        assert(share as int * (j + 1) <= share as int * k as int) by (
                        nonlinear_arith)
                            requires
                                0 <= share as int,
                                0 <= j as int + 1 <= k as int,
                        ;
                        assert(forall|t: int| 0 <= t < wseq.take(j as int).len()
                            ==> 0 <= #[trigger] wseq.take(j as int)[t] < stacks0.len());
                        lemma_paid_sum(stacks0, wseq.take(j as int), share as int, rem as int);
                        assert(forall|t: int| 0 <= t < wseq.take(j + 1).len() ==> 0
                            <= #[trigger] wseq.take(j + 1)[t] < stacks0.len());
                        lemma_paid_sum(stacks0, wseq.take(j + 1), share as int, rem as int);
                        assert(wseq.take(j + 1).drop_last() =~= wseq.take(j as int));
                        lemma_seq_sum_elem(
                            paid_stacks(stacks0, wseq.take(j as int), share as int, rem as int),
                            wseq[j as int],
                        );
                    }
                    let wj = winners[j];
                    let bonus: u64 = if (j as u64) < rem {
                        1
                    } else {
                        0
                    };
                    let cur = self.game_state.stacks[wj];
                    self.game_state.stacks[wj] = cur + share + bonus;
                    j += 1;
                }
                proof {
                    assert(wseq.take(k as int) =~= wseq);
                    lemma_paid_sum(stacks0, wseq, share as int, rem as int);
                }
                self.game_state.pot = 0;
                self.game_state.street = Street::Complete;
                Ok(
                    StepResult {
                        from_street: from,
                        to_street: Street::Complete,
                        pot_awarded: pot,
                        winners,
                    },
                )
            },
            _ => {
                let to = match from {
                    Street::Preflop => Street::Flop,
                    Street::Flop => Street::Turn,
                    Street::Turn => Street::River,
                    _ => Street::Showdown,
                };
                self.game_state.street = to;
                Ok(
                    StepResult {
                        from_street: from,
                        to_street: to,
                        pot_awarded: 0,
                        winners: Vec::new(),
                    },
                )
            },
        }
    }
}

} // verus!
