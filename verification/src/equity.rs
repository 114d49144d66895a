use vstd::prelude::*;

verus! {

use crate::cards::Card;
use crate::deck::{
    Rng, has_duplicate, lemma_unseen_distinct, remaining, sample_without_replacement, unseen,
};
use crate::errors::PokerError;
use crate::eval::{best_rank, evaluate, lemma_best_of_is_best_rank};
use crate::game::{lemma_seq_sum_elem, lemma_seq_sum_nonneg, lemma_seq_sum_update, seq_sum};

/// All hole cards of a deal, flattened in seat order.
pub open spec fn holes_flat(hs: Seq<Seq<Card>>) -> Seq<Card>
    decreases hs.len(),
{
    if hs.len() == 0 {
        Seq::empty()
    } else {
        holes_flat(hs.drop_last()) + hs.last()
    }
}

/// The cards already known before sampling: every hole card, then the
/// known board.
pub open spec fn known_of(hs: Seq<Seq<Card>>, board: Seq<Card>) -> Seq<Card> {
    holes_flat(hs) + board
}

/// The views of a vector of hands.
pub open spec fn hand_views(hands: Seq<Vec<Card>>) -> Seq<Seq<Card>> {
    hands.map_values(|h: Vec<Card>| h@)
}

/// The showdown strength of seat `p`: the best five cards of its hole
/// cards plus the completed board.
pub open spec fn seat_strength(hs: Seq<Seq<Card>>, full_board: Seq<Card>, p: int) -> int {
    best_rank(hs[p] + full_board)
}

/// Seat `p` strictly beats every other seat on this completed board.
pub open spec fn sole_winner(hs: Seq<Seq<Card>>, full_board: Seq<Card>, p: int) -> bool {
    &&& 0 <= p < hs.len()
    &&& forall|q: int|
        0 <= q < hs.len() && q != p ==> #[trigger] seat_strength(hs, full_board, q)
            < seat_strength(hs, full_board, p)
}

/// Seat `p` shares the top strength on this completed board with at least
/// one other seat.
pub open spec fn tied_top(hs: Seq<Seq<Card>>, full_board: Seq<Card>, p: int) -> bool {
    &&& 0 <= p < hs.len()
    &&& (forall|q: int|
        0 <= q < hs.len() ==> #[trigger] seat_strength(hs, full_board, q) <= seat_strength(
            hs,
            full_board,
            p,
        ))
    &&& (exists|q: int|
        0 <= q < hs.len() && q != p && #[trigger] seat_strength(hs, full_board, q)
            == seat_strength(hs, full_board, p))
}

/// A completed board whose top strength is shared by two or more seats.
pub open spec fn tied_trial(hs: Seq<Seq<Card>>, full_board: Seq<Card>) -> bool {
    exists|p: int| #[trigger] tied_top(hs, full_board, p)
}

/// One trial's board completion: distinct cards drawn from the unseen
/// deck that extend the known board to exactly five.
pub open spec fn valid_completion(comp: Seq<Card>, known: Seq<Card>, board_len: int) -> bool {
    &&& comp.len() + board_len == 5
    &&& (forall|i: int| 0 <= i < comp.len() ==> unseen(known).contains(#[trigger] comp[i]))
    &&& !has_duplicate(comp)
}

/// Number of trials among the completions `comps` that seat `p` wins
/// outright.
pub open spec fn count_won(hs: Seq<Seq<Card>>, board: Seq<Card>, comps: Seq<Seq<Card>>, p: int) -> nat
    decreases comps.len(),
{
    if comps.len() == 0 {
        0
    } else {
        count_won(hs, board, comps.drop_last(), p) + (if sole_winner(hs, board + comps.last(), p) {
            1nat
        } else {
            0nat
        })
    }
}

/// Number of trials among the completions `comps` whose top strength is
/// shared.
pub open spec fn count_tied(hs: Seq<Seq<Card>>, board: Seq<Card>, comps: Seq<Seq<Card>>) -> nat
    decreases comps.len(),
{
    if comps.len() == 0 {
        0
    } else {
        count_tied(hs, board, comps.drop_last()) + (if tied_trial(hs, board + comps.last()) {
            1nat
        } else {
            0nat
        })
    }
}

/// Number of tied trials among the completions `comps` that seat `p` is
/// part of.
pub open spec fn count_tied_for(
    hs: Seq<Seq<Card>>,
    board: Seq<Card>,
    comps: Seq<Seq<Card>>,
    p: int,
) -> nat
    decreases comps.len(),
{
    if comps.len() == 0 {
        0
    } else {
        count_tied_for(hs, board, comps.drop_last(), p) + (if tied_top(
            hs,
            board + comps.last(),
            p,
        ) {
            1nat
        } else {
            0nat
        })
    }
}

/// Per-seat win and tie tallies over a number of independent trials.
/// A trial with a sole strongest seat adds one to that seat's `wins`
/// entry; a trial where two or more seats share the top strength adds one
/// to `tie_trials` and one to each tied seat's `ties` entry, so the tie
/// credit is a dedicated bucket, not a split of a win.
pub struct SimulationResult {
    pub wins: Vec<u64>,
    pub ties: Vec<u64>,
    pub tie_trials: u64,
    pub trials: u64,
}

/// The tallies of `res` are exactly the outcomes of the board completions
/// `comps`: one valid completion per trial, `wins[p]` the number of
/// completions seat `p` wins outright, `tie_trials` the number whose top
/// strength is shared, and `ties[p]` the number of those that seat `p` is
/// part of. This is the tie policy as a contract: a tied trial credits a
/// dedicated tie bucket for every tied seat and no seat's wins.
pub open spec fn faithful_tallies(
    hs: Seq<Seq<Card>>,
    board: Seq<Card>,
    comps: Seq<Seq<Card>>,
    res: SimulationResult,
) -> bool {
    &&& comps.len() == res.trials
    &&& (forall|t: int|
        0 <= t < comps.len() ==> valid_completion(
            #[trigger] comps[t],
            known_of(hs, board),
            board.len() as int,
        ))
    &&& (forall|p: int|
        0 <= p < res.wins@.len() ==> (#[trigger] res.wins@[p]) as nat == count_won(
            hs,
            board,
            comps,
            p,
        ))
    &&& res.tie_trials as nat == count_tied(hs, board, comps)
    &&& (forall|p: int|
        0 <= p < res.ties@.len() ==> (#[trigger] res.ties@[p]) as nat == count_tied_for(
            hs,
            board,
            comps,
            p,
        ))
}

impl SimulationResult {
    /// The share of trials seat `i` won outright, in hundredths of a
    /// percent.
    pub fn win_percent_x100(&self, i: usize) -> (r: u64)
        requires
            self.trials >= 1,
            i < self.wins@.len(),
            self.wins@[i as int] <= self.trials,
        ensures
            r as int == self.wins@[i as int] as int * 10000 / self.trials as int,
    {
        percent_x100(self.wins[i], self.trials)
    }
}

/// `count` out of `trials`, in hundredths of a percent, rounded down.
pub fn percent_x100(count: u64, trials: u64) -> (r: u64)
    requires
        trials >= 1,
        count <= trials,
    ensures
        r as int == count as int * 10000 / trials as int,
        r <= 10000,
{
    let r128: u128 = (count as u128) * 10000 / (trials as u128);
    proof {
        assert(count as int * 10000 / trials as int <= 10000) by (nonlinear_arith)
            requires
                0 <= count as int <= trials as int,
                trials as int >= 1,
        ;
    }
    r128 as u64
}

/// A fresh copy of a card vector.
fn copy_cards(v: &Vec<Card>) -> (r: Vec<Card>)
    ensures
        r@ == v@,
{
    let mut r: Vec<Card> = Vec::new();
    let mut i: usize = 0;
    while i < v.len()
        invariant
            i <= v@.len(),
            r@ == v@.take(i as int),
        decreases v@.len() - i,
    {
        r.push(v[i]);
        proof {
            assert(v@.take(i as int).push(v@[i as int]) =~= v@.take(i + 1));
        }
        i += 1;
    }
    proof {
        assert(v@.take(v@.len() as int) =~= v@);
    }
    r
}

/// The largest strength in `ranks`, one seat that attains it, and whether
/// any other seat attains it too.
fn max_rank_info(ranks: &Vec<u32>) -> (res: (u32, usize, bool))
    requires
        ranks@.len() >= 1,
    ensures
        ({
            let (best, idx, shared) = res;
            &&& idx < ranks@.len()
            &&& ranks@[idx as int] == best
            &&& (forall|q: int| 0 <= q < ranks@.len() ==> #[trigger] ranks@[q] <= best)
            &&& (shared <==> exists|q: int|
                0 <= q < ranks@.len() && q != idx && #[trigger] ranks@[q] == best)
        }),
{
    let n = ranks.len();
    let mut best: u32 = ranks[0];
    let mut idx: usize = 0;
    let mut i: usize = 1;
    while i < n
        invariant
            n == ranks@.len(),
            1 <= i <= n,
            idx < i,
            ranks@[idx as int] == best,
            forall|q: int| 0 <= q < i ==> #[trigger] ranks@[q] <= best,
        decreases n - i,
    {
        if ranks[i] > best {
            best = ranks[i];
            idx = i;
        }
        i += 1;
    }
    let mut shared = false;
    let mut i: usize = 0;
    while i < n
        invariant
            n == ranks@.len(),
            i <= n,
            idx < n,
            ranks@[idx as int] == best,
            shared <==> exists|q: int| 0 <= q < i && q != idx && #[trigger] ranks@[q] == best,
        decreases n - i,
    {
        if i != idx && ranks[i] == best {
            shared = true;
        }
        i += 1;
    }
    (best, idx, shared)
}

/// Estimates each seat's chance of winning at showdown by repeated random
/// completion of the board. Each trial samples the missing board cards
/// without replacement from the unseen deck, evaluates every seat's best
/// seven-card hand, and tallies the outcome; trials are independent and
/// nothing carries over between them. Fails with `InvalidPlayerCount` for
/// fewer than two hands, `BoardOverflow` for more than five board cards,
/// `InvalidTrialCount` for zero trials, `DuplicateCard` when a card is
/// repeated among the hole cards and board, and `InsufficientCards` when
/// too few unseen cards remain to complete the board.
pub fn simulate_equity(hands: &Vec<Vec<Card>>, board: &Vec<Card>, trials: u64, seed: u64) -> (r:
    Result<SimulationResult, PokerError>)
    requires
        forall|i: int| 0 <= i < hands@.len() ==> (#[trigger] hands@[i])@.len() == 2,
    ensures
        ({
            let n = hands@.len() as int;
            let known = known_of(hand_views(hands@), board@);
            match r {
                Err(e) =>
                    if n < 2 {
                        e == PokerError::InvalidPlayerCount
                    } else if board@.len() > 5 {
                        e == PokerError::BoardOverflow
                    } else if trials == 0 {
                        e == PokerError::InvalidTrialCount
                    } else if has_duplicate(known) {
                        e == PokerError::DuplicateCard
                    } else {
                        e == PokerError::InsufficientCards && unseen(known).len() + board@.len() < 5
                    },
                Ok(res) => {
                    &&& n >= 2
                    &&& board@.len() <= 5
                    &&& trials >= 1
                    &&& !has_duplicate(known)
                    &&& unseen(known).len() + board@.len() >= 5
                    &&& res.trials == trials
                    &&& res.wins@.len() == n
                    &&& res.ties@.len() == n
                    &&& seq_sum(res.wins@) + res.tie_trials == trials
                    &&& res.tie_trials <= trials
                    &&& (forall|i: int| 0 <= i < n ==> (#[trigger] res.wins@[i]) <= trials)
                    &&& (forall|i: int| 0 <= i < n ==> (#[trigger] res.ties@[i]) <= res.tie_trials)
                    &&& exists|comps: Seq<Seq<Card>>| #[trigger] faithful_tallies(
                        hand_views(hands@),
                        board@,
                        comps,
                        res,
                    )
                },
            }
        }),
{
    let n = hands.len();
    if n < 2 {
        return Err(PokerError::InvalidPlayerCount);
    }
    if board.len() > 5 {
        return Err(PokerError::BoardOverflow);
    }
    if trials == 0 {
        return Err(PokerError::InvalidTrialCount);
    }
    let ghost hviews = hand_views(hands@);
    let mut known: Vec<Card> = Vec::new();
    let mut i: usize = 0;
    while i < n
        invariant
            n == hands@.len(),
            i <= n,
            hviews == hand_views(hands@),
            forall|q: int| 0 <= q < hands@.len() ==> (#[trigger] hands@[q])@.len() == 2,
            known@ == holes_flat(hviews.take(i as int)),
        decreases n - i,
    {
        proof {
            assert(hviews.take(i + 1).drop_last() =~= hviews.take(i as int));
            assert(hviews.take(i + 1).last() == hands@[i as int]@);
        }
        known.push(hands[i][0]);
        known.push(hands[i][1]);
        proof {
            assert(known@ =~= holes_flat(hviews.take(i as int)) + hands@[i as int]@);
        }
        i += 1;
    }
    proof {
        assert(hviews.take(n as int) =~= hviews);
    }
    let mut b: usize = 0;
    while b < board.len()
        invariant
            b <= board@.len(),
            known@ == holes_flat(hviews) + board@.take(b as int),
            hviews == hand_views(hands@),
        decreases board@.len() - b,
    {
        known.push(board[b]);
        proof {
            assert((holes_flat(hviews) + board@.take(b as int)).push(board@[b as int])
                =~= holes_flat(hviews) + board@.take(b + 1));
        }
        b += 1;
    }
    proof {
        assert(board@.take(board@.len() as int) =~= board@);
        assert(known@ == known_of(hand_views(hands@), board@));
    }
    let base_deck = match remaining(&known) {
        Ok(d) => d,
        Err(e) => {
            return Err(e);
        },
    };
    let need = 5 - board.len();
    if base_deck.len() < need {
        return Err(PokerError::InsufficientCards);
    }
    let mut rng = Rng::seeded(seed);
    let mut wins: Vec<u64> = Vec::new();
    let mut ties: Vec<u64> = Vec::new();
    let mut p: usize = 0;
    while p < n
        invariant
            p <= n,
            wins@.len() == p,
            ties@.len() == p,
            forall|q: int| 0 <= q < p ==> (#[trigger] wins@[q]) == 0,
            forall|q: int| 0 <= q < p ==> (#[trigger] ties@[q]) == 0,
        decreases n - p,
    {
        wins.push(0);
        ties.push(0);
        p += 1;
    }
    proof {
        lemma_seq_sum_zero(wins@);
    }
    let mut tie_trials: u64 = 0;
    let ghost mut comps: Seq<Seq<Card>> = Seq::<Seq<Card>>::empty();
    let mut t: u64 = 0;
    while t < trials
        invariant
            t <= trials,
            n == hands@.len(),
            n >= 2,
            board@.len() <= 5,
            need == 5 - board@.len(),
            base_deck@.len() >= need,
            forall|q: int| 0 <= q < hands@.len() ==> (#[trigger] hands@[q])@.len() == 2,
            hviews == hand_views(hands@),
            hviews.len() == n,
            base_deck@ == unseen(known_of(hviews, board@)),
            wins@.len() == n,
            ties@.len() == n,
            seq_sum(wins@) + tie_trials == t,
            tie_trials <= t,
            forall|q: int| 0 <= q < n ==> (#[trigger] wins@[q]) <= t,
            forall|q: int| 0 <= q < n ==> (#[trigger] ties@[q]) <= tie_trials,
            comps.len() == t,
            forall|tt: int| 0 <= tt < comps.len() ==> valid_completion(
                #[trigger] comps[tt],
                known_of(hviews, board@),
                board@.len() as int,
            ),
            forall|i: int| 0 <= i < n ==> (#[trigger] wins@[i]) as nat == count_won(
                hviews,
                board@,
                comps,
                i,
            ),
            tie_trials as nat == count_tied(hviews, board@, comps),
            forall|i: int| 0 <= i < n ==> (#[trigger] ties@[i]) as nat == count_tied_for(
                hviews,
                board@,
                comps,
                i,
            ),
        decreases trials - t,
    {
        let mut deck = copy_cards(&base_deck);
        let sampled = sample_without_replacement(&mut deck, need, &mut rng);
        proof {
            broadcast use vstd::seq_lib::group_to_multiset_ensures;
            broadcast use vstd::multiset::group_multiset_axioms;

            let kspec = known_of(hviews, board@);
            lemma_unseen_distinct(kspec);
            unseen(kspec).lemma_multiset_has_no_duplicates();
            assert forall|i: int| 0 <= i < sampled@.len() implies unseen(kspec).contains(
                #[trigger] sampled@[i],
            ) by {
                assert(sampled@.contains(sampled@[i]));
                assert(sampled@.to_multiset().count(sampled@[i]) > 0);
                assert(unseen(kspec).to_multiset().count(sampled@[i]) > 0);
            }
            assert forall|x: Card| sampled@.to_multiset().contains(x) implies sampled@.to_multiset()
                .count(x) == 1 by {
                assert(sampled@.to_multiset().count(x) > 0);
                assert(unseen(kspec).to_multiset().count(x) > 0);
                assert(unseen(kspec).to_multiset().contains(x));
            }
            sampled@.lemma_multiset_has_no_duplicates_conv();
            assert(!has_duplicate(sampled@));
            assert(valid_completion(sampled@, kspec, board@.len() as int));
        }
        let mut full_board = copy_cards(board);
        proof {
            assert(board@ + sampled@.take(0) =~= board@);
        }
        let mut s: usize = 0;
        while s < sampled.len()
            invariant
                s <= sampled@.len(),
                full_board@ == board@ + sampled@.take(s as int),
                full_board@.len() == board@.len() + s,
            decreases sampled@.len() - s,
        {
            full_board.push(sampled[s]);
            proof {
                assert((board@ + sampled@.take(s as int)).push(sampled@[s as int]) =~= board@
                    + sampled@.take(s + 1));
            }
            s += 1;
        }
        proof {
            assert(sampled@.take(sampled@.len() as int) =~= sampled@);
            assert(full_board@ == board@ + sampled@);
        }
        let ghost full = full_board@;
        let mut ranks: Vec<u32> = Vec::new();
        let mut p: usize = 0;
        while p < n
            invariant
                p <= n,
                n == hands@.len(),
                hviews == hand_views(hands@),
                hviews.len() == n,
                ranks@.len() == p,
                full == full_board@,
                full_board@.len() == 5,
                forall|q: int| 0 <= q < hands@.len() ==> (#[trigger] hands@[q])@.len() == 2,
                forall|q: int| 0 <= q < p ==> (#[trigger] ranks@[q]) as int == seat_strength(
                    hviews,
                    full,
                    q,
                ),
            decreases n - p,
        {
            let mut seven = copy_cards(&hands[p]);
            proof {
                assert(hands@[p as int]@ + full_board@.take(0) =~= hands@[p as int]@);
            }
            let mut s: usize = 0;
            while s < 5
                invariant
                    s <= 5,
                    full_board@.len() == 5,
                    p < hands@.len(),
                    seven@ == hands@[p as int]@ + full_board@.take(s as int),
                    seven@.len() == hands@[p as int]@.len() + s,
                    forall|q: int| 0 <= q < hands@.len() ==> (#[trigger] hands@[q])@.len() == 2,
                decreases 5 - s,
            {
                seven.push(full_board[s]);
                proof {
                    assert((hands@[p as int]@ + full_board@.take(s as int)).push(
                        full_board@[s as int],
                    ) =~= hands@[p as int]@ + full_board@.take(s + 1));
                }
                s += 1;
            }
            proof {
                assert(full_board@.take(5) =~= full_board@);
                assert(seven@ == hviews[p as int] + full);
            }
            let v = match evaluate(&seven) {
                Ok(v) => v,
                Err(_) => {
                    proof {
                        assert(false);
                    }
                    0
                },
            };
            proof {
                lemma_best_of_is_best_rank(hviews[p as int] + full, v as int);
                assert(v as int == seat_strength(hviews, full, p as int));
            }
            ranks.push(v);
            p += 1;
        }
        let (best, idx, shared) = max_rank_info(&ranks);
        let ghost ii = idx as int;
        proof {
            assert(comps.push(sampled@).drop_last() =~= comps);
            assert(comps.push(sampled@).last() == sampled@);
            assert(board@ + sampled@ == full);
            if !shared {
                assert forall|q: int|
                    0 <= q < n && q != ii implies #[trigger] seat_strength(hviews, full, q)
                    < seat_strength(hviews, full, ii) by {
                    assert(ranks@[q] <= best);
                    assert(ranks@[q] != best);
                }
                assert(sole_winner(hviews, full, ii));
                assert forall|pq: int| pq != ii implies !(#[trigger] sole_winner(
                    hviews,
                    full,
                    pq,
                )) by {
                    if sole_winner(hviews, full, pq) {
                        assert(seat_strength(hviews, full, ii) < seat_strength(hviews, full, pq));
                        assert(seat_strength(hviews, full, pq) < seat_strength(hviews, full, ii));
                    }
                }
                assert forall|pq: int| !(#[trigger] tied_top(hviews, full, pq)) by {
                    if tied_top(hviews, full, pq) {
                        if pq == ii {
                            let q = choose|q: int|
                                0 <= q < hviews.len() && q != pq && #[trigger] seat_strength(
                                    hviews,
                                    full,
                                    q,
                                ) == seat_strength(hviews, full, pq);
                            assert(seat_strength(hviews, full, q) < seat_strength(
                                hviews,
                                full,
                                ii,
                            ));
                        } else {
                            assert(seat_strength(hviews, full, ii) <= seat_strength(
                                hviews,
                                full,
                                pq,
                            ));
                            assert(seat_strength(hviews, full, pq) < seat_strength(
                                hviews,
                                full,
                                ii,
                            ));
                        }
                    }
                }
                assert(!tied_trial(hviews, full));
            } else {
                let qq = choose|q: int| 0 <= q < n && q != ii && #[trigger] ranks@[q] == best;
                assert(seat_strength(hviews, full, qq) == seat_strength(hviews, full, ii));
                assert forall|q: int| 0 <= q < n implies #[trigger] seat_strength(hviews, full, q)
                    <= seat_strength(hviews, full, ii) by {
                    assert(ranks@[q] <= best);
                }
                assert(tied_top(hviews, full, ii));
                assert(tied_trial(hviews, full));
                assert forall|pq: int| 0 <= pq < n implies (tied_top(hviews, full, pq) <==> ranks@[
                    pq] == best) by {
                    if ranks@[pq] == best {
                        assert forall|q: int|
                            0 <= q < n implies #[trigger] seat_strength(hviews, full, q)
                            <= seat_strength(hviews, full, pq) by {
                            assert(ranks@[q] <= best);
                        }
                        if pq == ii {
                            assert(seat_strength(hviews, full, qq) == seat_strength(
                                hviews,
                                full,
                                pq,
                            ));
                        } else {
                            assert(seat_strength(hviews, full, ii) == seat_strength(
                                hviews,
                                full,
                                pq,
                            ));
                        }
                        assert(tied_top(hviews, full, pq));
                    } else {
                        if tied_top(hviews, full, pq) {
                            assert(seat_strength(hviews, full, ii) <= seat_strength(
                                hviews,
                                full,
                                pq,
                            ));
                        }
                        assert(!tied_top(hviews, full, pq));
                    }
                }
                assert forall|pq: int| !(#[trigger] sole_winner(hviews, full, pq)) by {
                    if sole_winner(hviews, full, pq) {
                        if pq == ii {
                            assert(seat_strength(hviews, full, qq) < seat_strength(
                                hviews,
                                full,
                                ii,
                            ));
                        } else {
                            assert(seat_strength(hviews, full, ii) < seat_strength(
                                hviews,
                                full,
                                pq,
                            ));
                            assert(ranks@[pq] <= best);
                        }
                    }
                }
            }
        }
        if !shared {
            proof {
                lemma_seq_sum_nonneg(wins@);
                lemma_seq_sum_elem(wins@, ii);
                lemma_seq_sum_update(wins@, ii, (wins@[ii] + 1) as u64);
            }
            let cur = wins[idx];
            wins[idx] = cur + 1;
        } else {
            let ghost ties_pre = ties@;
            let mut p: usize = 0;
            while p < n
                invariant
                    p <= n,
                    n == ranks@.len(),
                    ties@.len() == n,
                    ties_pre.len() == n,
                    tie_trials <= t < trials,
                    forall|q: int| 0 <= q < n ==> (#[trigger] ties_pre[q]) <= tie_trials,
                    forall|q: int| 0 <= q < p ==> (#[trigger] ties@[q]) as int == ties_pre[q] + (
                    if ranks@[q] == best {
                        1int
                    } else {
                        0int
                    }),
                    forall|q: int| p <= q < n ==> (#[trigger] ties@[q]) == ties_pre[q],
                decreases n - p,
            {
                if ranks[p] == best {
                    let cur = ties[p];
                    ties[p] = cur + 1;
                }
                p += 1;
            }
            tie_trials += 1;
        }
        proof {
            comps = comps.push(sampled@);
        }
        t += 1;
    }
    proof {
        lemma_seq_sum_nonneg(wins@);
    }
    let res = SimulationResult { wins, ties, tie_trials, trials };
    proof {
        assert(faithful_tallies(hand_views(hands@), board@, comps, res));
    }
    Ok(res)
}

proof fn lemma_seq_sum_zero(s: Seq<u64>)
    requires
        forall|q: int| 0 <= q < s.len() ==> (#[trigger] s[q]) == 0,
    ensures
        seq_sum(s) == 0,
    decreases s.len(),
{
    if s.len() > 0 {
        lemma_seq_sum_zero(s.drop_last());
    }
}

} // verus!
