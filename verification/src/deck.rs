use vstd::prelude::*;

verus! {

use crate::cards::{Card, card_from_index, card_index, card_of};
use crate::errors::PokerError;

/// Whether some card appears at two different positions of `s`.
pub open spec fn has_duplicate(s: Seq<Card>) -> bool {
    exists|i: int, j: int| 0 <= i < j < s.len() && s[i] == s[j]
}

/// The 52-card universe in canonical index order.
pub open spec fn universe() -> Seq<Card> {
    Seq::new(52, |i: int| card_of(i))
}

/// The unseen part of the universe: every card not among `known`, in
/// canonical order.
pub open spec fn unseen(known: Seq<Card>) -> Seq<Card> {
    universe().filter(|c: Card| !known.contains(c))
}

/// The canonical deck holds every card exactly once.
pub proof fn lemma_universe_distinct()
    ensures
        universe().no_duplicates(),
{
    assert forall|i: int, j: int|
        0 <= i < 52 && 0 <= j < 52 && i != j implies universe()[i] != universe()[j] by {
        assert(card_index(card_of(i)) == i);
        assert(card_index(card_of(j)) == j);
    }
}

proof fn lemma_filter_keeps_distinct(s: Seq<Card>, pred: spec_fn(Card) -> bool)
    requires
        s.no_duplicates(),
    ensures
        s.filter(pred).no_duplicates(),
        forall|x: Card| s.filter(pred).contains(x) ==> s.contains(x),
    decreases s.len(),
{
    reveal(Seq::filter);
    if s.len() > 0 {
        let d = s.drop_last();
        let x = s.last();
        assert(d.no_duplicates());
        lemma_filter_keeps_distinct(d, pred);
        let f = d.filter(pred);
        assert forall|y: Card| s.filter(pred).contains(y) implies s.contains(y) by {
            let i = choose|i: int| 0 <= i < s.filter(pred).len() && s.filter(pred)[i] == y;
            if pred(x) && i == s.filter(pred).len() - 1 {
                assert(s[s.len() - 1] == y);
            } else {
                assert(f.contains(y));
                assert(d.contains(y));
                let j = choose|j: int| 0 <= j < d.len() && d[j] == y;
                assert(s[j] == y);
            }
        }
        if pred(x) {
            assert(!d.contains(x));
            assert(!f.contains(x));
            let g = f.push(x);
            assert forall|i: int, j: int|
                0 <= i < g.len() && 0 <= j < g.len() && i != j implies g[i] != g[j] by {
                if i < g.len() - 1 && j < g.len() - 1 {
                    assert(g[i] == f[i] && g[j] == f[j]);
                } else if i == g.len() - 1 {
                    assert(f.contains(f[j]) && g[i] == x);
                } else {
                    assert(f.contains(f[i]) && g[j] == x);
                }
            }
            assert(s.filter(pred) == g);
        }
    }
}

/// The unseen part of the universe never repeats a card.
pub proof fn lemma_unseen_distinct(known: Seq<Card>)
    ensures
        unseen(known).no_duplicates(),
        !has_duplicate(unseen(known)),
{
    lemma_universe_distinct();
    lemma_filter_keeps_distinct(universe(), |c: Card| !known.contains(c));
}

/// Whether `v` holds `c`.
fn contains_card(v: &Vec<Card>, c: Card) -> (r: bool)
    ensures
        r == v@.contains(c),
{
    let mut i: usize = 0;
    while i < v.len()
        invariant
            i <= v@.len(),
            forall|a: int| 0 <= a < i ==> v@[a] != c,
        decreases v@.len() - i,
    {
        if v[i] == c {
            return true;
        }
        i += 1;
    }
    false
}

/// The full 52-card deck in canonical order.
pub fn full_deck() -> (d: Vec<Card>)
    ensures
        d@ == universe(),
{
    let mut d: Vec<Card> = Vec::new();
    let mut i: u8 = 0;
    while i < 52
        invariant
            i <= 52,
            d@.len() == i,
            forall|a: int| 0 <= a < i ==> d@[a] == card_of(a),
        decreases 52 - i,
    {
        d.push(card_from_index(i));
        i += 1;
    }
    proof {
        assert(d@ =~= universe());
    }
    d
}

/// Builds the deck of all cards not among `known`, in canonical order.
/// Fails with `DuplicateCard` exactly when `known` itself repeats a card;
/// `known` is left untouched.
pub fn remaining(known: &Vec<Card>) -> (r: Result<Vec<Card>, PokerError>)
    ensures
        match r {
            Ok(d) => !has_duplicate(known@) && d@ == unseen(known@),
            Err(e) => e == PokerError::DuplicateCard && has_duplicate(known@),
        },
{
    let n = known.len();
    let mut i: usize = 0;
    while i < n
        invariant
            n == known@.len(),
            i <= n,
            forall|a: int, b: int| 0 <= a < b < n && a < i ==> known@[a] != known@[b],
        decreases n - i,
    {
        let mut j: usize = i + 1;
        while j < n
            invariant
                n == known@.len(),
                i < n,
                i < j <= n,
                forall|a: int, b: int| 0 <= a < b < n && a < i ==> known@[a] != known@[b],
                forall|b: int| i < b < j ==> known@[i as int] != known@[b],
            decreases n - j,
        {
            if known[i] == known[j] {
                return Err(PokerError::DuplicateCard);
            }
            j += 1;
        }
        i += 1;
    }
    let mut d: Vec<Card> = Vec::new();
    proof {
        reveal(Seq::filter);
        assert(universe().take(0).filter(|cc: Card| !known@.contains(cc)) =~= d@);
    }
    let mut idx: u8 = 0;
    while idx < 52
        invariant
            idx <= 52,
            d@ == universe().take(idx as int).filter(|c: Card| !known@.contains(c)),
        decreases 52 - idx,
    {
        let c = card_from_index(idx);
        let ghost d_pre = d@;
        if !contains_card(known, c) {
            d.push(c);
        }
        proof {
            reveal(Seq::filter);
            let pred = |cc: Card| !known@.contains(cc);
            assert(universe().take(idx + 1).drop_last() =~= universe().take(idx as int));
            assert(universe().take(idx + 1).last() == universe()[idx as int]);
            assert(universe()[idx as int] == card_of(idx as int));
            assert(universe().take(idx + 1).filter(pred) == if pred(c) {
                d_pre.push(c)
            } else {
                d_pre
            });
            assert(d@ == universe().take(idx + 1).filter(pred));
        }
        idx += 1;
    }
    proof {
        assert(universe().take(52) =~= universe());
    }
    Ok(d)
}

/// One SplitMix64 state advance: the previous state plus the golden-ratio
/// increment, wrapping.
pub open spec fn splitmix_state(s: u64) -> u64 {
    vstd::wrapping::u64_specs::wrapping_add(s, 0x9E3779B97F4A7C15)
}

/// The SplitMix64 output mix of a state: two rounds of xor-shift and
/// wrapping multiplication, then a final xor-shift.
pub open spec fn splitmix_mix(s: u64) -> u64 {
    let z1 = vstd::wrapping::u64_specs::wrapping_mul(s ^ (s >> 30), 0xBF58476D1CE4E5B9);
    let z2 = vstd::wrapping::u64_specs::wrapping_mul(z1 ^ (z1 >> 27), 0x94D049BB133111EB);
    z2 ^ (z2 >> 31)
}

/// A deterministic 64-bit pseudo-random generator with the SplitMix64
/// update. Its contract pins every output as a function of the state, so
/// the whole stream — and everything sampled from it — is a function of
/// the seed alone: simulations are reproducible and restartable.
pub struct Rng {
    state: u64,
}

impl Rng {
    /// The generator's current state.
    pub closed spec fn spec_state(self) -> u64 {
        self.state
    }

    /// A generator starting from the given seed.
    pub fn seeded(seed: u64) -> (r: Rng)
        ensures
            r.spec_state() == seed,
    {
        Rng { state: seed }
    }

    /// The next 64-bit output of the stream: the mix of the advanced
    /// state.
    pub fn next_u64(&mut self) -> (r: u64)
        ensures
            final(self).spec_state() == splitmix_state(old(self).spec_state()),
            r == splitmix_mix(final(self).spec_state()),
    {
        self.state = self.state.wrapping_add(0x9E3779B97F4A7C15);
        let mut z = self.state;
        z = (z ^ (z >> 30)).wrapping_mul(0xBF58476D1CE4E5B9);
        z = (z ^ (z >> 27)).wrapping_mul(0x94D049BB133111EB);
        z ^ (z >> 31)
    }

    /// The next output reduced below `bound`.
    pub fn next_below(&mut self, bound: u64) -> (r: u64)
        requires
            bound >= 1,
        ensures
            final(self).spec_state() == splitmix_state(old(self).spec_state()),
            r == splitmix_mix(final(self).spec_state()) % bound,
            r < bound,
    {
        self.next_u64() % bound
    }
}

/// Draws `k` cards from `deck` at pseudo-random positions, without
/// replacement: the drawn cards leave the deck, and together the deck and
/// the draw hold exactly the cards the deck held before.
pub fn sample_without_replacement(deck: &mut Vec<Card>, k: usize, rng: &mut Rng) -> (r: Vec<Card>)
    requires
        k <= old(deck)@.len(),
    ensures
        r@.len() == k,
        final(deck)@.len() == old(deck)@.len() - k,
        old(deck)@.to_multiset() == final(deck)@.to_multiset().add(r@.to_multiset()),
{
    let mut out: Vec<Card> = Vec::new();
    proof {
        out@.to_multiset_ensures();
        assert(forall|x: Card| !out@.contains(x));
        assert(deck@.to_multiset().add(out@.to_multiset()) =~= deck@.to_multiset());
    }
    let mut t: usize = 0;
    while t < k
        invariant
            t <= k,
            k <= old(deck)@.len(),
            out@.len() == t,
            deck@.len() == old(deck)@.len() - t,
            old(deck)@.to_multiset() == deck@.to_multiset().add(out@.to_multiset()),
        decreases k - t,
    {
        let len = deck.len();
        let j = rng.next_below(len as u64) as usize;
        let ghost deck_pre = deck@;
        let ghost out_pre = out@;
        let c = deck.remove(j);
        out.push(c);
        proof {
            deck_pre.to_multiset_ensures();
            out_pre.to_multiset_ensures();
            assert(deck_pre.remove(j as int).to_multiset() == deck_pre.to_multiset().remove(c));
            assert(out_pre.push(c).to_multiset() == out_pre.to_multiset().insert(c));
            assert(deck_pre.contains(c));
            assert(deck_pre.to_multiset().count(c) > 0);
            assert(deck_pre.to_multiset().add(out_pre.to_multiset()) =~= deck_pre.to_multiset()
                .remove(c).add(out_pre.to_multiset().insert(c)));
        }
        t += 1;
    }
    out
}

} // verus!
