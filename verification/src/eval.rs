use vstd::prelude::*;

verus! {

use crate::cards::{Card, Suit, rank_num};
use crate::errors::PokerError;

/// Number of cards in `s` that satisfy `p`.
pub open spec fn count_pred(s: Seq<Card>, p: spec_fn(Card) -> bool) -> nat
    decreases s.len(),
{
    if s.len() == 0 {
        0
    } else {
        count_pred(s.drop_last(), p) + (if p(s.last()) {
            1nat
        } else {
            0nat
        })
    }
}

/// Number of cards in `s` whose rank is `r`.
pub open spec fn count_rank(s: Seq<Card>, r: int) -> nat {
    count_pred(s, |c: Card| rank_num(c.value) == r)
}

/// Number of cards in `s` whose suit is `st`.
pub open spec fn count_suit(s: Seq<Card>, st: Suit) -> nat {
    count_pred(s, |c: Card| c.suit == st)
}

/// Whether all five cards of a 5-card hand share one suit.
pub open spec fn has_flush(s: Seq<Card>) -> bool {
    count_suit(s, Suit::Club) == 5 || count_suit(s, Suit::Diamond) == 5 || count_suit(
        s,
        Suit::Heart,
    ) == 5 || count_suit(s, Suit::Spade) == 5
}

/// The largest rank at most `below` whose count in `s` equals `c`, or 0 if
/// no rank down to 2 has that count.
pub open spec fn top_with_below(s: Seq<Card>, c: nat, below: int) -> int
    decreases below,
{
    if below < 2 {
        0
    } else if count_rank(s, below) == c {
        below
    } else {
        top_with_below(s, c, below - 1)
    }
}

/// The largest rank whose count in `s` equals `c`, or 0.
pub open spec fn top_with(s: Seq<Card>, c: nat) -> int {
    top_with_below(s, c, 14)
}

/// Whether `s` holds the five consecutive ranks `h-4 ..= h`.
pub open spec fn straight_at(s: Seq<Card>, h: int) -> bool {
    count_rank(s, h) >= 1 && count_rank(s, h - 1) >= 1 && count_rank(s, h - 2) >= 1 && count_rank(
        s,
        h - 3,
    ) >= 1 && count_rank(s, h - 4) >= 1
}

/// Whether `s` holds the ace-low straight A-2-3-4-5.
pub open spec fn wheel(s: Seq<Card>) -> bool {
    count_rank(s, 14) >= 1 && count_rank(s, 5) >= 1 && count_rank(s, 4) >= 1 && count_rank(s, 3)
        >= 1 && count_rank(s, 2) >= 1
}

/// The high card of the best straight in `s` whose high card is at most
/// `h`, counting the wheel as a 5-high straight, or 0 when there is none.
pub open spec fn straight_high_below(s: Seq<Card>, h: int) -> int
    decreases h,
{
    if h < 6 {
        if wheel(s) {
            5
        } else {
            0
        }
    } else if straight_at(s, h) {
        h
    } else {
        straight_high_below(s, h - 1)
    }
}

/// The high card of the best straight in `s` (the wheel counts as 5-high),
/// or 0 when `s` holds no straight.
pub open spec fn straight_high(s: Seq<Card>) -> int {
    straight_high_below(s, 14)
}

/// Packs a hand category and up to five tie-break ranks into one integer;
/// hands compare correctly by comparing these integers.
pub open spec fn encode_rank(cat: int, k1: int, k2: int, k3: int, k4: int, k5: int) -> int {
    cat * 0x100000 + k1 * 0x10000 + k2 * 0x1000 + k3 * 0x100 + k4 * 0x10 + k5
}

/// The category a packed strength belongs to: 0 high card, 1 pair, 2 two
/// pair, 3 three of a kind, 4 straight, 5 flush, 6 full house, 7 four of a
/// kind, 8 straight flush.
pub open spec fn category(v: int) -> int {
    v / 0x100000
}

/// The strength of a hand of exactly five cards: its category followed by
/// the tie-break ranks that order hands inside that category.
pub open spec fn eval5(s: Seq<Card>) -> int {
    let sh = straight_high(s);
    let fl = has_flush(s);
    let quad = top_with(s, 4);
    let trip = top_with(s, 3);
    let pair = top_with(s, 2);
    if fl && sh > 0 {
        encode_rank(8, sh, 0, 0, 0, 0)
    } else if quad > 0 {
        encode_rank(7, quad, top_with(s, 1), 0, 0, 0)
    } else if trip > 0 && pair > 0 {
        encode_rank(6, trip, pair, 0, 0, 0)
    } else if fl {
        let k1 = top_with(s, 1);
        let k2 = top_with_below(s, 1, k1 - 1);
        let k3 = top_with_below(s, 1, k2 - 1);
        let k4 = top_with_below(s, 1, k3 - 1);
        let k5 = top_with_below(s, 1, k4 - 1);
        encode_rank(5, k1, k2, k3, k4, k5)
    } else if sh > 0 {
        encode_rank(4, sh, 0, 0, 0, 0)
    } else if trip > 0 {
        let k1 = top_with(s, 1);
        let k2 = top_with_below(s, 1, k1 - 1);
        encode_rank(3, trip, k1, k2, 0, 0)
    } else if pair > 0 {
        let p2 = top_with_below(s, 2, pair - 1);
        if p2 > 0 {
            encode_rank(2, pair, p2, top_with(s, 1), 0, 0)
        } else {
            let k1 = top_with(s, 1);
            let k2 = top_with_below(s, 1, k1 - 1);
            let k3 = top_with_below(s, 1, k2 - 1);
            encode_rank(1, pair, k1, k2, k3, 0)
        }
    } else {
        let k1 = top_with(s, 1);
        let k2 = top_with_below(s, 1, k1 - 1);
        let k3 = top_with_below(s, 1, k2 - 1);
        let k4 = top_with_below(s, 1, k3 - 1);
        let k5 = top_with_below(s, 1, k4 - 1);
        encode_rank(0, k1, k2, k3, k4, k5)
    }
}

/// `s` with the cards at positions `i < j` removed.
pub open spec fn drop_two(s: Seq<Card>, i: int, j: int) -> Seq<Card> {
    s.remove(j).remove(i)
}

/// `v` is the strength of the best five-card hand drawn from `s`: for five
/// cards the strength itself, for six or seven the maximum strength over
/// every five-card subset.
pub open spec fn best_of(s: Seq<Card>, v: int) -> bool {
    if s.len() == 5 {
        v == eval5(s)
    } else if s.len() == 6 {
        (forall|i: int| 0 <= i < 6 ==> #[trigger] eval5(s.remove(i)) <= v) && (exists|i: int|
            0 <= i < 6 && #[trigger] eval5(s.remove(i)) == v)
    } else if s.len() == 7 {
        (forall|i: int, j: int| 0 <= i < j < 7 ==> #[trigger] eval5(drop_two(s, i, j)) <= v) && (
        exists|i: int, j: int| 0 <= i < j < 7 && #[trigger] eval5(drop_two(s, i, j)) == v)
    } else {
        false
    }
}

pub proof fn lemma_top_with_below_bounds(s: Seq<Card>, c: nat, below: int)
    ensures
        0 <= top_with_below(s, c, below),
        top_with_below(s, c, below) <= below || top_with_below(s, c, below) == 0,
    decreases below,
{
    if below >= 2 {
        lemma_top_with_below_bounds(s, c, below - 1);
    }
}

pub proof fn lemma_straight_high_below_bounds(s: Seq<Card>, h: int)
    ensures
        straight_high_below(s, h) == 0 || straight_high_below(s, h) == 5 || 6
            <= straight_high_below(s, h) <= h,
    decreases h,
{
    if h >= 6 {
        lemma_straight_high_below_bounds(s, h - 1);
    }
}

/// Every 5-card strength lies inside the window of its category, and the
/// windows of the nine categories are disjoint and increasing.
pub proof fn lemma_eval5_bounds(s: Seq<Card>)
    ensures
        0 <= eval5(s) < 0x900000,
        category(eval5(s)) * 0x100000 <= eval5(s) < category(eval5(s)) * 0x100000 + 0x100000,
{
    lemma_straight_high_below_bounds(s, 14);
    lemma_top_with_below_bounds(s, 4, 14);
    lemma_top_with_below_bounds(s, 3, 14);
    lemma_top_with_below_bounds(s, 2, 14);
    lemma_top_with_below_bounds(s, 1, 14);
    let k1 = top_with(s, 1);
    lemma_top_with_below_bounds(s, 1, k1 - 1);
    let k2 = top_with_below(s, 1, k1 - 1);
    lemma_top_with_below_bounds(s, 1, k2 - 1);
    let k3 = top_with_below(s, 1, k2 - 1);
    lemma_top_with_below_bounds(s, 1, k3 - 1);
    let k4 = top_with_below(s, 1, k3 - 1);
    lemma_top_with_below_bounds(s, 1, k4 - 1);
    let pair = top_with(s, 2);
    lemma_top_with_below_bounds(s, 2, pair - 1);
}

/// A hand that evaluates into a higher category always outranks one that
/// evaluates into a lower category, whatever the tie-break ranks.
pub proof fn lemma_category_dominates(s1: Seq<Card>, s2: Seq<Card>)
    requires
        category(eval5(s1)) > category(eval5(s2)),
    ensures
        eval5(s1) > eval5(s2),
{
    lemma_eval5_bounds(s1);
    lemma_eval5_bounds(s2);
}

/// A straight flush always outranks four of a kind.
pub proof fn lemma_straight_flush_beats_quads(s1: Seq<Card>, s2: Seq<Card>)
    requires
        category(eval5(s1)) == 8,
        category(eval5(s2)) == 7,
    ensures
        eval5(s1) > eval5(s2),
{
    lemma_category_dominates(s1, s2);
}

/// The per-rank counts of a card sequence, as a 13-entry table indexed by
/// rank minus 2.
pub open spec fn rc_matches(rcv: Seq<u8>, s: Seq<Card>) -> bool {
    rcv.len() == 13 && forall|r: int| 2 <= r <= 14 ==> rcv[r - 2] as nat == #[trigger] count_rank(
        s,
        r,
    )
}

/// Builds the per-rank count table of at most seven cards.
fn rank_counts(cards: &Vec<Card>) -> (rc: Vec<u8>)
    requires
        cards@.len() <= 7,
    ensures
        rc_matches(rc@, cards@),
{
    let mut rc: Vec<u8> = Vec::new();
    let mut k: usize = 0;
    while k < 13
        invariant
            rc@.len() == k,
            k <= 13,
            forall|idx: int| 0 <= idx < k ==> rc@[idx] == 0,
        decreases 13 - k,
    {
        rc.push(0);
        k += 1;
    }
    proof {
        assert(forall|r: int| #![trigger count_rank(cards@.take(0), r)]
            2 <= r <= 14 ==> count_rank(cards@.take(0), r) == 0);
    }
    let mut i: usize = 0;
    while i < cards.len()
        invariant
            cards@.len() <= 7,
            i <= cards@.len(),
            rc@.len() == 13,
            forall|idx: int| 0 <= idx < 13 ==> rc@[idx] as int <= i,
            forall|r: int| 2 <= r <= 14 ==> rc@[r - 2] as nat == #[trigger] count_rank(
                cards@.take(i as int),
                r,
            ),
        decreases cards@.len() - i,
    {
        let idx = (cards[i].rank() - 2) as usize;
        rc[idx] = rc[idx] + 1;
        proof {
            assert(cards@.take(i + 1).drop_last() =~= cards@.take(i as int));
            assert(cards@.take(i + 1).last() == cards@[i as int]);
            assert(forall|r: int| 2 <= r <= 14 ==> #[trigger] count_rank(cards@.take(i + 1), r)
                == count_rank(cards@.take(i as int), r) + (if rank_num(cards@[i as int].value) == r {
                1nat
            } else {
                0nat
            }));
        }
        i += 1;
    }
    proof {
        assert(cards@.take(cards@.len() as int) =~= cards@);
    }
    rc
}

/// The largest rank at most `below` whose count equals `c`, read from the
/// count table; 0 when no rank has that count.
fn top_below_x(rc: &Vec<u8>, c: u8, below: u8, s: Ghost<Seq<Card>>) -> (r: u8)
    requires
        rc_matches(rc@, s@),
        below <= 14,
    ensures
        r as int == top_with_below(s@, c as nat, below as int),
        r <= below,
{
    let mut b = below;
    while b >= 2
        invariant
            b <= below,
            top_with_below(s@, c as nat, below as int) == top_with_below(s@, c as nat, b as int),
            rc_matches(rc@, s@),
            below <= 14,
        decreases b,
    {
        if rc[(b - 2) as usize] == c {
            return b;
        }
        b -= 1;
    }
    0
}

/// The count-table form of `top_with_below(s, c, prev - 1)`, used to chain
/// kickers downward; `prev` is the previously found rank.
fn top_chain_x(rc: &Vec<u8>, c: u8, prev: u8, s: Ghost<Seq<Card>>) -> (r: u8)
    requires
        rc_matches(rc@, s@),
        prev <= 15,
    ensures
        r as int == top_with_below(s@, c as nat, prev as int - 1),
        r as int <= prev as int - 1 || r == 0,
{
    if prev == 0 {
        0
    } else {
        top_below_x(rc, c, if prev - 1 > 14 { 14 } else { prev - 1 }, s)
    }
}

/// The high card of the best straight, read from the count table; the
/// wheel counts as a 5-high straight, and 0 means no straight.
fn straight_high_x(rc: &Vec<u8>, s: Ghost<Seq<Card>>) -> (r: u8)
    requires
        rc_matches(rc@, s@),
    ensures
        r as int == straight_high(s@),
        r <= 14,
{
    let mut h: u8 = 14;
    while h >= 6
        invariant
            5 <= h <= 14,
            straight_high(s@) == straight_high_below(s@, h as int),
            rc_matches(rc@, s@),
        decreases h,
    {
        if rc[(h - 2) as usize] >= 1 && rc[(h - 3) as usize] >= 1 && rc[(h - 4) as usize] >= 1
            && rc[(h - 5) as usize] >= 1 && rc[(h - 6) as usize] >= 1 {
            return h;
        }
        h -= 1;
    }
    if rc[12] >= 1 && rc[3] >= 1 && rc[2] >= 1 && rc[1] >= 1 && rc[0] >= 1 {
        5
    } else {
        0
    }
}

/// Number of cards in `cards` of the given suit.
fn count_suit_x(cards: &Vec<Card>, st: Suit) -> (r: u8)
    requires
        cards@.len() <= 7,
    ensures
        r as nat == count_suit(cards@, st),
{
    let mut cnt: u8 = 0;
    let mut i: usize = 0;
    while i < cards.len()
        invariant
            cards@.len() <= 7,
            i <= cards@.len(),
            cnt as int <= i,
            cnt as nat == count_suit(cards@.take(i as int), st),
        decreases cards@.len() - i,
    {
        proof {
            assert(cards@.take(i + 1).drop_last() =~= cards@.take(i as int));
            assert(cards@.take(i + 1).last() == cards@[i as int]);
        }
        if cards[i].suit == st {
            cnt += 1;
        }
        i += 1;
    }
    proof {
        assert(cards@.take(cards@.len() as int) =~= cards@);
    }
    cnt
}

/// Whether all five cards share one suit.
fn has_flush_x(cards: &Vec<Card>) -> (r: bool)
    requires
        cards@.len() <= 7,
    ensures
        r == has_flush(cards@),
{
    count_suit_x(cards, Suit::Club) == 5 || count_suit_x(cards, Suit::Diamond) == 5 || count_suit_x(
        cards,
        Suit::Heart,
    ) == 5 || count_suit_x(cards, Suit::Spade) == 5
}

/// Packs a category and tie-break ranks into one comparable integer.
fn encode_x(cat: u32, k1: u8, k2: u8, k3: u8, k4: u8, k5: u8) -> (r: u32)
    requires
        cat <= 8,
        k1 <= 14,
        k2 <= 14,
        k3 <= 14,
        k4 <= 14,
        k5 <= 14,
    ensures
        r as int == encode_rank(cat as int, k1 as int, k2 as int, k3 as int, k4 as int, k5 as int),
{
    cat * 0x100000 + (k1 as u32) * 0x10000 + (k2 as u32) * 0x1000 + (k3 as u32) * 0x100 + (
    k4 as u32) * 0x10 + (k5 as u32)
}

/// Evaluates a hand of exactly five cards to its packed strength.
pub fn evaluate_five(cards: &Vec<Card>) -> (r: u32)
    requires
        cards@.len() == 5,
    ensures
        r as int == eval5(cards@),
{
    let ghost s = cards@;
    let rc = rank_counts(cards);
    let sh = straight_high_x(&rc, Ghost(s));
    let fl = has_flush_x(cards);
    let quad = top_below_x(&rc, 4, 14, Ghost(s));
    let trip = top_below_x(&rc, 3, 14, Ghost(s));
    let pair = top_below_x(&rc, 2, 14, Ghost(s));
    if fl && sh > 0 {
        encode_x(8, sh, 0, 0, 0, 0)
    } else if quad > 0 {
        let k1 = top_below_x(&rc, 1, 14, Ghost(s));
        encode_x(7, quad, k1, 0, 0, 0)
    } else if trip > 0 && pair > 0 {
        encode_x(6, trip, pair, 0, 0, 0)
    } else if fl {
        let k1 = top_below_x(&rc, 1, 14, Ghost(s));
        let k2 = top_chain_x(&rc, 1, k1, Ghost(s));
        let k3 = top_chain_x(&rc, 1, k2, Ghost(s));
        let k4 = top_chain_x(&rc, 1, k3, Ghost(s));
        let k5 = top_chain_x(&rc, 1, k4, Ghost(s));
        encode_x(5, k1, k2, k3, k4, k5)
    } else if sh > 0 {
        encode_x(4, sh, 0, 0, 0, 0)
    } else if trip > 0 {
        let k1 = top_below_x(&rc, 1, 14, Ghost(s));
        let k2 = top_chain_x(&rc, 1, k1, Ghost(s));
        encode_x(3, trip, k1, k2, 0, 0)
    } else if pair > 0 {
        let p2 = top_chain_x(&rc, 2, pair, Ghost(s));
        if p2 > 0 {
            let k1 = top_below_x(&rc, 1, 14, Ghost(s));
            encode_x(2, pair, p2, k1, 0, 0)
        } else {
            let k1 = top_below_x(&rc, 1, 14, Ghost(s));
            let k2 = top_chain_x(&rc, 1, k1, Ghost(s));
            let k3 = top_chain_x(&rc, 1, k2, Ghost(s));
            encode_x(1, pair, k1, k2, k3, 0)
        }
    } else {
        let k1 = top_below_x(&rc, 1, 14, Ghost(s));
        let k2 = top_chain_x(&rc, 1, k1, Ghost(s));
        let k3 = top_chain_x(&rc, 1, k2, Ghost(s));
        let k4 = top_chain_x(&rc, 1, k3, Ghost(s));
        let k5 = top_chain_x(&rc, 1, k4, Ghost(s));
        encode_x(0, k1, k2, k3, k4, k5)
    }
}

/// `cards` with the elements at positions `skip1 < skip2` left out (pass
/// `skip2 == cards.len()` to drop only one position).
fn subset_without(cards: &Vec<Card>, skip1: usize, skip2: usize) -> (r: Vec<Card>)
    requires
        skip1 < skip2 <= cards@.len(),
        cards@.len() <= 7,
    ensures
        skip2 < cards@.len() ==> r@ == drop_two(cards@, skip1 as int, skip2 as int),
        skip2 == cards@.len() ==> r@ == cards@.remove(skip1 as int),
{
    let mut r: Vec<Card> = Vec::new();
    let mut k: usize = 0;
    while k < cards.len()
        invariant
            k <= cards@.len(),
            cards@.len() <= 7,
            skip1 < skip2 <= cards@.len(),
            r@.len() == k - (if k > skip1 {
                1int
            } else {
                0int
            }) - (if k > skip2 {
                1int
            } else {
                0int
            }),
            forall|m: int| 0 <= m < r@.len() && m < skip1 ==> r@[m] == cards@[m],
            forall|m: int| skip1 <= m < r@.len() && m < skip2 - 1 ==> r@[m] == cards@[m + 1],
            forall|m: int| skip2 - 1 <= m < r@.len() ==> r@[m] == cards@[m + 2],
        decreases cards@.len() - k,
    {
        if k != skip1 && k != skip2 {
            r.push(cards[k]);
        }
        k += 1;
    }
    proof {
        if skip2 < cards@.len() {
            assert(r@ =~= drop_two(cards@, skip1 as int, skip2 as int));
        } else {
            assert(r@ =~= cards@.remove(skip1 as int));
        }
    }
    r
}

/// Evaluates the best five-card hand drawn from 5 to 7 cards. For seven
/// cards this is the maximum strength over all 21 five-card subsets; fewer
/// than five cards fail with `InsufficientCards`.
pub fn evaluate(cards: &Vec<Card>) -> (r: Result<u32, PokerError>)
    requires
        cards@.len() <= 7,
    ensures
        match r {
            Ok(v) => cards@.len() >= 5 && best_of(cards@, v as int),
            Err(e) => e == PokerError::InsufficientCards && cards@.len() < 5,
        },
{
    let n = cards.len();
    if n < 5 {
        return Err(PokerError::InsufficientCards);
    }
    if n == 5 {
        return Ok(evaluate_five(cards));
    }
    let ghost s = cards@;
    if n == 6 {
        let mut best: u32 = 0;
        let mut i: usize = 0;
        while i < 6
            invariant
                s == cards@,
                s.len() == 6,
                i <= 6,
                forall|a: int| 0 <= a < i ==> #[trigger] eval5(s.remove(a)) <= best as int,
                i > 0 ==> exists|a: int| 0 <= a < i && #[trigger] eval5(s.remove(a)) == best as int,
            decreases 6 - i,
        {
            let sub = subset_without(cards, i, 6);
            let v = evaluate_five(&sub);
            if i == 0 || v > best {
                best = v;
            }
            i += 1;
        }
        return Ok(best);
    }
    let mut best: u32 = 0;
    let mut have = false;
    let mut i: usize = 0;
    while i < 7
        invariant
            s == cards@,
            s.len() == 7,
            i <= 7,
            forall|a: int, b: int| 0 <= a < b < 7 && a < i ==> #[trigger] eval5(drop_two(s, a, b))
                <= best as int,
            have ==> exists|a: int, b: int| 0 <= a < b < 7 && #[trigger] eval5(drop_two(s, a, b))
                == best as int,
            !have ==> i == 0,
            i > 0 ==> have,
        decreases 7 - i,
    {
        let mut j: usize = i + 1;
        while j < 7
            invariant
                s == cards@,
                s.len() == 7,
                i < 7,
                i < j <= 7,
                forall|a: int, b: int| 0 <= a < b < 7 && (a < i || (a == i && b < j))
                    ==> #[trigger] eval5(drop_two(s, a, b)) <= best as int,
                have ==> exists|a: int, b: int| 0 <= a < b < 7 && #[trigger] eval5(
                    drop_two(s, a, b),
                ) == best as int,
                !have ==> i == 0 && j == 1,
            decreases 7 - j,
        {
            let sub = subset_without(cards, i, j);
            let v = evaluate_five(&sub);
            if !have || v > best {
                best = v;
                have = true;
            }
            j += 1;
        }
        i += 1;
    }
    Ok(best)
}

/// For a seven-card set, the evaluated strength is at least the strength
/// of every five-card subset, and is attained by one of the 21 subsets: it
/// is exactly the maximum over them.
/// The strength of the best five-card hand drawn from a 5, 6 or 7 card
/// set, as a specification-level value: the unique `v` with `best_of(s, v)`.
pub open spec fn best_rank(s: Seq<Card>) -> int {
    choose|v: int| best_of(s, v)
}

/// `best_of` pins its value down: any strength the evaluator certifies as
/// best equals `best_rank`.
pub proof fn lemma_best_of_is_best_rank(s: Seq<Card>, v: int)
    requires
        best_of(s, v),
    ensures
        best_rank(s) == v,
{
    assert(best_of(s, best_rank(s)));
    let w = best_rank(s);
    if s.len() == 6 {
        let a = choose|a: int| 0 <= a < 6 && #[trigger] eval5(s.remove(a)) == v;
        let b = choose|b: int| 0 <= b < 6 && #[trigger] eval5(s.remove(b)) == w;
        assert(eval5(s.remove(a)) <= w);
        assert(eval5(s.remove(b)) <= v);
    } else if s.len() == 7 {
        let (a1, a2) = choose|a1: int, a2: int|
            0 <= a1 < a2 < 7 && #[trigger] eval5(drop_two(s, a1, a2)) == v;
        let (b1, b2) = choose|b1: int, b2: int|
            0 <= b1 < b2 < 7 && #[trigger] eval5(drop_two(s, b1, b2)) == w;
        assert(eval5(drop_two(s, a1, a2)) <= w);
        assert(eval5(drop_two(s, b1, b2)) <= v);
    }
}

pub proof fn lemma_seven_card_is_max(s: Seq<Card>, v: int)
    requires
        s.len() == 7,
        best_of(s, v),
    ensures
        forall|i: int, j: int| 0 <= i < j < 7 ==> #[trigger] eval5(drop_two(s, i, j)) <= v,
        exists|i: int, j: int| 0 <= i < j < 7 && #[trigger] eval5(drop_two(s, i, j)) == v,
{
}

proof fn lemma_count_pred_remove(s: Seq<Card>, p: spec_fn(Card) -> bool, i: int)
    requires
        0 <= i < s.len(),
    ensures
        count_pred(s.remove(i), p) + (if p(s[i]) {
            1nat
        } else {
            0nat
        }) == count_pred(s, p),
    decreases s.len(),
{
    if i == s.len() - 1 {
        assert(s.remove(i) =~= s.drop_last());
    } else {
        assert(s.remove(i).drop_last() =~= s.drop_last().remove(i));
        assert(s.remove(i).last() == s.last());
        lemma_count_pred_remove(s.drop_last(), p, i);
    }
}

proof fn lemma_count_pred_multiset(s1: Seq<Card>, s2: Seq<Card>, p: spec_fn(Card) -> bool)
    requires
        s1.to_multiset() == s2.to_multiset(),
    ensures
        count_pred(s1, p) == count_pred(s2, p),
    decreases s1.len(),
{
    broadcast use vstd::seq_lib::group_to_multiset_ensures;

    s1.to_multiset_ensures();
    s2.to_multiset_ensures();
    assert(s1.len() == s2.len());
    if s1.len() > 0 {
        let x = s1.last();
        assert(s1[s1.len() - 1] == x);
        assert(s1.contains(x));
        assert(s2.to_multiset().count(x) > 0);
        assert(s2.contains(x));
        let i = choose|i: int| 0 <= i < s2.len() && s2[i] == x;
        assert(s1.drop_last() =~= s1.remove(s1.len() - 1));
        assert(s1.drop_last().to_multiset() == s1.to_multiset().remove(x));
        assert(s2.remove(i).to_multiset() == s2.to_multiset().remove(x));
        lemma_count_pred_multiset(s1.drop_last(), s2.remove(i), p);
        lemma_count_pred_remove(s2, p, i);
    }
}

proof fn lemma_top_congruent(s1: Seq<Card>, s2: Seq<Card>, c: nat, below: int)
    requires
        forall|r: int| #[trigger] count_rank(s1, r) == count_rank(s2, r),
    ensures
        top_with_below(s1, c, below) == top_with_below(s2, c, below),
    decreases below,
{
    if below >= 2 {
        lemma_top_congruent(s1, s2, c, below - 1);
    }
}

proof fn lemma_straight_congruent(s1: Seq<Card>, s2: Seq<Card>, h: int)
    requires
        forall|r: int| #[trigger] count_rank(s1, r) == count_rank(s2, r),
    ensures
        straight_high_below(s1, h) == straight_high_below(s2, h),
    decreases h,
{
    if h >= 6 {
        lemma_straight_congruent(s1, s2, h - 1);
    }
}

/// Evaluation is a pure function of the card multiset: two hands with the
/// same cards in any order have the same strength.
pub proof fn lemma_eval5_permutation(s1: Seq<Card>, s2: Seq<Card>)
    requires
        s1.to_multiset() == s2.to_multiset(),
    ensures
        eval5(s1) == eval5(s2),
{
    assert forall|r: int| #[trigger] count_rank(s1, r) == count_rank(s2, r) by {
        lemma_count_pred_multiset(s1, s2, |c: Card| rank_num(c.value) == r);
    }
    assert(count_suit(s1, Suit::Club) == count_suit(s2, Suit::Club)) by {
        lemma_count_pred_multiset(s1, s2, |c: Card| c.suit == Suit::Club);
    }
    assert(count_suit(s1, Suit::Diamond) == count_suit(s2, Suit::Diamond)) by {
        lemma_count_pred_multiset(s1, s2, |c: Card| c.suit == Suit::Diamond);
    }
    assert(count_suit(s1, Suit::Heart) == count_suit(s2, Suit::Heart)) by {
        lemma_count_pred_multiset(s1, s2, |c: Card| c.suit == Suit::Heart);
    }
    assert(count_suit(s1, Suit::Spade) == count_suit(s2, Suit::Spade)) by {
        lemma_count_pred_multiset(s1, s2, |c: Card| c.suit == Suit::Spade);
    }
    assert forall|c: nat, b: int| #[trigger] top_with_below(s1, c, b) == top_with_below(
        s2,
        c,
        b,
    ) by {
        lemma_top_congruent(s1, s2, c, b);
    }
    lemma_straight_congruent(s1, s2, 14);
}

proof fn lemma_top_none(s: Seq<Card>, c: nat, below: int)
    requires
        forall|r: int| 2 <= r <= below ==> #[trigger] count_rank(s, r) != c,
    ensures
        top_with_below(s, c, below) == 0,
    decreases below,
{
    if below >= 2 {
        lemma_top_none(s, c, below - 1);
    }
}

proof fn lemma_straight_skip(s: Seq<Card>, top: int, h: int)
    requires
        5 <= h <= top,
        forall|g: int| h < g <= top ==> !#[trigger] straight_at(s, g),
    ensures
        straight_high_below(s, top) == straight_high_below(s, h),
    decreases top - h,
{
    if top > h {
        lemma_straight_skip(s, top - 1, h);
    }
}

/// The ranks of the wheel: one each of ace, 2, 3, 4 and 5.
pub open spec fn is_wheel_ranks(s: Seq<Card>) -> bool {
    forall|r: int| #[trigger] count_rank(s, r) == (if r == 14 || 2 <= r <= 5 {
        1nat
    } else {
        0nat
    })
}

/// The ranks of the six-high straight: one each of 2, 3, 4, 5 and 6.
pub open spec fn is_six_high_ranks(s: Seq<Card>) -> bool {
    forall|r: int| #[trigger] count_rank(s, r) == (if 2 <= r <= 6 {
        1nat
    } else {
        0nat
    })
}

proof fn lemma_wheel_value(s: Seq<Card>)
    requires
        is_wheel_ranks(s),
    ensures
        eval5(s) == if has_flush(s) {
            encode_rank(8, 5, 0, 0, 0, 0)
        } else {
            encode_rank(4, 5, 0, 0, 0, 0)
        },
{
    assert forall|g: int| 5 < g <= 14 implies !straight_at(s, g) by {
        if g <= 13 {
            assert(count_rank(s, g) == 0);
        } else {
            assert(count_rank(s, 13) == 0);
        }
    }
    lemma_straight_skip(s, 14, 5);
    assert(wheel(s));
    assert(straight_high(s) == 5);
    lemma_top_none(s, 4, 14);
    lemma_top_none(s, 3, 14);
    lemma_top_none(s, 2, 14);
}

/// A-2-3-4-5 evaluates strictly below 2-3-4-5-6 when both are flushes or
/// both are not: the wheel is the lowest straight.
pub proof fn lemma_wheel_below_six_high(s1: Seq<Card>, s2: Seq<Card>)
    requires
        is_wheel_ranks(s1),
        is_six_high_ranks(s2),
        has_flush(s1) == has_flush(s2),
    ensures
        eval5(s1) < eval5(s2),
{
    lemma_wheel_value(s1);
    assert forall|g: int| 6 < g <= 14 implies !straight_at(s2, g) by {
        if g <= 13 {
            assert(count_rank(s2, g) == 0);
        } else {
            assert(count_rank(s2, 13) == 0);
        }
    }
    lemma_straight_skip(s2, 14, 6);
    assert(straight_at(s2, 6));
    assert(straight_high(s2) == 6);
    lemma_top_none(s2, 4, 14);
    lemma_top_none(s2, 3, 14);
    lemma_top_none(s2, 2, 14);
}

/// The wheel straight strictly outranks every hand of a lower category
/// (high card, pair, two pair, or three of a kind): the lowest straight
/// still beats any non-straight, non-flush hand.
pub proof fn lemma_wheel_beats_non_straight(s1: Seq<Card>, s2: Seq<Card>)
    requires
        is_wheel_ranks(s1),
        category(eval5(s2)) <= 3,
    ensures
        eval5(s1) > eval5(s2),
{
    lemma_wheel_value(s1);
    assert(category(eval5(s1)) >= 4);
    lemma_category_dominates(s1, s2);
}

} // verus!
