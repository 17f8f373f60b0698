//! Camel-card hands: each input line is a five-card hand with a bid. Hands
//! are ranked by type (pair, two pair, and so on up to five of a kind) and
//! then lexicographically; the winnings are the bids weighted by rank. The
//! second part plays jacks as jokers, which count toward the best type but
//! rank lowest on ties.

use vstd::prelude::*;
use vstd::string::*;

use crate::day::{Day, DayResult};
use crate::text::{dec_val, find_from, parse_u64, u64_to_string};

verus! {

pub struct Instance;

/// One playing card. Jokers rank below everything else on ties.
#[derive(Debug, PartialEq, Eq, Structural, Hash, Clone, Copy)]
pub enum Card {
    Joker,
    Number(u8),
    Jack,
    Queen,
    King,
    Ace,
}

/// The card a hand character denotes, if any: the ten named cards, or a digit.
pub open spec fn card_of(c: char) -> Option<Card> {
    if c == 'A' {
        Some(Card::Ace)
    } else if c == 'K' {
        Some(Card::King)
    } else if c == 'Q' {
        Some(Card::Queen)
    } else if c == 'J' {
        Some(Card::Jack)
    } else if c == 'T' {
        Some(Card::Number(10))
    } else if '0' <= c && c <= '9' {
        Some(Card::Number(((c as u32) - 48) as u8))
    } else {
        None
    }
}

/// The tie-break key of one card: the variant order first, the digit inside
/// a number card second.
pub open spec fn card_key(c: Card) -> (int, int) {
    match c {
        Card::Joker => (0, 0),
        Card::Number(n) => (1, n as int),
        Card::Jack => (2, 0),
        Card::Queen => (3, 0),
        Card::King => (4, 0),
        Card::Ace => (5, 0),
    }
}

impl Card {
    /// Reads one hand character as a card.
    pub fn from_char(c: char) -> (r: Card)
        requires
            card_of(c) is Some,
        ensures
            Some(r) == card_of(c),
    {
        if c == 'A' {
            Card::Ace
        } else if c == 'K' {
            Card::King
        } else if c == 'Q' {
            Card::Queen
        } else if c == 'J' {
            Card::Jack
        } else if c == 'T' {
            Card::Number(10)
        } else {
            Card::Number((c as u32 - 48) as u8)
        }
    }
}

/// A five-card hand with its bid.
#[derive(Debug, Clone)]
pub struct Hand {
    pub cards: Vec<Card>,
    pub bid: u32,
}

/// The hand is short enough for counting arithmetic to stay in a machine
/// word.
pub open spec fn hand_len_ok(cards: Seq<Card>) -> bool {
    cards.len() < 0x4000_0000_0000_0000
}

/// How often `c` occurs among `cards`.
pub open spec fn count_card(cards: Seq<Card>, c: Card) -> nat
    decreases cards.len(),
{
    if cards.len() == 0 {
        0
    } else {
        count_card(cards.drop_last(), c) + (if cards.last() == c {
            1nat
        } else {
            0nat
        })
    }
}

/// The largest occurrence count among the non-joker cards of the first `k`
/// positions.
pub open spec fn max_nonjoker_upto(cards: Seq<Card>, k: int) -> nat
    decreases k,
{
    if k <= 0 || k > cards.len() {
        0
    } else {
        let rest = max_nonjoker_upto(cards, k - 1);
        if cards[k - 1] != Card::Joker && count_card(cards, cards[k - 1]) > rest {
            count_card(cards, cards[k - 1])
        } else {
            rest
        }
    }
}

/// How many distinct cards occur exactly `n` times among the first `k`
/// positions (each distinct card counted at its first occurrence).
pub open spec fn distinct_with_count_upto(cards: Seq<Card>, n: nat, k: int) -> nat
    decreases k,
{
    if k <= 0 || k > cards.len() {
        0
    } else {
        distinct_with_count_upto(cards, n, k - 1) + (if !cards.take(k - 1).contains(cards[k - 1])
            && count_card(cards, cards[k - 1]) == n {
            1nat
        } else {
            0nat
        })
    }
}

/// Jokers in the hand.
pub open spec fn spec_joker_count(cards: Seq<Card>) -> nat {
    count_card(cards, Card::Joker)
}

/// The best same-card count reachable when jokers join the most frequent
/// non-joker card.
pub open spec fn spec_max_with_jokers(cards: Seq<Card>) -> nat {
    max_nonjoker_upto(cards, cards.len() as int) + spec_joker_count(cards)
}

/// Exactly two distinct cards occur twice, and no joker is held.
pub open spec fn spec_is_two_pair(cards: Seq<Card>) -> bool {
    spec_joker_count(cards) == 0 && distinct_with_count_upto(cards, 2, cards.len() as int) == 2
}

/// A full house: three of one card and two of another, with at most one
/// joker completing the three.
pub open spec fn spec_is_full_house(cards: Seq<Card>) -> bool {
    if spec_joker_count(cards) > 1 {
        false
    } else if spec_joker_count(cards) == 1 {
        distinct_with_count_upto(cards, 2, cards.len() as int) == 2
    } else {
        max_nonjoker_upto(cards, cards.len() as int) == 3 && distinct_with_count_upto(
            cards,
            2,
            cards.len() as int,
        ) == 1 && distinct_with_count_upto(cards, 1, cards.len() as int) == 0
    }
}

/// The type rank of a hand, from high card (0) up to five of a kind (6),
/// checked in the order pair, two pair, three of a kind, full house, four of
/// a kind, five of a kind.
pub open spec fn spec_type_rank(cards: Seq<Card>) -> u8 {
    if !spec_is_two_pair(cards) && !spec_is_full_house(cards) && spec_max_with_jokers(cards)
        == 2 {
        1
    } else if spec_is_two_pair(cards) {
        2
    } else if !spec_is_full_house(cards) && spec_max_with_jokers(cards) == 3 {
        3
    } else if spec_is_full_house(cards) {
        4
    } else if spec_max_with_jokers(cards) == 4 {
        5
    } else if spec_max_with_jokers(cards) == 5 {
        6
    } else {
        0
    }
}

/// How often `c` occurs in the hand.
fn count_card_exec(cards: &Vec<Card>, c: Card) -> (r: u64)
    requires
        cards@.len() <= u64::MAX,
    ensures
        r == count_card(cards@, c),
{
    let mut r: u64 = 0;
    let mut i: usize = 0;
    while i < cards.len()
        invariant
            0 <= i <= cards@.len() <= u64::MAX,
            r <= i,
            r == count_card(cards@.take(i as int), c),
        decreases cards@.len() - i,
    {
        proof {
            assert(cards@.take(i + 1).drop_last() =~= cards@.take(i as int));
        }
        if cards[i] == c {
            r += 1;
        }
        i += 1;
    }
    assert(cards@.take(cards@.len() as int) =~= cards@);
    r
}

impl Hand {
    /// Parses a `<cards> <bid>` line: the characters before the first space
    /// are the cards, the rest is the decimal bid. Fails on a missing space,
    /// a character that is no card, or a bid that is no `u32`.
    pub fn from_str(s: &str) -> (r: Result<Hand, String>)
        ensures
            r matches Ok(h) ==> ({
                &&& find_from(s@, " "@, 0) matches Some(i)
                &&& h.cards@.len() == find_from(s@, " "@, 0).unwrap()
                &&& forall|k: int|
                    0 <= k < h.cards@.len() ==> Some(#[trigger] h.cards@[k]) == card_of(s@[k])
                &&& h.bid as nat == dec_val(s@.subrange(
                    find_from(s@, " "@, 0).unwrap() + 1,
                    s@.len() as int,
                ))
            }),
    {
        proof {
            reveal_strlit(" ");
        }
        let i = match crate::text::find_sub(s, " ", 0) {
            Some(i) => i,
            None => {
                return Err("missing space".to_owned());
            },
        };
        proof {
            crate::text::lemma_find_from_some(s@, " "@, 0, i as int);
        }
        let mut cards: Vec<Card> = Vec::new();
        let mut k: usize = 0;
        while k < i
            invariant
                0 <= k <= i,
                i < s@.len(),
                cards@.len() == k,
                forall|a: int| 0 <= a < k ==> Some(#[trigger] cards@[a]) == card_of(s@[a]),
            decreases i - k,
        {
            let c = s.get_char(k);
            let is_card = c == 'A' || c == 'K' || c == 'Q' || c == 'J' || c == 'T' || ('0' <= c
                && c <= '9');
            if !is_card {
                return Err("not a card".to_owned());
            }
            cards.push(Card::from_char(c));
            k += 1;
        }
        let len = s.unicode_len();
        let bid_part = s.substring_char(i + 1, len);
        let bid64 = match parse_u64(bid_part) {
            Some(v) => v,
            None => {
                return Err("bid is not a number".to_owned());
            },
        };
        if bid64 > 0xffff_ffff {
            return Err("bid is not a number".to_owned());
        }
        Ok(Hand { cards, bid: bid64 as u32 })
    }

    /// Jokers in the hand.
    pub fn joker_count(&self) -> (r: u64)
        requires
            self.cards@.len() <= u64::MAX,
        ensures
            r == spec_joker_count(self.cards@),
    {
        count_card_exec(&self.cards, Card::Joker)
    }

    /// The best same-card count reachable with the jokers joining the most
    /// frequent non-joker card.
    pub fn max_with_jokers(&self) -> (r: u64)
        requires
            hand_len_ok(self.cards@),
        ensures
            r == spec_max_with_jokers(self.cards@),
    {
        let mut best: u64 = 0;
        let mut k: usize = 0;
        while k < self.cards.len()
            invariant
                0 <= k <= self.cards@.len(),
                hand_len_ok(self.cards@),
                best == max_nonjoker_upto(self.cards@, k as int),
                best <= self.cards@.len(),
            decreases self.cards@.len() - k,
        {
            proof {
                lemma_count_card_le_len(self.cards@, self.cards@[k as int]);
            }
            if !(self.cards[k] == Card::Joker) {
                let n = count_card_exec(&self.cards, self.cards[k]);
                if n > best {
                    best = n;
                }
            }
            k += 1;
        }
        proof {
            lemma_count_card_le_len(self.cards@, Card::Joker);
        }
        best + self.joker_count()
    }

    /// How many distinct cards occur exactly `n` times in the hand.
    #[verifier::loop_isolation(false)]
    fn distinct_with_count(&self, n: u64) -> (r: u64)
        requires
            hand_len_ok(self.cards@),
        ensures
            r == distinct_with_count_upto(self.cards@, n as nat, self.cards@.len() as int),
    {
        let mut r: u64 = 0;
        let mut k: usize = 0;
        while k < self.cards.len()
            invariant
                0 <= k <= self.cards@.len(),
                hand_len_ok(self.cards@),
                r == distinct_with_count_upto(self.cards@, n as nat, k as int),
                r <= k,
            decreases self.cards@.len() - k,
        {
            // Count this card only at its first occurrence.
            let mut seen = false;
            let mut a: usize = 0;
            while a < k
                invariant
                    0 <= a <= k <= self.cards@.len(),
                    seen == self.cards@.take(k as int).take(a as int).contains(
                        self.cards@[k as int],
                    ),
                decreases k - a,
            {
                if self.cards[a] == self.cards[k] {
                    seen = true;
                    proof {
                        assert(self.cards@.take(k as int).take(a + 1)[a as int] == self.cards@[k as int]);
                    }
                }
                proof {
                    if !seen {
                        assert(!self.cards@.take(k as int).take(a + 1).contains(
                            self.cards@[k as int],
                        )) by {
                            assert(forall|b: int|
                                0 <= b < a + 1 ==> self.cards@.take(k as int).take(a + 1)[b]
                                    == #[trigger] self.cards@.take(k as int).take(a as int)[b]
                                    || b == a);
                        }
                    }
                }
                a += 1;
            }
            proof {
                assert(self.cards@.take(k as int).take(k as int) =~= self.cards@.take(k as int));
            }
            if !seen {
                let cnt = count_card_exec(&self.cards, self.cards[k]);
                if cnt == n {
                    r += 1;
                }
            }
            k += 1;
        }
        r
    }

    /// The hand holds no joker and exactly two distinct pairs.
    pub fn is_two_pair(&self) -> (r: bool)
        requires
            hand_len_ok(self.cards@),
        ensures
            r == spec_is_two_pair(self.cards@),
    {
        self.joker_count() == 0 && self.distinct_with_count(2) == 2
    }

    /// Three of one card and two of another, at most one joker helping.
    pub fn is_full_house(&self) -> (r: bool)
        requires
            hand_len_ok(self.cards@),
        ensures
            r == spec_is_full_house(self.cards@),
    {
        let jokers = self.joker_count();
        if jokers > 1 {
            false
        } else if jokers == 1 {
            self.distinct_with_count(2) == 2
        } else {
            let mut best: u64 = 0;
            let mut k: usize = 0;
            while k < self.cards.len()
                invariant
                    0 <= k <= self.cards@.len(),
                hand_len_ok(self.cards@),
                    best == max_nonjoker_upto(self.cards@, k as int),
                    best <= self.cards@.len(),
                decreases self.cards@.len() - k,
            {
                proof {
                    lemma_count_card_le_len(self.cards@, self.cards@[k as int]);
                }
                if !(self.cards[k] == Card::Joker) {
                    let n = count_card_exec(&self.cards, self.cards[k]);
                    if n > best {
                        best = n;
                    }
                }
                k += 1;
            }
            best == 3 && self.distinct_with_count(2) == 1 && self.distinct_with_count(1) == 0
        }
    }

    /// Exactly one pair and nothing better.
    pub fn is_pair(&self) -> (r: bool)
        requires
            hand_len_ok(self.cards@),
        ensures
            r == (!spec_is_two_pair(self.cards@) && !spec_is_full_house(self.cards@)
                && spec_max_with_jokers(self.cards@) == 2),
    {
        !self.is_two_pair() && !self.is_full_house() && self.max_with_jokers() == 2
    }

    /// Three of a kind and no full house.
    pub fn is_three_of_kind(&self) -> (r: bool)
        requires
            hand_len_ok(self.cards@),
        ensures
            r == (!spec_is_full_house(self.cards@) && spec_max_with_jokers(self.cards@) == 3),
    {
        !self.is_full_house() && self.max_with_jokers() == 3
    }

    /// Four of a kind, jokers helping.
    pub fn is_four_of_kind(&self) -> (r: bool)
        requires
            hand_len_ok(self.cards@),
        ensures
            r == (spec_max_with_jokers(self.cards@) == 4),
    {
        self.max_with_jokers() == 4
    }

    /// Five of a kind, jokers helping.
    pub fn is_five_of_kind(&self) -> (r: bool)
        requires
            hand_len_ok(self.cards@),
        ensures
            r == (spec_max_with_jokers(self.cards@) == 5),
    {
        self.max_with_jokers() == 5
    }

    /// The type rank of the hand, from high card (0) to five of a kind (6).
    pub fn type_rank(&self) -> (r: u8)
        requires
            hand_len_ok(self.cards@),
        ensures
            r == spec_type_rank(self.cards@),
    {
        if self.is_pair() {
            return 1;
        }
        if self.is_two_pair() {
            return 2;
        }
        if self.is_three_of_kind() {
            return 3;
        }
        if self.is_full_house() {
            return 4;
        }
        if self.is_four_of_kind() {
            return 5;
        }
        if self.is_five_of_kind() {
            return 6;
        }
        0
    }

    /// The same hand with every jack played as a joker.
    pub fn with_jokers(&self) -> (r: Hand)
        ensures
            r.cards@ == self.cards@.map(
                |_k: int, c: Card|
                    if c == Card::Jack {
                        Card::Joker
                    } else {
                        c
                    },
            ),
            r.bid == self.bid,
    {
        let mut cards: Vec<Card> = Vec::new();
        let mut k: usize = 0;
        while k < self.cards.len()
            invariant
                0 <= k <= self.cards@.len(),
                cards@.len() == k,
                forall|a: int|
                    0 <= a < k ==> #[trigger] cards@[a] == (if self.cards@[a] == Card::Jack {
                        Card::Joker
                    } else {
                        self.cards@[a]
                    }),
            decreases self.cards@.len() - k,
        {
            let c = self.cards[k];
            cards.push(
                if c == Card::Jack {
                    Card::Joker
                } else {
                    c
                },
            );
            k += 1;
        }
        let r = Hand { cards, bid: self.bid };
        assert(r.cards@ =~= self.cards@.map(
            |_k: int, c: Card|
                if c == Card::Jack {
                    Card::Joker
                } else {
                    c
                },
        ));
        r
    }
}

/// Some entry of the count table is for card `c`.
pub open spec fn has_entry(r: Seq<(Card, u64)>, c: Card) -> bool {
    exists|a: int| 0 <= a < r.len() && (#[trigger] r[a]).0 == c
}

/// The whole ranking key of a hand in one record: type rank first, then the
/// five cards packed in order, then the bid as the last tie break — exactly
/// the order in which hands are compared.
#[derive(Debug, Clone, Copy, PartialEq, Eq, Structural)]
pub struct HandKey {
    pub rank: u8,
    pub cards: u64,
    pub bid: u32,
}

/// The cards of a hand packed into one number, first card most significant:
/// eleven bits per card, variant order above the digit of a number card.
pub open spec fn pack_cards(cards: Seq<Card>) -> int
    decreases cards.len(),
{
    if cards.len() == 0 {
        0
    } else {
        pack_cards(cards.drop_last()) * 2048 + card_key(cards.last()).0 * 256 + card_key(
            cards.last(),
        ).1
    }
}

/// Key `a` ranks no higher than key `b`: rank, then cards, then bid.
pub open spec fn key_le(a: HandKey, b: HandKey) -> bool {
    a.rank < b.rank || (a.rank == b.rank && (a.cards < b.cards || (a.cards == b.cards && a.bid
        <= b.bid)))
}

/// The key that ranks hand `h`.
pub open spec fn spec_hand_key(h: Hand) -> HandKey {
    HandKey {
        rank: spec_type_rank(h.cards@),
        cards: pack_cards(h.cards@) as u64,
        bid: h.bid,
    }
}

/// An upper bound for packing `k` cards: the packed value stays under
/// `2048^k`.
pub open spec fn pow2048(k: nat) -> int
    decreases k,
{
    if k == 0 {
        1
    } else {
        pow2048((k - 1) as nat) * 2048
    }
}

/// Packed cards stay under `2048` to the hand length.
proof fn lemma_pack_cards_bound(cards: Seq<Card>)
    ensures
        0 <= pack_cards(cards) < pow2048(cards.len()),
    decreases cards.len(),
{
    if cards.len() > 0 {
        lemma_pack_cards_bound(cards.drop_last());
        assert(card_key(cards.last()).0 * 256 + card_key(cards.last()).1 < 2048);
    }
}

impl Hand {
    /// The ranking key of the hand. Restricted to five-card hands so that the
    /// packed cards fit a machine word.
    #[verifier::loop_isolation(false)]
    pub fn hand_key(&self) -> (r: HandKey)
        requires
            self.cards@.len() == 5,
        ensures
            r == spec_hand_key(*self),
    {
        let rank = self.type_rank();
        let mut packed: u64 = 0;
        let mut k: usize = 0;
        proof {
            assert(pow2048(0) == 1);
            assert(pow2048(1) == 2048);
            assert(pow2048(2) == 0x400000);
            assert(pow2048(3) == 0x200000000);
            assert(pow2048(4) == 0x100000000000);
            assert(pow2048(5) == 0x80000000000000);
        }
        while k < self.cards.len()
            invariant
                0 <= k <= self.cards@.len() == 5,
                packed == pack_cards(self.cards@.take(k as int)),
                packed < pow2048(k as nat),
            decreases self.cards@.len() - k,
        {
            proof {
                assert(self.cards@.take(k + 1).drop_last() =~= self.cards@.take(k as int));
                assert(pow2048((k + 1) as nat) == pow2048(k as nat) * 2048);
                assert(pow2048(k as nat) * 2048 <= pow2048(5nat)) by {
                    lemma_pow2048_le(((k + 1)) as nat, 5nat);
                }
            }
            let c = self.cards[k];
            let (tag, num): (u64, u64) = match c {
                Card::Joker => (0, 0),
                Card::Number(n) => (1, n as u64),
                Card::Jack => (2, 0),
                Card::Queen => (3, 0),
                Card::King => (4, 0),
                Card::Ace => (5, 0),
            };
            packed = packed * 2048 + tag * 256 + num;
            k += 1;
        }
        assert(self.cards@.take(5) =~= self.cards@);
        HandKey { rank, cards: packed, bid: self.bid }
    }

    /// Each distinct card of the hand, at its first occurrence, with how
    /// often it occurs in the whole hand.
    #[verifier::loop_isolation(false)]
    pub fn card_counts(&self) -> (r: Vec<(Card, u64)>)
        requires
            hand_len_ok(self.cards@),
        ensures
            forall|a: int|
                0 <= a < r@.len() ==> (#[trigger] r@[a]).1 == count_card(self.cards@, r@[a].0),
            forall|a: int, b: int| 0 <= a < b < r@.len() ==> r@[a].0 != r@[b].0,
            forall|j: int|
                0 <= j < self.cards@.len() ==> has_entry(r@, #[trigger] self.cards@[j]),
    {
        let mut r: Vec<(Card, u64)> = Vec::new();
        let mut k: usize = 0;
        while k < self.cards.len()
            invariant
                0 <= k <= self.cards@.len(),
                forall|a: int|
                    0 <= a < r@.len() ==> (#[trigger] r@[a]).1 == count_card(self.cards@, r@[a].0),
                forall|a: int, b: int| 0 <= a < b < r@.len() ==> r@[a].0 != r@[b].0,
                forall|a: int| 0 <= a < r@.len() ==> self.cards@.take(k as int).contains(
                    (#[trigger] r@[a]).0,
                ),
                forall|j: int| 0 <= j < k ==> has_entry(r@, #[trigger] self.cards@[j]),
            decreases self.cards@.len() - k,
        {
            let c = self.cards[k];
            let mut seen = false;
            let mut a: usize = 0;
            while a < r.len()
                invariant
                    0 <= a <= r@.len(),
                    seen == exists|b: int| 0 <= b < a && (#[trigger] r@[b]).0 == c,
                decreases r@.len() - a,
            {
                if r[a].0 == c {
                    seen = true;
                }
                a += 1;
            }
            if !seen {
                let cnt = count_card_exec(&self.cards, c);
                let ghost pre = r@;
                r.push((c, cnt));
                proof {
                    assert(self.cards@.take(k + 1)[k as int] == c);
                    assert(forall|a: int|
                        0 <= a < pre.len() && self.cards@.take(k as int).contains(
                            (#[trigger] pre[a]).0,
                        ) ==> self.cards@.take(k + 1).contains(pre[a].0)) by {
                        assert(forall|b: int|
                            0 <= b < k ==> self.cards@.take(k + 1)[b] == #[trigger] self.cards@.take(
                                k as int,
                            )[b]);
                    }
                    assert(r@[pre.len() as int].0 == self.cards@[k as int]);
                    assert forall|j: int| 0 <= j < k + 1 implies has_entry(
                        r@,
                        #[trigger] self.cards@[j],
                    ) by {
                        if j < k {
                            let a = choose|a: int|
                                0 <= a < pre.len() && (#[trigger] pre[a]).0 == self.cards@[j];
                            assert(r@[a].0 == self.cards@[j]);
                        } else {
                            assert(r@[pre.len() as int].0 == self.cards@[j]);
                        }
                    }
                }
            } else {
                proof {
                    assert(self.cards@.take(k + 1)[k as int] == c);
                    assert(forall|b: int|
                        0 <= b < k ==> self.cards@.take(k + 1)[b] == #[trigger] self.cards@.take(
                            k as int,
                        )[b]);
                    let b = choose|b: int| 0 <= b < r@.len() && (#[trigger] r@[b]).0 == c;
                    assert forall|j: int| 0 <= j < k + 1 implies has_entry(
                        r@,
                        #[trigger] self.cards@[j],
                    ) by {
                        if j == k {
                            assert(r@[b].0 == self.cards@[j]);
                        }
                    }
                }
            }
            k += 1;
        }
        r
    }
}

/// Larger exponents give larger packing bounds.
proof fn lemma_pow2048_le(a: nat, b: nat)
    requires
        a <= b,
    ensures
        pow2048(a) <= pow2048(b),
    decreases b,
{
    if a < b {
        lemma_pow2048_le(a, (b - 1) as nat);
        assert(pow2048(b) == pow2048((b - 1) as nat) * 2048);
        assert(pow2048((b - 1) as nat) >= 1) by {
            lemma_pow2048_pos((b - 1) as nat);
        }
    }
}

/// Packing bounds are positive.
proof fn lemma_pow2048_pos(k: nat)
    ensures
        pow2048(k) >= 1,
    decreases k,
{
    if k > 0 {
        lemma_pow2048_pos((k - 1) as nat);
    }
}

/// The winnings of a ranked key list: each bid times its one-based position.
pub open spec fn win_sum(ks: Seq<HandKey>) -> int
    decreases ks.len(),
{
    if ks.len() == 0 {
        0
    } else {
        win_sum(ks.drop_last()) + ks.last().bid * ks.len()
    }
}

/// Sorts hand keys ascending by rank, cards, bid.
#[verifier::loop_isolation(false)]
fn sort_keys(keys: Vec<HandKey>) -> (r: Vec<HandKey>)
    ensures
        r@.to_multiset() == keys@.to_multiset(),
        forall|i: int, j: int| 0 <= i < j < r@.len() ==> key_le(#[trigger] r@[i], #[trigger] r@[j]),
{
    broadcast use vstd::seq_lib::group_to_multiset_ensures;

    let mut rem = keys;
    let mut out: Vec<HandKey> = Vec::new();
    while rem.len() > 0
        invariant
            out@.to_multiset().add(rem@.to_multiset()) =~= keys@.to_multiset(),
            forall|i: int, j: int|
                0 <= i < j < out@.len() ==> key_le(#[trigger] out@[i], #[trigger] out@[j]),
            forall|i: int, j: int|
                0 <= i < out@.len() && 0 <= j < rem@.len() ==> key_le(
                    #[trigger] out@[i],
                    #[trigger] rem@[j],
                ),
        decreases rem@.len(),
    {
        // The least remaining key.
        let mut best: usize = 0;
        let mut k: usize = 1;
        while k < rem.len()
            invariant
                0 <= best < k <= rem@.len(),
                forall|a: int| 0 <= a < k ==> key_le(rem@[best as int], #[trigger] rem@[a]),
            decreases rem@.len() - k,
        {
            let b = rem[best];
            let c = rem[k];
            let c_lt = c.rank < b.rank || (c.rank == b.rank && (c.cards < b.cards || (c.cards
                == b.cards && c.bid < b.bid)));
            if c_lt {
                best = k;
            }
            k += 1;
        }
        let ghost rem_pre = rem@;
        let ghost out_pre = out@;
        let picked = rem.remove(best);
        out.push(picked);
        proof {
            assert(out@.to_multiset().add(rem@.to_multiset()) =~= keys@.to_multiset());
            assert(forall|j: int|
                0 <= j < rem@.len() ==> rem@[j] == rem_pre[j] || #[trigger] rem@[j] == rem_pre[j
                    + 1]);
        }
    }
    proof {
        assert(rem@.to_multiset().len() == 0);
        assert(out@.to_multiset() =~= keys@.to_multiset());
    }
    out
}

/// The total winnings of a set of hands: sort the keys ascending and sum each
/// bid times its one-based rank. `None` exactly when that sum overflows.
#[verifier::loop_isolation(false)]
pub fn total_winnings(hands: &Vec<Hand>) -> (r: Option<u32>)
    requires
        forall|k: int| 0 <= k < hands@.len() ==> (#[trigger] hands@[k]).cards@.len() == 5,
    ensures
        ({
            let ranked = hands@.map_values(|h: Hand| spec_hand_key(h));
            match r {
                Some(v) => exists|ks: Seq<HandKey>|
                    ks.to_multiset() == ranked.to_multiset() && (forall|i: int, j: int|
                        0 <= i < j < ks.len() ==> key_le(#[trigger] ks[i], #[trigger] ks[j]))
                        && win_sum(ks) == v,
                None => exists|ks: Seq<HandKey>|
                    ks.to_multiset() == ranked.to_multiset() && (forall|i: int, j: int|
                        0 <= i < j < ks.len() ==> key_le(#[trigger] ks[i], #[trigger] ks[j]))
                        && win_sum(ks) > u32::MAX,
            }
        }),
{
    let ghost ranked = hands@.map_values(|h: Hand| spec_hand_key(h));
    let mut keys: Vec<HandKey> = Vec::new();
    let mut i: usize = 0;
    while i < hands.len()
        invariant
            0 <= i <= hands@.len(),
            forall|k: int| 0 <= k < hands@.len() ==> (#[trigger] hands@[k]).cards@.len() == 5,
            keys@ =~= hands@.map_values(|h: Hand| spec_hand_key(h)).take(i as int),
        decreases hands@.len() - i,
    {
        keys.push(hands[i].hand_key());
        i += 1;
    }
    assert(keys@ =~= ranked);
    let ghost keys0 = keys@;
    let sorted = sort_keys(keys);
    let ghost sortedv = sorted@;
    proof {
        assert(sortedv.to_multiset() == ranked.to_multiset());
    }
    let mut total: u64 = 0;
    let mut k: usize = 0;
    while k < sorted.len()
        invariant
            0 <= k <= sorted@.len(),
            sorted@ == sortedv,
            total <= u32::MAX,
            total == win_sum(sorted@.take(k as int)),
        decreases sorted@.len() - k,
    {
        proof {
            assert(sorted@.take(k + 1).drop_last() =~= sorted@.take(k as int));
            assert(sorted@.take(k + 1).last() == sorted@[k as int]);
        }
        let rank: u64 = k as u64 + 1;
        let bid: u64 = sorted[k].bid as u64;
        match bid.checked_mul(rank) {
            Some(p) => {
                match total.checked_add(p) {
                    Some(t) => {
                        if t <= 0xffff_ffff {
                            total = t;
                        } else {
                            proof {
                                lemma_overflow_witness(sortedv, ranked, k as int);
                            }
                            return None;
                        }
                    },
                    None => {
                        proof {
                            lemma_overflow_witness(sortedv, ranked, k as int);
                        }
                        return None;
                    },
                }
            },
            None => {
                proof {
                    lemma_overflow_witness(sortedv, ranked, k as int);
                }
                return None;
            },
        }
        k += 1;
    }
    proof {
        assert(sorted@.take(sorted@.len() as int) =~= sorted@);
        assert(exists|ks: Seq<HandKey>|
            ks.to_multiset() == ranked.to_multiset() && (forall|i: int, j: int|
                0 <= i < j < ks.len() ==> key_le(#[trigger] ks[i], #[trigger] ks[j])) && win_sum(
                ks,
            ) == total) by {
            assert(sortedv.to_multiset() == ranked.to_multiset() && (forall|i: int, j: int|
                0 <= i < j < sortedv.len() ==> key_le(#[trigger] sortedv[i], #[trigger] sortedv[j]))
                && win_sum(sortedv) == total);
        }
    }
    Some(total as u32)
}

/// When a prefix of a ranked key list already overflows the winnings, some
/// sorted rearrangement of the hands overflows them.
proof fn lemma_overflow_witness(sortedv: Seq<HandKey>, ranked: Seq<HandKey>, k: int)
    requires
        0 <= k < sortedv.len(),
        sortedv.to_multiset() == ranked.to_multiset(),
        forall|i: int, j: int|
            0 <= i < j < sortedv.len() ==> key_le(#[trigger] sortedv[i], #[trigger] sortedv[j]),
        win_sum(sortedv.take(k + 1)) > u32::MAX,
    ensures
        exists|ks: Seq<HandKey>|
            ks.to_multiset() == ranked.to_multiset() && (forall|i: int, j: int|
                0 <= i < j < ks.len() ==> key_le(#[trigger] ks[i], #[trigger] ks[j])) && win_sum(
                ks,
            ) > u32::MAX,
{
    lemma_win_sum_prefix(sortedv, k + 1);
    assert(sortedv.to_multiset() == ranked.to_multiset() && (forall|i: int, j: int|
        0 <= i < j < sortedv.len() ==> key_le(#[trigger] sortedv[i], #[trigger] sortedv[j]))
        && win_sum(sortedv) > u32::MAX);
}

/// Winnings only grow as more ranked hands are taken.
proof fn lemma_win_sum_prefix(ks: Seq<HandKey>, j: int)
    requires
        0 <= j <= ks.len(),
    ensures
        win_sum(ks.take(j)) <= win_sum(ks),
    decreases ks.len() - j,
{
    if j == ks.len() {
        assert(ks.take(j) =~= ks);
    } else {
        assert(ks.take(j + 1).drop_last() =~= ks.take(j));
        lemma_win_sum_prefix(ks, j + 1);
    }
}

impl Instance {
    /// Whole-day driver: parse the hands, sum the winnings as dealt (part
    /// one), then again with jacks played as jokers (part two).
    pub fn solve(&self, lines: &Vec<String>) -> (r: Result<DayResult, String>) {
        let mut hands: Vec<Hand> = Vec::new();
        let mut i: usize = 0;
        while i < lines.len()
            invariant
                0 <= i <= lines@.len(),
                forall|k: int| 0 <= k < hands@.len() ==> (#[trigger] hands@[k]).cards@.len() == 5,
            decreases lines@.len() - i,
        {
            match Hand::from_str(lines[i].as_str()) {
                Ok(h) => {
                    if h.cards.len() != 5 {
                        return Err("not a five-card hand".to_owned());
                    }
                    hands.push(h);
                },
                Err(e) => {
                    return Err(e);
                },
            }
            i += 1;
        }
        let part1 = match total_winnings(&hands) {
            Some(v) => v,
            None => {
                return Err("winnings overflow".to_owned());
            },
        };
        let mut jokered: Vec<Hand> = Vec::new();
        let mut j: usize = 0;
        while j < hands.len()
            invariant
                0 <= j <= hands@.len(),
                forall|k: int| 0 <= k < hands@.len() ==> (#[trigger] hands@[k]).cards@.len() == 5,
                forall|k: int| 0 <= k < jokered@.len() ==> (#[trigger] jokered@[k]).cards@.len() == 5,
            decreases hands@.len() - j,
        {
            jokered.push(hands[j].with_jokers());
            j += 1;
        }
        let part2 = match total_winnings(&jokered) {
            Some(v) => v,
            None => {
                return Err("winnings overflow".to_owned());
            },
        };
        Ok(
            DayResult {
                part1: u64_to_string(part1 as u64),
                part2: Some(u64_to_string(part2 as u64)),
            },
        )
    }
}

impl Day for Instance {
    fn run(&self, lines: Vec<String>) -> Result<DayResult, String> {
        self.solve(&lines)
    }
}

/// No card occurs more often than the hand is long.
proof fn lemma_count_card_le_len(cards: Seq<Card>, c: Card)
    ensures
        count_card(cards, c) <= cards.len(),
    decreases cards.len(),
{
    if cards.len() > 0 {
        lemma_count_card_le_len(cards.drop_last(), c);
    }
}

} // verus!
