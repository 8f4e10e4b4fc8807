//! Canonicalization of community-card poker hands under suit relabeling.
//!
//! Two hands that differ only by a global renaming of suits are strategically
//! identical. This library maps every well-formed hand (a private segment of
//! exactly two cards followed by a shared segment of 0, 3, 4 or 5 cards) to
//! a canonical member of its equivalence class under the 24 suit
//! relabelings, with each segment kept sorted and the two segments never
//! mixed.

use vstd::prelude::*;

pub mod cards;
pub mod laws;
pub mod suit_map;

use vstd::relations::sorted_by;
use vstd::relations::total_ordering;
use vstd::seq_lib::lemma_sorted_unique;

pub use cards::Card;
pub use cards::Suit;
pub use cards::Value;
use cards::card_le;
use cards::card_le_exec;
use cards::card_order;
use cards::lemma_card_order_total;
use cards::spec_suit_from_index;
use cards::suit_from_index;
use cards::suit_index;
use suit_map::count_present;
use suit_map::first_present;
use suit_map::more_than_one_present;
use suit_map::no_suits;
use suit_map::spec_first_present;
use suit_map::subset_of;
use suit_map::SuitMap;

verus! {

/// A hand is well formed when its private segment holds exactly 2 cards and
/// its shared segment 0, 3, 4 or 5 cards.
pub open spec fn well_formed_hand(h: Seq<Card>) -> bool {
    h.len() == 2 || h.len() == 5 || h.len() == 6 || h.len() == 7
}

/// The private segment: the first two cards.
pub open spec fn private_seg(h: Seq<Card>) -> Seq<Card> {
    h.subrange(0, 2)
}

/// The shared segment: every card after the first two.
pub open spec fn shared_seg(h: Seq<Card>) -> Seq<Card> {
    h.subrange(2, h.len() as int)
}

/// Each segment sorted by card order, segments never mixed.
pub open spec fn seg_sort(h: Seq<Card>) -> Seq<Card> {
    private_seg(h).sort_by(card_order()) + shared_seg(h).sort_by(card_order())
}

/// Both segments are sorted by card order.
pub open spec fn seg_sorted(h: Seq<Card>) -> bool {
    sorted_by(private_seg(h), card_order()) && sorted_by(shared_seg(h), card_order())
}

/// Whether `t` is the image of some suit under `p`.
pub open spec fn permutation_hits(p: SuitMap<Suit>, t: Suit) -> bool {
    p.clubs == t || p.diamonds == t || p.hearts == t || p.spades == t
}

/// A suit map is a permutation when every suit is hit; on a four-element
/// domain that makes it a bijection.
pub open spec fn is_suit_permutation(p: SuitMap<Suit>) -> bool {
    permutation_hits(p, Suit::Clubs) && permutation_hits(p, Suit::Diamonds) && permutation_hits(
        p,
        Suit::Hearts,
    ) && permutation_hits(p, Suit::Spades)
}

/// The identity relabeling.
pub open spec fn identity_permutation() -> SuitMap<Suit> {
    SuitMap {
        clubs: Suit::Clubs,
        diamonds: Suit::Diamonds,
        hearts: Suit::Hearts,
        spades: Suit::Spades,
    }
}

/// Relabel one card's suit, value untouched.
pub open spec fn apply_card(p: SuitMap<Suit>, c: Card) -> Card {
    Card { value: c.value, suit: p.spec_get(c.suit) }
}

/// Relabel every card's suit in a hand.
pub open spec fn apply_permutation(p: SuitMap<Suit>, h: Seq<Card>) -> Seq<Card> {
    h.map_values(|c: Card| apply_card(p, c))
}

/// Swapping two positions of a sequence leaves its multiset unchanged.
proof fn lemma_swap_multiset(s: Seq<Card>, i: int, j: int)
    requires
        0 <= i < j < s.len(),
    ensures
        s.update(i, s[j]).update(j, s[i]).to_multiset() =~= s.to_multiset(),
{
    broadcast use vstd::seq_lib::to_multiset_update;
    broadcast use vstd::seq_lib::group_to_multiset_ensures;
    broadcast use vstd::multiset::group_multiset_axioms;

    let s1 = s.update(i, s[j]);
    assert(s1.to_multiset() =~= s.to_multiset().insert(s[j]).remove(s[i]));
    assert(s1[j] == s[j]);
    assert(s1.update(j, s[i]).to_multiset() =~= s1.to_multiset().insert(s[i]).remove(s1[j]));
    assert(s.to_multiset().contains(s[i]));
    assert(s.to_multiset().contains(s[j]));
}

/// Sort the index range `[lo, hi)` of `cards` in place by card order; nothing
/// outside the range moves.
fn sort_range(cards: &mut Vec<Card>, lo: usize, hi: usize)
    requires
        lo <= hi,
        hi <= old(cards)@.len(),
    ensures
        final(cards)@.len() == old(cards)@.len(),
        forall|k: int| 0 <= k < lo ==> final(cards)@[k] == old(cards)@[k],
        forall|k: int| hi <= k < old(cards)@.len() ==> final(cards)@[k] == old(cards)@[k],
        final(cards)@.subrange(lo as int, hi as int) == old(cards)@.subrange(
            lo as int,
            hi as int,
        ).sort_by(card_order()),
{
    let ghost orig = cards@;
    let mut i: usize = lo;
    while i < hi
        invariant
            lo <= i <= hi,
            hi <= cards@.len(),
            cards@.len() == orig.len(),
            forall|k: int| 0 <= k < lo ==> cards@[k] == orig[k],
            forall|k: int| hi <= k < orig.len() ==> cards@[k] == orig[k],
            cards@.subrange(lo as int, hi as int).to_multiset() == orig.subrange(
                lo as int,
                hi as int,
            ).to_multiset(),
            sorted_by(cards@.subrange(lo as int, i as int), card_order()),
        decreases hi - i,
    {
        let mut j: usize = i;
        proof {
            let sub = cards@.subrange(lo as int, i as int);
            assert forall|a: int, b: int|
                #![trigger cards@[a], cards@[b]]
                lo <= a < b <= i && a != j && b != j implies card_le(cards@[a], cards@[b]) by {
                assert(sub[a - lo] == cards@[a]);
                assert(sub[b - lo] == cards@[b]);
                assert(card_order()(sub[a - lo], sub[b - lo]));
            }
        }
        loop
            invariant
                lo <= j <= i < hi,
                hi <= cards@.len(),
                cards@.len() == orig.len(),
                forall|k: int| 0 <= k < lo ==> cards@[k] == orig[k],
                forall|k: int| hi <= k < orig.len() ==> cards@[k] == orig[k],
                cards@.subrange(lo as int, hi as int).to_multiset() == orig.subrange(
                    lo as int,
                    hi as int,
                ).to_multiset(),
                forall|a: int, b: int|
                    #![trigger cards@[a], cards@[b]]
                    lo <= a < b <= i && a != j && b != j ==> card_le(cards@[a], cards@[b]),
                forall|b: int|
                    #![trigger cards@[b]]
                    j < b <= i ==> card_le(cards@[j as int], cards@[b]),
            ensures
                lo <= j <= i,
                cards@.len() == orig.len(),
                forall|k: int| 0 <= k < lo ==> cards@[k] == orig[k],
                forall|k: int| hi <= k < orig.len() ==> cards@[k] == orig[k],
                cards@.subrange(lo as int, hi as int).to_multiset() == orig.subrange(
                    lo as int,
                    hi as int,
                ).to_multiset(),
                forall|a: int, b: int|
                    #![trigger cards@[a], cards@[b]]
                    lo <= a < b <= i ==> card_le(cards@[a], cards@[b]),
            decreases j,
        {
            if j == lo {
                break ;
            }
            let le = card_le_exec(&cards[j - 1], &cards[j]);
            if le {
                break ;
            }
            let ghost before = cards@;
            let lower = cards[j - 1];
            let upper = cards[j];
            cards[j - 1] = upper;
            cards[j] = lower;
            proof {
                assert(cards@ =~= before.update(j - 1, before[j as int]).update(
                    j as int,
                    before[j - 1],
                ));
                lemma_swap_multiset(before, j - 1, j as int);
                assert(cards@.subrange(lo as int, hi as int) =~= before.subrange(
                    lo as int,
                    hi as int,
                ).update(j - 1 - lo, before[j as int]).update(j - lo, before[j - 1]));
                lemma_swap_multiset(before.subrange(lo as int, hi as int), j - 1 - lo, j - lo);
            }
            j = j - 1;
        }
        i = i + 1;
        proof {
            assert forall|a: int, b: int|
                0 <= a < b < cards@.subrange(lo as int, i as int).len() implies card_order()(
                cards@.subrange(lo as int, i as int)[a],
                cards@.subrange(lo as int, i as int)[b],
            ) by {
                assert(card_le(cards@[lo + a], cards@[lo + b]));
            }
        }
    }
    proof {
        let sub0 = orig.subrange(lo as int, hi as int);
        let sub1 = cards@.subrange(lo as int, hi as int);
        lemma_card_order_total();
        sub0.lemma_sort_by_ensures(card_order());
        lemma_sorted_unique(sub1, sub0.sort_by(card_order()), card_order());
    }
}

/// Sort a hand segment-wise: the private cards among themselves, the shared
/// cards among themselves, never across the boundary.
pub fn sort_hand(hand: &mut Vec<Card>)
    requires
        old(hand)@.len() >= 2,
    ensures
        final(hand)@ == seg_sort(old(hand)@),
        final(hand)@.len() == old(hand)@.len(),
{
    let ghost orig = hand@;
    let len = hand.len();
    sort_range(hand, 0, 2);
    let ghost mid = hand@;
    sort_range(hand, 2, len);
    proof {
        broadcast use vstd::seq_lib::group_to_multiset_ensures;

        lemma_card_order_total();
        orig.subrange(0, 2).lemma_sort_by_ensures(card_order());
        orig.subrange(2, orig.len() as int).lemma_sort_by_ensures(card_order());
        assert(orig.subrange(0, 2).to_multiset().len() == orig.subrange(0, 2).len());
        assert(orig.subrange(0, 2).sort_by(card_order()).to_multiset().len() == orig.subrange(
            0,
            2,
        ).sort_by(card_order()).len());
        assert(mid.subrange(0, 2) =~= orig.subrange(0, 2).sort_by(card_order()));
        assert(mid.subrange(2, mid.len() as int) =~= orig.subrange(2, orig.len() as int));
        assert(hand@.subrange(0, 2) =~= mid.subrange(0, 2));
        assert(hand@ =~= seg_sort(orig));
    }
}

/// Relabel every card of a hand according to a bijective suit map: each
/// card's suit is replaced by its image, values and positions untouched.
pub fn permute_suits(cards: Vec<Card>, target_suits: SuitMap<Suit>) -> (r: Vec<Card>)
    requires
        is_suit_permutation(target_suits),
    ensures
        r@ == apply_permutation(target_suits, cards@),
{
    let mut cards = cards;
    let ghost orig = cards@;
    let mut i: usize = 0;
    while i < cards.len()
        invariant
            i <= cards@.len(),
            cards@.len() == orig.len(),
            forall|k: int| 0 <= k < i ==> cards@[k] == apply_card(target_suits, orig[k]),
            forall|k: int| i <= k < orig.len() ==> cards@[k] == orig[k],
        decreases cards@.len() - i,
    {
        let c = cards[i];
        cards[i] = Card { value: c.value, suit: *target_suits.get(c.suit) };
        i = i + 1;
    }
    proof {
        assert(cards@ =~= apply_permutation(target_suits, orig));
    }
    cards
}

/// One state of the forward lookahead scan that resolves an ambiguous group
/// of suits: `suits` is the current candidate set, `group` the candidate
/// suits seen among cards of the value `group_value` currently being walked,
/// and `j` the position the scan has reached.
///
/// When the value changes (or the scan ends) with exactly one candidate suit
/// live, that suit is the answer; with several, the candidate set narrows to
/// the live group and the scan continues; a scan that ends with no candidate
/// ever seen yields no resolution.
pub open spec fn resolve_scan(
    cards: Seq<Card>,
    j: int,
    suits: SuitMap<bool>,
    group: SuitMap<bool>,
    group_value: Option<Value>,
) -> Option<Suit>
    decreases
            cards.len() - j,
            (match group_value {
                Some(_) => 1int,
                None => 0int,
            }),
{
    if j < 0 || cards.len() < j {
        None
    } else if j == cards.len() {
        spec_first_present(group)
    } else {
        let c = cards[j];
        let ended = match group_value {
            Some(v) => v != c.value,
            None => false,
        };
        if ended {
            if count_present(group) > 1 {
                resolve_scan(cards, j, group, no_suits(), None)
            } else {
                spec_first_present(group)
            }
        } else if suits.spec_get(c.suit) {
            resolve_scan(cards, j + 1, suits, group.spec_set(c.suit, true), Some(c.value))
        } else {
            resolve_scan(cards, j + 1, suits, group, group_value)
        }
    }
}

/// What `find_first_intersection` returns: the lookahead scan started at
/// `start` with candidate set `suits` and nothing seen yet.
pub open spec fn spec_find_first_intersection(
    cards: Seq<Card>,
    start: int,
    suits: SuitMap<bool>,
) -> Option<Suit> {
    resolve_scan(cards, start, suits, no_suits(), None)
}

/// The scan only ever answers with a suit from its candidate set.
pub proof fn lemma_resolve_scan_in_candidates(
    cards: Seq<Card>,
    j: int,
    suits: SuitMap<bool>,
    group: SuitMap<bool>,
    group_value: Option<Value>,
)
    requires
        subset_of(group, suits),
    ensures
        match resolve_scan(cards, j, suits, group, group_value) {
            Some(s) => suits.spec_get(s),
            None => true,
        },
    decreases
            cards.len() - j,
            (match group_value {
                Some(_) => 1int,
                None => 0int,
            }),
{
    if j < 0 || cards.len() < j {
    } else if j == cards.len() {
    } else {
        let c = cards[j];
        let ended = match group_value {
            Some(v) => v != c.value,
            None => false,
        };
        if ended {
            if count_present(group) > 1 {
                lemma_resolve_scan_in_candidates(cards, j, group, no_suits(), None);
            }
        } else if suits.spec_get(c.suit) {
            lemma_resolve_scan_in_candidates(
                cards,
                j + 1,
                suits,
                group.spec_set(c.suit, true),
                Some(c.value),
            );
        } else {
            lemma_resolve_scan_in_candidates(cards, j + 1, suits, group, group_value);
        }
    }
}

fn resolve_scan_exec(
    cards: &Vec<Card>,
    j: usize,
    suits: SuitMap<bool>,
    group: SuitMap<bool>,
    group_value: Option<Value>,
) -> (r: Option<Suit>)
    requires
        j <= cards@.len(),
    ensures
        r == resolve_scan(cards@, j as int, suits, group, group_value),
    decreases
            cards@.len() - j,
            (match group_value {
                Some(_) => 1int,
                None => 0int,
            }),
{
    if j == cards.len() {
        first_present(&group)
    } else {
        let c = cards[j];
        let ended = match group_value {
            Some(v) => v != c.value,
            None => false,
        };
        if ended {
            if more_than_one_present(&group) {
                resolve_scan_exec(cards, j, group, SuitMap::new_copied(false), None)
            } else {
                first_present(&group)
            }
        } else if *suits.get(c.suit) {
            let mut narrowed = group;
            narrowed.set(c.suit, true);
            resolve_scan_exec(cards, j + 1, suits, narrowed, Some(c.value))
        } else {
            resolve_scan_exec(cards, j + 1, suits, group, group_value)
        }
    }
}

/// Find the first suit of the candidate set `suits` that later context pins
/// down as canonically first, scanning the cards from `start` on (they must
/// be sorted by value there). A run of same-value cards that still holds
/// several candidates narrows the set; a scan that ends without resolving
/// yields `None`.
pub fn find_first_intersection(cards: &Vec<Card>, start: usize, suits: SuitMap<bool>) -> (r: Option<
    Suit,
>)
    requires
        start <= cards@.len(),
    ensures
        r == spec_find_first_intersection(cards@, start as int, suits),
        match r {
            Some(s) => suits.spec_get(s),
            None => true,
        },
{
    proof {
        lemma_resolve_scan_in_candidates(
            cards@,
            start as int,
            suits,
            no_suits(),
            None::<Value>,
        );
    }
    resolve_scan_exec(cards, start, suits, SuitMap::new_copied(false), None)
}

/// The suits a partial assignment has not labeled yet.
pub open spec fn unassigned_suits(a: SuitMap<Option<Suit>>) -> SuitMap<bool> {
    SuitMap {
        clubs: a.clubs is None,
        diamonds: a.diamonds is None,
        hearts: a.hearts is None,
        spades: a.spades is None,
    }
}

/// Walk the run of cards with value `v` starting at `j`, collecting into
/// `group` the suits of run cards that are still unassigned; `amb` records
/// whether any such sibling was found. Yields the index after the run, the
/// collected group, and the flag.
pub open spec fn gather_run(
    cards: Seq<Card>,
    j: int,
    v: Value,
    assigned: SuitMap<Option<Suit>>,
    group: SuitMap<bool>,
    amb: bool,
) -> (int, SuitMap<bool>, bool)
    decreases cards.len() - j,
{
    if j < 0 || cards.len() <= j {
        (j, group, amb)
    } else if cards[j].value != v {
        (j, group, amb)
    } else if assigned.spec_get(cards[j].suit) is None {
        gather_run(cards, j + 1, v, assigned, group.spec_set(cards[j].suit, true), true)
    } else {
        gather_run(cards, j + 1, v, assigned, group, amb)
    }
}

/// The run walk stays inside the hand and only ever collects unassigned
/// suits.
pub proof fn lemma_gather_run_props(
    cards: Seq<Card>,
    j: int,
    v: Value,
    assigned: SuitMap<Option<Suit>>,
    group: SuitMap<bool>,
    amb: bool,
)
    requires
        0 <= j <= cards.len(),
        subset_of(group, unassigned_suits(assigned)),
    ensures
        j <= gather_run(cards, j, v, assigned, group, amb).0 <= cards.len(),
        subset_of(gather_run(cards, j, v, assigned, group, amb).1, unassigned_suits(assigned)),
    decreases cards.len() - j,
{
    if j == cards.len() {
    } else if cards[j].value != v {
    } else if assigned.spec_get(cards[j].suit) is None {
        lemma_gather_run_props(
            cards,
            j + 1,
            v,
            assigned,
            group.spec_set(cards[j].suit, true),
            true,
        );
    } else {
        lemma_gather_run_props(cards, j + 1, v, assigned, group, amb);
    }
}

fn gather_run_exec(
    cards: &Vec<Card>,
    j: usize,
    v: Value,
    assigned: &SuitMap<Option<Suit>>,
    group: SuitMap<bool>,
    amb: bool,
) -> (r: (usize, SuitMap<bool>, bool))
    requires
        j <= cards@.len(),
    ensures
        (r.0 as int, r.1, r.2) == gather_run(cards@, j as int, v, *assigned, group, amb),
        j <= r.0 <= cards@.len(),
    decreases cards@.len() - j,
{
    if j == cards.len() {
        (j, group, amb)
    } else {
        let c = cards[j];
        if c.value != v {
            (j, group, amb)
        } else if assigned.get(c.suit).is_none() {
            let mut extended = group;
            extended.set(c.suit, true);
            gather_run_exec(cards, j + 1, v, assigned, extended, true)
        } else {
            gather_run_exec(cards, j + 1, v, assigned, group, amb)
        }
    }
}

/// Which still-unassigned suit the next canonical label belongs to, when the
/// card at `i` has an unassigned suit: collect the unassigned suits among the
/// run of cards sharing that card's value; if the card is alone there, its
/// own suit is next; otherwise the lookahead scan resolves the group, and if
/// even the scan ends unresolved the card's own suit is kept.
pub open spec fn spec_get_next_suit(cards: Seq<Card>, i: int, assigned: SuitMap<Option<Suit>>) -> Suit {
    let c = cards[i];
    let run = gather_run(cards, i + 1, c.value, assigned, no_suits().spec_set(c.suit, true), false);
    if run.2 {
        match spec_find_first_intersection(cards, run.0, run.1) {
            Some(s) => s,
            None => c.suit,
        }
    } else {
        c.suit
    }
}

/// Decide which unassigned suit receives the next canonical label, for the
/// card at position `i` of a hand whose shared segment is sorted by value.
pub fn get_next_suit_to_assign(cards: &Vec<Card>, i: usize, assigned: &SuitMap<Option<Suit>>) -> (r:
    Suit)
    requires
        i < cards@.len(),
        assigned.spec_get(cards@[i as int].suit) is None,
    ensures
        r == spec_get_next_suit(cards@, i as int, *assigned),
        assigned.spec_get(r) is None,
{
    let n = cards.len();
    let c = cards[i];
    let mut group = SuitMap::new_copied(false);
    group.set(c.suit, true);
    let ghost group0 = group;
    proof {
        assert(i + 1 <= n);
    }
    let run = gather_run_exec(cards, i + 1, c.value, assigned, group, false);
    proof {
        lemma_gather_run_props(cards@, i + 1, c.value, *assigned, group0, false);
    }
    if run.2 {
        match find_first_intersection(cards, run.0, run.1) {
            Some(s) => s,
            None => c.suit,
        }
    } else {
        c.suit
    }
}

/// The two private suits as an ambiguous candidate set, when the two private
/// cards share a value; `None` when their values differ.
pub open spec fn spec_hole_cards_same_value(h: Seq<Card>) -> Option<SuitMap<bool>> {
    if h[0].value == h[1].value {
        Some(no_suits().spec_set(h[0].suit, true).spec_set(h[1].suit, true))
    } else {
        None
    }
}

/// If the two private cards share a value, hand back the set of their suits,
/// whose relative order Phase A's tie-break alone cannot settle.
pub fn hole_cards_same_value(cards: &Vec<Card>) -> (r: Option<SuitMap<bool>>)
    requires
        cards@.len() >= 2,
    ensures
        r == spec_hole_cards_same_value(cards@),
{
    if cards[0].value == cards[1].value {
        let mut group = SuitMap::new_copied(false);
        group.set(cards[0].suit, true);
        group.set(cards[1].suit, true);
        Some(group)
    } else {
        None
    }
}

/// The partial assignment with no suit labeled.
pub open spec fn no_assignment() -> SuitMap<Option<Suit>> {
    SuitMap { clubs: None, diamonds: None, hearts: None, spades: None }
}

/// How many suits a partial assignment has labeled.
pub open spec fn assigned_count(a: SuitMap<Option<Suit>>) -> int {
    (if a.clubs is Some {
        1int
    } else {
        0int
    }) + (if a.diamonds is Some {
        1int
    } else {
        0int
    }) + (if a.hearts is Some {
        1int
    } else {
        0int
    }) + (if a.spades is Some {
        1int
    } else {
        0int
    })
}

/// Every label handed out so far lies below the generator cursor.
pub open spec fn labels_below(a: SuitMap<Option<Suit>>, n: int) -> bool {
    (match a.clubs {
        Some(t) => suit_index(t) < n,
        None => true,
    }) && (match a.diamonds {
        Some(t) => suit_index(t) < n,
        None => true,
    }) && (match a.hearts {
        Some(t) => suit_index(t) < n,
        None => true,
    }) && (match a.spades {
        Some(t) => suit_index(t) < n,
        None => true,
    })
}

/// No two suits share a label.
pub open spec fn labels_distinct(a: SuitMap<Option<Suit>>) -> bool {
    (a.clubs is Some ==> a.clubs != a.diamonds && a.clubs != a.hearts && a.clubs != a.spades)
        && (a.diamonds is Some ==> a.diamonds != a.hearts && a.diamonds != a.spades) && (a.hearts
        is Some ==> a.hearts != a.spades)
}

/// The invariant tying a partial assignment to the generator cursor `n`:
/// exactly `n` suits are labeled, with the `n` distinct labels below `n`.
pub open spec fn assignment_ok(a: SuitMap<Option<Suit>>, n: int) -> bool {
    assigned_count(a) == n && labels_below(a, n) && labels_distinct(a)
}

/// The pair (first, second) of private suits in the order their canonical
/// labels are handed out. When the two private cards share a value, the
/// lookahead over the shared segment decides which suit counts as first; if
/// it points at the second card's suit, the two are swapped; if it resolves
/// nothing, the sorted order stands.
pub open spec fn hole_suit_order(h: Seq<Card>) -> (Suit, Suit) {
    let s0 = h[0].suit;
    let s1 = h[1].suit;
    match spec_hole_cards_same_value(h) {
        Some(amb) => match spec_find_first_intersection(h, 2, amb) {
            Some(s) => if s == s1 {
                (s1, s0)
            } else {
                (s0, s1)
            },
            None => (s0, s1),
        },
        None => (s0, s1),
    }
}

/// Label the suit of the card at `i`, pulling labels from the generator
/// cursor `n`, repeating until that suit is labeled: each round labels the
/// one suit the ambiguity resolution picks among the card's still-unassigned
/// same-value group.
pub open spec fn assign_card(cards: Seq<Card>, i: int, a: SuitMap<Option<Suit>>, n: int) -> (
    SuitMap<Option<Suit>>,
    int,
)
    decreases 4 - assigned_count(a),
{
    if 0 <= i < cards.len() && a.spec_get(cards[i].suit) is None {
        let s = spec_get_next_suit(cards, i, a);
        if a.spec_get(s) is None && 0 <= assigned_count(a) < 4 {
            assign_card(cards, i, a.spec_set(s, Some(spec_suit_from_index(n))), n + 1)
        } else {
            (a, n)
        }
    } else {
        (a, n)
    }
}

/// Walk the shared segment in order, labeling suits as `assign_card` says.
pub open spec fn assign_all(cards: Seq<Card>, i: int, a: SuitMap<Option<Suit>>, n: int) -> (
    SuitMap<Option<Suit>>,
    int,
)
    decreases cards.len() - i,
{
    if i < 0 || cards.len() <= i {
        (a, n)
    } else {
        let step = assign_card(cards, i, a, n);
        assign_all(cards, i + 1, step.0, step.1)
    }
}

/// Turn a partial assignment into a total one: every unlabeled suit takes
/// the next unused label, in suit enumeration order.
pub open spec fn fill_remaining(a: SuitMap<Option<Suit>>, n: int) -> SuitMap<Suit> {
    let (c, n1): (Suit, int) = match a.clubs {
        Some(t) => (t, n),
        None => (spec_suit_from_index(n), n + 1),
    };
    let (d, n2): (Suit, int) = match a.diamonds {
        Some(t) => (t, n1),
        None => (spec_suit_from_index(n1), n1 + 1),
    };
    let (h, n3): (Suit, int) = match a.hearts {
        Some(t) => (t, n2),
        None => (spec_suit_from_index(n2), n2 + 1),
    };
    let (s, _n4): (Suit, int) = match a.spades {
        Some(t) => (t, n3),
        None => (spec_suit_from_index(n3), n3 + 1),
    };
    SuitMap { clubs: c, diamonds: d, hearts: h, spades: s }
}

/// Filling a consistent partial assignment yields a bijection on suits.
pub proof fn lemma_fill_remaining_bijective(a: SuitMap<Option<Suit>>, n: int)
    requires
        assignment_ok(a, n),
        0 <= n <= 4,
    ensures
        is_suit_permutation(fill_remaining(a, n)),
{
}

/// The canonical form of a well-formed hand: sort each segment, resolve the
/// private pair's label order by lookahead, hand out canonical labels left
/// to right (resolving ties by the same lookahead), complete the labeling to
/// a bijection, relabel every card and sort each segment again.
pub open spec fn spec_canonicalize(h: Seq<Card>) -> Seq<Card> {
    let sorted = seg_sort(h);
    let order = hole_suit_order(sorted);
    let a0 = no_assignment().spec_set(order.0, Some(spec_suit_from_index(0)));
    let (a1, n1): (SuitMap<Option<Suit>>, int) = if a0.spec_get(order.1) is None {
        (a0.spec_set(order.1, Some(spec_suit_from_index(1))), 2)
    } else {
        (a0, 1)
    };
    let done = assign_all(sorted, 2, a1, n1);
    let p = fill_remaining(done.0, done.1);
    seg_sort(apply_permutation(p, sorted))
}

/// Map a well-formed hand to the canonical representative of its suit
/// equivalence class: same segment shape, suits relabeled by the bijection
/// the assignment phases construct, each segment sorted.
///
/// The result is a function of the input alone, so two calls on equal hands
/// return equal hands.
pub fn canonicalize_hand(cards: Vec<Card>) -> (r: Vec<Card>)
    requires
        well_formed_hand(cards@),
    ensures
        r@ == spec_canonicalize(cards@),
        r@.len() == cards@.len(),
        seg_sorted(r@),
        laws::hand_values(private_seg(r@)).to_multiset() == laws::hand_values(
            private_seg(cards@),
        ).to_multiset(),
        laws::hand_values(shared_seg(r@)).to_multiset() == laws::hand_values(
            shared_seg(cards@),
        ).to_multiset(),
        exists|p: SuitMap<Suit>|
            is_suit_permutation(p) && r@ == seg_sort(apply_permutation(p, cards@)),
{
    proof {
        laws::lemma_canonicalize_shape(cards@);
        laws::lemma_canonicalize_in_class(cards@);
    }
    let ghost input = cards@;
    let mut cards = cards;
    sort_hand(&mut cards);
    let ghost sorted = cards@;
    let n_cards = cards.len();

    // Phase B: decide which private suit's label comes first.
    let hole0 = cards[0];
    let hole1 = cards[1];
    let mut first_suit = hole0.suit;
    let mut second_suit = hole1.suit;
    match hole_cards_same_value(&cards) {
        Some(amb) => {
            match find_first_intersection(&cards, 2, amb) {
                Some(s) => {
                    if s == hole1.suit {
                        first_suit = hole1.suit;
                        second_suit = hole0.suit;
                    }
                },
                None => {},
            }
        },
        None => {},
    }
    proof {
        assert((first_suit, second_suit) == hole_suit_order(sorted));
    }

    // Phase C: assign canonical labels, private suits first.
    let mut assigned: SuitMap<Option<Suit>> = SuitMap::new_copied(None);
    let mut next_label: u8 = 0;
    assigned.set(first_suit, Some(suit_from_index(next_label)));
    next_label = next_label + 1;
    if assigned.get(second_suit).is_none() {
        assigned.set(second_suit, Some(suit_from_index(next_label)));
        next_label = next_label + 1;
    }
    let ghost a1 = assigned;
    let ghost n1 = next_label as int;
    let mut i: usize = 2;
    while i < n_cards
        invariant
            2 <= i <= n_cards,
            n_cards == cards@.len(),
            cards@ == sorted,
            next_label <= 4,
            assignment_ok(assigned, next_label as int),
            assign_all(sorted, i as int, assigned, next_label as int) == assign_all(
                sorted,
                2,
                a1,
                n1,
            ),
        decreases n_cards - i,
    {
        let ghost a_enter = assigned;
        let ghost n_enter = next_label as int;
        while assigned.get(cards[i].suit).is_none()
            invariant
                2 <= i < n_cards,
                n_cards == cards@.len(),
                cards@ == sorted,
                next_label <= 4,
                assignment_ok(assigned, next_label as int),
                assign_card(sorted, i as int, assigned, next_label as int) == assign_card(
                    sorted,
                    i as int,
                    a_enter,
                    n_enter,
                ),
            decreases 4 - next_label,
        {
            let suit = get_next_suit_to_assign(&cards, i, &assigned);
            assigned.set(suit, Some(suit_from_index(next_label)));
            next_label = next_label + 1;
        }
        i = i + 1;
    }

    // Phase E: complete the labeling to a bijection, relabel, and re-sort.
    let ghost a_done = assigned;
    let ghost n_done = next_label as int;
    let label_clubs = match *assigned.get(Suit::Clubs) {
        Some(t) => t,
        None => {
            let t = suit_from_index(next_label);
            next_label = next_label + 1;
            t
        },
    };
    let label_diamonds = match *assigned.get(Suit::Diamonds) {
        Some(t) => t,
        None => {
            let t = suit_from_index(next_label);
            next_label = next_label + 1;
            t
        },
    };
    let label_hearts = match *assigned.get(Suit::Hearts) {
        Some(t) => t,
        None => {
            let t = suit_from_index(next_label);
            next_label = next_label + 1;
            t
        },
    };
    let label_spades = match *assigned.get(Suit::Spades) {
        Some(t) => t,
        None => {
            let t = suit_from_index(next_label);
            next_label = next_label + 1;
            t
        },
    };
    let permutation = SuitMap::new(label_clubs, label_diamonds, label_hearts, label_spades);
    proof {
        assert(permutation == fill_remaining(a_done, n_done));
        lemma_fill_remaining_bijective(a_done, n_done);
    }
    let mut out = permute_suits(cards, permutation);
    sort_hand(&mut out);
    out
}

} // verus!
