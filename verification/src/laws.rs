//! The library's stated laws: facts that relate several of the engine's
//! functions, proved once here against the same spec functions the engine's
//! contracts use.

use vstd::prelude::*;

use crate::apply_card;
use crate::apply_permutation;
use crate::assign_all;
use crate::assign_card;
use crate::assigned_count;
use crate::assignment_ok;
use crate::cards::card_le;
use crate::cards::card_order;
use crate::cards::suit_index;
use crate::cards::lemma_card_order_total;
use crate::cards::spec_suit_from_index;
use crate::cards::Card;
use crate::cards::Suit;
use crate::cards::Value;
use crate::fill_remaining;
use crate::hole_suit_order;
use crate::identity_permutation;
use crate::is_suit_permutation;
use crate::lemma_fill_remaining_bijective;
use crate::no_assignment;
use crate::private_seg;
use crate::seg_sort;
use crate::seg_sorted;
use crate::shared_seg;
use crate::spec_canonicalize;
use crate::spec_get_next_suit;
use crate::suit_map::SuitMap;
use crate::well_formed_hand;
use vstd::multiset::Multiset;
use vstd::seq_lib::lemma_sorted_unique;

verus! {

/// The face values of a hand, in order.
pub open spec fn hand_values(h: Seq<Card>) -> Seq<Value> {
    h.map_values(|c: Card| c.value)
}

/// Mapping a function over two sequences with equal multisets yields equal
/// multisets again.
pub proof fn lemma_map_values_multiset<B>(a: Seq<Card>, b: Seq<Card>, f: spec_fn(Card) -> B)
    requires
        a.to_multiset() == b.to_multiset(),
    ensures
        a.map_values(f).to_multiset() == b.map_values(f).to_multiset(),
    decreases a.len(),
{
    broadcast use vstd::seq_lib::group_to_multiset_ensures;
    broadcast use vstd::multiset::group_multiset_axioms;

    if a.len() == 0 {
        assert(b.to_multiset().len() == 0);
        assert(a.map_values(f) =~= Seq::<B>::empty());
        assert(b.map_values(f) =~= Seq::<B>::empty());
        assert(a.map_values(f).to_multiset() =~= b.map_values(f).to_multiset());
    } else {
        let x = a[0];
        assert(a.contains(x));
        assert(a.to_multiset().count(x) > 0);
        assert(b.to_multiset().count(x) > 0);
        assert(b.contains(x));
        let k = choose|k: int| 0 <= k < b.len() && b[k] == x;
        let a1 = a.remove(0);
        let b1 = b.remove(k);
        assert(a1.to_multiset() == a.to_multiset().remove(x));
        assert(b1.to_multiset() == b.to_multiset().remove(x));
        lemma_map_values_multiset(a1, b1, f);
        let ma = a.map_values(f);
        let mb = b.map_values(f);
        assert(a1.map_values(f) =~= ma.remove(0));
        assert(b1.map_values(f) =~= mb.remove(k));
        assert(ma[0] == f(x));
        assert(mb[k] == f(x));
        assert(ma.remove(0).to_multiset() == ma.to_multiset().remove(f(x)));
        assert(mb.remove(k).to_multiset() == mb.to_multiset().remove(f(x)));
        assert(ma.contains(f(x)));
        assert(mb.contains(f(x)));
        assert(ma.to_multiset().count(f(x)) > 0);
        assert(mb.to_multiset().count(f(x)) > 0);
        assert forall|e: B| ma.to_multiset().count(e) == #[trigger] mb.to_multiset().count(e) by {
            if e == f(x) {
                assert(ma.to_multiset().remove(f(x)).count(e) == mb.to_multiset().remove(
                    f(x),
                ).count(e));
            } else {
                assert(ma.to_multiset().remove(f(x)).count(e) == ma.to_multiset().count(e));
                assert(mb.to_multiset().remove(f(x)).count(e) == mb.to_multiset().count(e));
            }
        }
        assert(ma.to_multiset() =~= mb.to_multiset());
    }
}

/// Two sequences with the same multiset of cards sort to the same sequence.
pub proof fn lemma_sort_by_multiset_eq(a: Seq<Card>, b: Seq<Card>)
    requires
        a.to_multiset() == b.to_multiset(),
    ensures
        a.sort_by(card_order()) == b.sort_by(card_order()),
{
    lemma_card_order_total();
    a.lemma_sort_by_ensures(card_order());
    b.lemma_sort_by_ensures(card_order());
    lemma_sorted_unique(a.sort_by(card_order()), b.sort_by(card_order()), card_order());
}

/// Segment-wise sorting depends only on each segment's multiset of cards.
pub proof fn lemma_seg_sort_congruence(x: Seq<Card>, y: Seq<Card>)
    requires
        private_seg(x).to_multiset() == private_seg(y).to_multiset(),
        shared_seg(x).to_multiset() == shared_seg(y).to_multiset(),
    ensures
        seg_sort(x) == seg_sort(y),
{
    lemma_sort_by_multiset_eq(private_seg(x), private_seg(y));
    lemma_sort_by_multiset_eq(shared_seg(x), shared_seg(y));
}

/// What segment-wise sorting does: length kept, each segment sorted, each
/// segment's multiset of cards kept.
pub proof fn lemma_seg_sort_properties(h: Seq<Card>)
    requires
        h.len() >= 2,
    ensures
        seg_sort(h).len() == h.len(),
        crate::seg_sorted(seg_sort(h)),
        private_seg(seg_sort(h)).to_multiset() == private_seg(h).to_multiset(),
        shared_seg(seg_sort(h)).to_multiset() == shared_seg(h).to_multiset(),
{
    broadcast use vstd::seq_lib::group_to_multiset_ensures;

    lemma_card_order_total();
    let pr = private_seg(h);
    let sh = shared_seg(h);
    pr.lemma_sort_by_ensures(card_order());
    sh.lemma_sort_by_ensures(card_order());
    assert(pr.to_multiset().len() == pr.len());
    assert(pr.sort_by(card_order()).to_multiset().len() == pr.sort_by(card_order()).len());
    assert(sh.to_multiset().len() == sh.len());
    assert(sh.sort_by(card_order()).to_multiset().len() == sh.sort_by(card_order()).len());
    assert(pr.sort_by(card_order()).len() == pr.len());
    assert(sh.sort_by(card_order()).len() == sh.len());
    assert(private_seg(seg_sort(h)) =~= pr.sort_by(card_order()));
    assert(shared_seg(seg_sort(h)) =~= sh.sort_by(card_order()));
}

/// Relabeling keeps a hand's length and commutes with taking its segments.
pub proof fn lemma_apply_segments(p: SuitMap<Suit>, x: Seq<Card>)
    requires
        x.len() >= 2,
    ensures
        apply_permutation(p, x).len() == x.len(),
        private_seg(apply_permutation(p, x)) == apply_permutation(p, private_seg(x)),
        shared_seg(apply_permutation(p, x)) == apply_permutation(p, shared_seg(x)),
{
    assert(private_seg(apply_permutation(p, x)) =~= apply_permutation(p, private_seg(x)));
    assert(shared_seg(apply_permutation(p, x)) =~= apply_permutation(p, shared_seg(x)));
}

/// Relabeling two multiset-equal sequences yields multiset-equal sequences.
pub proof fn lemma_apply_multiset(p: SuitMap<Suit>, a: Seq<Card>, b: Seq<Card>)
    requires
        a.to_multiset() == b.to_multiset(),
    ensures
        apply_permutation(p, a).to_multiset() == apply_permutation(p, b).to_multiset(),
{
    let f = |c: Card| apply_card(p, c);
    lemma_map_values_multiset(a, b, f);
    assert(a.map_values(f) =~= apply_permutation(p, a));
    assert(b.map_values(f) =~= apply_permutation(p, b));
}

/// Labeling one card's suit group keeps the assignment consistent with the
/// generator cursor, which never runs past the four labels.
pub proof fn lemma_assign_card_ok(cards: Seq<Card>, i: int, a: SuitMap<Option<Suit>>, n: int)
    requires
        assignment_ok(a, n),
    ensures
        assignment_ok(assign_card(cards, i, a, n).0, assign_card(cards, i, a, n).1),
        n <= assign_card(cards, i, a, n).1 <= 4,
    decreases 4 - assigned_count(a),
{
    if 0 <= i < cards.len() && a.spec_get(cards[i].suit) is None {
        let s = spec_get_next_suit(cards, i, a);
        if a.spec_get(s) is None && 0 <= assigned_count(a) < 4 {
            let a2 = a.spec_set(s, Some(spec_suit_from_index(n)));
            assert(assignment_ok(a2, n + 1));
            lemma_assign_card_ok(cards, i, a2, n + 1);
        }
    }
}

/// Walking the whole shared segment keeps the assignment consistent.
pub proof fn lemma_assign_all_ok(cards: Seq<Card>, i: int, a: SuitMap<Option<Suit>>, n: int)
    requires
        assignment_ok(a, n),
    ensures
        assignment_ok(assign_all(cards, i, a, n).0, assign_all(cards, i, a, n).1),
        n <= assign_all(cards, i, a, n).1 <= 4,
    decreases cards.len() - i,
{
    if i < 0 || cards.len() <= i {
    } else {
        lemma_assign_card_ok(cards, i, a, n);
        let step = assign_card(cards, i, a, n);
        lemma_assign_all_ok(cards, i + 1, step.0, step.1);
    }
}

/// The canonical form of a well-formed hand is the segment-wise sort of one
/// of its suit relabelings: this proof hands back the bijection.
pub proof fn lemma_canonicalize_perm(h: Seq<Card>) -> (p: SuitMap<Suit>)
    requires
        well_formed_hand(h),
    ensures
        is_suit_permutation(p),
        spec_canonicalize(h) == seg_sort(apply_permutation(p, h)),
{
    let sorted = seg_sort(h);
    lemma_seg_sort_properties(h);
    let order = hole_suit_order(sorted);
    let a0 = no_assignment().spec_set(order.0, Some(spec_suit_from_index(0)));
    let (a1, n1): (SuitMap<Option<Suit>>, int) = if a0.spec_get(order.1) is None {
        (a0.spec_set(order.1, Some(spec_suit_from_index(1))), 2int)
    } else {
        (a0, 1int)
    };
    assert(assignment_ok(a1, n1));
    lemma_assign_all_ok(sorted, 2, a1, n1);
    let done = assign_all(sorted, 2, a1, n1);
    lemma_fill_remaining_bijective(done.0, done.1);
    let p = fill_remaining(done.0, done.1);
    lemma_apply_segments(p, sorted);
    lemma_apply_segments(p, h);
    lemma_apply_multiset(p, private_seg(sorted), private_seg(h));
    lemma_apply_multiset(p, shared_seg(sorted), shared_seg(h));
    lemma_seg_sort_congruence(apply_permutation(p, sorted), apply_permutation(p, h));
    p
}

/// The canonical form lies in the input's equivalence class: it is a suit
/// relabeling of the input, segment-wise sorted.
pub proof fn lemma_canonicalize_in_class(h: Seq<Card>)
    requires
        well_formed_hand(h),
    ensures
        exists|p: SuitMap<Suit>|
            is_suit_permutation(p) && spec_canonicalize(h) == seg_sort(apply_permutation(p, h)),
{
    let p = lemma_canonicalize_perm(h);
}

/// Shape preservation: the canonical form has the same length, the same
/// private/shared split (each segment sorted in place), and the same
/// multiset of face values as the input, segment by segment.
pub proof fn lemma_canonicalize_shape(h: Seq<Card>)
    requires
        well_formed_hand(h),
    ensures
        spec_canonicalize(h).len() == h.len(),
        well_formed_hand(spec_canonicalize(h)),
        seg_sorted(spec_canonicalize(h)),
        hand_values(private_seg(spec_canonicalize(h))).to_multiset() == hand_values(
            private_seg(h),
        ).to_multiset(),
        hand_values(shared_seg(spec_canonicalize(h))).to_multiset() == hand_values(
            shared_seg(h),
        ).to_multiset(),
        hand_values(spec_canonicalize(h)).to_multiset() == hand_values(h).to_multiset(),
{
    broadcast use vstd::seq_lib::lemma_multiset_commutative;

    let p = lemma_canonicalize_perm(h);
    let relabeled = apply_permutation(p, h);
    let canon = spec_canonicalize(h);
    lemma_apply_segments(p, h);
    lemma_seg_sort_properties(relabeled);
    let fv = |c: Card| c.value;
    lemma_map_values_multiset(private_seg(canon), apply_permutation(p, private_seg(h)), fv);
    lemma_map_values_multiset(shared_seg(canon), apply_permutation(p, shared_seg(h)), fv);
    assert(private_seg(canon).map_values(fv) =~= hand_values(private_seg(canon)));
    assert(shared_seg(canon).map_values(fv) =~= hand_values(shared_seg(canon)));
    assert(apply_permutation(p, private_seg(h)).map_values(fv) =~= hand_values(private_seg(h)));
    assert(apply_permutation(p, shared_seg(h)).map_values(fv) =~= hand_values(shared_seg(h)));
    assert(hand_values(canon) =~= hand_values(private_seg(canon)) + hand_values(
        shared_seg(canon),
    ));
    assert(hand_values(h) =~= hand_values(private_seg(h)) + hand_values(shared_seg(h)));
}

/// A hand whose segments are already sorted is a fixpoint of segment-wise
/// sorting.
pub proof fn lemma_seg_sort_fixpoint(h: Seq<Card>)
    requires
        h.len() >= 2,
        seg_sorted(h),
    ensures
        seg_sort(h) == h,
{
    lemma_card_order_total();
    let pr = private_seg(h);
    let sh = shared_seg(h);
    pr.lemma_sort_by_ensures(card_order());
    sh.lemma_sort_by_ensures(card_order());
    lemma_sorted_unique(pr.sort_by(card_order()), pr, card_order());
    lemma_sorted_unique(sh.sort_by(card_order()), sh, card_order());
    assert(seg_sort(h) =~= h);
}

/// The canonical form is stable under another segment-wise sort: the first
/// phase of a repeated canonicalization changes nothing.
pub proof fn lemma_canonicalize_sort_stable(h: Seq<Card>)
    requires
        well_formed_hand(h),
    ensures
        seg_sort(spec_canonicalize(h)) == spec_canonicalize(h),
{
    lemma_canonicalize_shape(h);
    lemma_seg_sort_fixpoint(spec_canonicalize(h));
}

/// Labeling card suit groups never overwrites a label already handed out.
pub proof fn lemma_assign_card_preserves(
    cards: Seq<Card>,
    i: int,
    a: SuitMap<Option<Suit>>,
    n: int,
    s: Suit,
)
    requires
        a.spec_get(s) is Some,
    ensures
        assign_card(cards, i, a, n).0.spec_get(s) == a.spec_get(s),
    decreases 4 - assigned_count(a),
{
    if 0 <= i < cards.len() && a.spec_get(cards[i].suit) is None {
        let picked = spec_get_next_suit(cards, i, a);
        if a.spec_get(picked) is None && 0 <= assigned_count(a) < 4 {
            let a2 = a.spec_set(picked, Some(spec_suit_from_index(n)));
            lemma_assign_card_preserves(cards, i, a2, n + 1, s);
        }
    }
}

/// Walking the shared segment never overwrites a label already handed out.
pub proof fn lemma_assign_all_preserves(
    cards: Seq<Card>,
    i: int,
    a: SuitMap<Option<Suit>>,
    n: int,
    s: Suit,
)
    requires
        a.spec_get(s) is Some,
    ensures
        assign_all(cards, i, a, n).0.spec_get(s) == a.spec_get(s),
    decreases cards.len() - i,
{
    if i < 0 || cards.len() <= i {
    } else {
        lemma_assign_card_preserves(cards, i, a, n, s);
        let step = assign_card(cards, i, a, n);
        lemma_assign_all_preserves(cards, i + 1, step.0, step.1, s);
    }
}

/// Sorting a two-card sequence orders its two cards.
proof fn lemma_two_element_sort(s: Seq<Card>)
    requires
        s.len() == 2,
    ensures
        ({
            let t = s.sort_by(card_order());
            &&& t.len() == 2
            &&& crate::cards::card_le(t[0], t[1])
            &&& ((t[0] == s[0] && t[1] == s[1]) || (t[0] == s[1] && t[1] == s[0]))
        }),
{
    broadcast use vstd::seq_lib::group_to_multiset_ensures;
    broadcast use vstd::multiset::group_multiset_axioms;

    lemma_card_order_total();
    s.lemma_sort_by_ensures(card_order());
    let t = s.sort_by(card_order());
    assert(s.to_multiset().len() == s.len());
    assert(t.to_multiset().len() == t.len());
    assert(t.len() == 2);
    assert(card_order()(t[0], t[1]));
    assert(s =~= Seq::<Card>::empty().push(s[0]).push(s[1]));
    assert(t =~= Seq::<Card>::empty().push(t[0]).push(t[1]));
    assert(s.to_multiset() =~= Multiset::<Card>::empty().insert(s[0]).insert(s[1]));
    assert(t.to_multiset() =~= Multiset::<Card>::empty().insert(t[0]).insert(t[1]));
    assert(t.to_multiset().count(t[0]) > 0);
    assert(t.to_multiset().count(t[1]) > 0);
    assert(s.to_multiset().count(s[0]) > 0);
    assert(s.to_multiset().count(s[1]) > 0);
    if t[0] == s[0] {
        assert(t.to_multiset().remove(s[0]) =~= s.to_multiset().remove(s[0]));
        assert(t.to_multiset().remove(s[0]).count(t[1]) > 0);
        assert(t[1] == s[1]);
    } else {
        assert(t[0] == s[1]);
        assert(t.to_multiset().remove(s[1]) =~= s.to_multiset().remove(s[1]));
        assert(t.to_multiset().remove(s[1]).count(t[1]) > 0);
        assert(t[1] == s[0]);
    }
}

/// The first card of a canonical hand always wears Clubs, the first
/// canonical label: a necessary condition of lexicographic minimality.
pub proof fn lemma_canonicalize_first_card_clubs(h: Seq<Card>)
    requires
        well_formed_hand(h),
    ensures
        spec_canonicalize(h)[0].suit == Suit::Clubs,
{
    let sorted = seg_sort(h);
    lemma_seg_sort_properties(h);
    let order = hole_suit_order(sorted);
    let a0 = no_assignment().spec_set(order.0, Some(spec_suit_from_index(0)));
    let (a1, n1): (SuitMap<Option<Suit>>, int) = if a0.spec_get(order.1) is None {
        (a0.spec_set(order.1, Some(spec_suit_from_index(1))), 2int)
    } else {
        (a0, 1int)
    };
    assert(a1.spec_get(order.0) == Some(Suit::Clubs));
    lemma_assign_all_preserves(sorted, 2, a1, n1, order.0);
    let done = assign_all(sorted, 2, a1, n1);
    let p = fill_remaining(done.0, done.1);
    assert(p.spec_get(order.0) == Suit::Clubs);

    let s0 = sorted[0].suit;
    let s1 = sorted[1].suit;
    assert(order.0 == s0 || order.0 == s1);

    let x = apply_permutation(p, sorted);
    lemma_apply_segments(p, sorted);
    let pr = private_seg(x);
    assert(pr.len() == 2);
    assert(pr[0] == apply_card(p, sorted[0]));
    assert(pr[1] == apply_card(p, sorted[1]));
    lemma_two_element_sort(pr);
    let t = pr.sort_by(card_order());
    assert(spec_canonicalize(h) == seg_sort(x));
    assert(seg_sort(x)[0] == t[0]);
    assert(crate::cards::card_le(sorted[0], sorted[1])) by {
        assert(private_seg(sorted).len() == 2);
        assert(private_seg(sorted)[0] == sorted[0]);
        assert(private_seg(sorted)[1] == sorted[1]);
        assert(card_order()(private_seg(sorted)[0], private_seg(sorted)[1]));
    }
    let c0 = apply_card(p, sorted[0]);
    let c1 = apply_card(p, sorted[1]);
    if sorted[0].value == sorted[1].value {
        assert(c0.suit == Suit::Clubs || c1.suit == Suit::Clubs);
        assert(t[0].suit == Suit::Clubs);
    } else {
        assert(order.0 == s0);
        assert(c0.suit == Suit::Clubs);
        assert(t[0] == c0);
    }
}

/// Relabeling leaves the sequence of face values untouched, position by
/// position.
pub proof fn lemma_permute_preserves_values(p: SuitMap<Suit>, h: Seq<Card>)
    ensures
        hand_values(apply_permutation(p, h)) == hand_values(h),
{
    assert(hand_values(apply_permutation(p, h)) =~= hand_values(h));
}

/// How many cards of a hand wear the given suit.
pub open spec fn suit_count(h: Seq<Card>, s: Suit) -> int
    decreases h.len(),
{
    if h.len() == 0 {
        0
    } else {
        suit_count(h.drop_last(), s) + (if h.last().suit == s {
            1int
        } else {
            0int
        })
    }
}

/// A bijective relabeling maps each suit's card count to the count of that
/// suit's image.
pub proof fn lemma_permute_suit_counts(p: SuitMap<Suit>, h: Seq<Card>, s: Suit)
    requires
        is_suit_permutation(p),
    ensures
        suit_count(apply_permutation(p, h), p.spec_get(s)) == suit_count(h, s),
    decreases h.len(),
{
    if h.len() == 0 {
        assert(apply_permutation(p, h) =~= Seq::<Card>::empty());
    } else {
        lemma_permute_suit_counts(p, h.drop_last(), s);
        assert(apply_permutation(p, h).drop_last() =~= apply_permutation(p, h.drop_last()));
        assert(apply_permutation(p, h).last() == apply_card(p, h.last()));
        assert((h.last().suit == s) <==> (p.spec_get(h.last().suit) == p.spec_get(s)));
    }
}

/// The relabeling that applies `q` first and then `p`.
pub open spec fn compose_permutations(p: SuitMap<Suit>, q: SuitMap<Suit>) -> SuitMap<Suit> {
    SuitMap {
        clubs: p.spec_get(q.clubs),
        diamonds: p.spec_get(q.diamonds),
        hearts: p.spec_get(q.hearts),
        spades: p.spec_get(q.spades),
    }
}

/// `p` composed with itself `k` times; zero compositions is the identity.
pub open spec fn permutation_power(p: SuitMap<Suit>, k: nat) -> SuitMap<Suit>
    decreases k,
{
    if k == 0 {
        identity_permutation()
    } else {
        compose_permutations(p, permutation_power(p, (k - 1) as nat))
    }
}

/// A hand after `k` applications of the same relabeling.
pub open spec fn apply_permutation_n(p: SuitMap<Suit>, k: nat, h: Seq<Card>) -> Seq<Card>
    decreases k,
{
    if k == 0 {
        h
    } else {
        apply_permutation(p, apply_permutation_n(p, (k - 1) as nat, h))
    }
}

/// The identity relabeling changes nothing.
pub proof fn lemma_apply_identity(h: Seq<Card>)
    ensures
        apply_permutation(identity_permutation(), h) == h,
{
    assert(apply_permutation(identity_permutation(), h) =~= h);
}

/// Applying `q` and then `p` is applying their composition.
pub proof fn lemma_apply_compose(p: SuitMap<Suit>, q: SuitMap<Suit>, h: Seq<Card>)
    ensures
        apply_permutation(p, apply_permutation(q, h)) == apply_permutation(
            compose_permutations(p, q),
            h,
        ),
{
    assert(apply_permutation(p, apply_permutation(q, h)) =~= apply_permutation(
        compose_permutations(p, q),
        h,
    ));
}

/// Iterated application is application of the iterated composition.
pub proof fn lemma_apply_power(p: SuitMap<Suit>, k: nat, h: Seq<Card>)
    ensures
        apply_permutation_n(p, k, h) == apply_permutation(permutation_power(p, k), h),
    decreases k,
{
    if k == 0 {
        lemma_apply_identity(h);
    } else {
        lemma_apply_power(p, (k - 1) as nat, h);
        lemma_apply_compose(p, permutation_power(p, (k - 1) as nat), h);
    }
}

/// Every suit bijection has an inverse; this proof hands it back.
pub proof fn lemma_permutation_inverse(p: SuitMap<Suit>) -> (q: SuitMap<Suit>)
    requires
        is_suit_permutation(p),
    ensures
        is_suit_permutation(q),
        compose_permutations(q, p) == identity_permutation(),
{
    let q = identity_permutation().spec_set(p.clubs, Suit::Clubs).spec_set(
        p.diamonds,
        Suit::Diamonds,
    ).spec_set(p.hearts, Suit::Hearts).spec_set(p.spades, Suit::Spades);
    assert(is_suit_permutation(q));
    assert(compose_permutations(q, p) == identity_permutation());
    q
}

/// Applying a bijection and then its inverse leaves the hand untouched.
pub proof fn lemma_apply_then_inverse(p: SuitMap<Suit>, h: Seq<Card>) -> (q: SuitMap<Suit>)
    requires
        is_suit_permutation(p),
    ensures
        is_suit_permutation(q),
        apply_permutation(q, apply_permutation(p, h)) == h,
{
    let q = lemma_permutation_inverse(p);
    lemma_apply_compose(q, p, h);
    lemma_apply_identity(h);
    q
}

/// Every bijection of the four suits returns to the identity within four
/// compositions: each element of the suit permutation group has order 1, 2,
/// 3 or 4.
pub proof fn lemma_permutation_order(p: SuitMap<Suit>)
    requires
        is_suit_permutation(p),
    ensures
        exists|k: nat| 1 <= k <= 4 && permutation_power(p, k) == identity_permutation(),
{
    let q1 = compose_permutations(p, identity_permutation());
    let q2 = compose_permutations(p, q1);
    let q3 = compose_permutations(p, q2);
    let q4 = compose_permutations(p, q3);
    assert(permutation_power(p, 0) == identity_permutation());
    assert(permutation_power(p, 1) == q1);
    assert(permutation_power(p, 2) == q2);
    assert(permutation_power(p, 3) == q3);
    assert(permutation_power(p, 4) == q4);
    assert(q1 == identity_permutation() || q2 == identity_permutation() || q3
        == identity_permutation() || q4 == identity_permutation());
    if q1 == identity_permutation() {
        assert(1 <= 1nat <= 4 && permutation_power(p, 1nat) == identity_permutation());
    } else if q2 == identity_permutation() {
        assert(1 <= 2nat <= 4 && permutation_power(p, 2nat) == identity_permutation());
    } else if q3 == identity_permutation() {
        assert(1 <= 3nat <= 4 && permutation_power(p, 3nat) == identity_permutation());
    } else {
        assert(1 <= 4nat <= 4 && permutation_power(p, 4nat) == identity_permutation());
    }
}

/// Strict card order: less than, and not equal.
pub open spec fn card_lt(a: Card, b: Card) -> bool {
    card_le(a, b) && a != b
}

/// Lexicographic order on hands: equal, or strictly smaller at the first
/// position where the two differ.
pub open spec fn hand_lex_le(a: Seq<Card>, b: Seq<Card>) -> bool {
    a == b || (exists|i: int|
        #![trigger a[i], b[i]]
        0 <= i < a.len() && i < b.len() && (forall|j: int| 0 <= j < i ==> a[j] == b[j]) && card_lt(
            a[i],
            b[i],
        ))
}

/// No two private cards and no two shared cards share a face value. On such
/// hands no suit ambiguity ever arises.
pub open spec fn rank_twin_free(h: Seq<Card>) -> bool {
    hand_values(private_seg(h)).no_duplicates() && hand_values(shared_seg(h)).no_duplicates()
}

/// The first position at which two equal-length, unequal sequences differ.
proof fn lemma_first_difference(a: Seq<Card>, b: Seq<Card>) -> (i: int)
    requires
        a.len() == b.len(),
        a != b,
    ensures
        0 <= i < a.len(),
        a[i] != b[i],
        forall|j: int| 0 <= j < i ==> a[j] == b[j],
    decreases a.len(),
{
    if a.len() == 0 {
        assert(a =~= b);
        0
    } else if a[0] != b[0] {
        0
    } else {
        if a.drop_first() == b.drop_first() {
            assert forall|j: int| 0 <= j < a.len() implies a[j] == b[j] by {
                if j > 0 {
                    assert(a.drop_first()[j - 1] == b.drop_first()[j - 1]);
                }
            }
            assert(a =~= b);
        }
        let k = lemma_first_difference(a.drop_first(), b.drop_first());
        assert(a[k + 1] == a.drop_first()[k]);
        assert(b[k + 1] == b.drop_first()[k]);
        assert forall|j: int| 0 <= j < k + 1 implies a[j] == b[j] by {
            if j > 0 {
                assert(a.drop_first()[j - 1] == b.drop_first()[j - 1]);
            }
        }
        k + 1
    }
}

/// Distinct face values survive any reordering of the cards.
proof fn lemma_twin_free_transfer(a: Seq<Card>, b: Seq<Card>)
    requires
        a.to_multiset() == b.to_multiset(),
        hand_values(a).no_duplicates(),
    ensures
        hand_values(b).no_duplicates(),
{
    let fv = |c: Card| c.value;
    lemma_map_values_multiset(a, b, fv);
    assert(a.map_values(fv) =~= hand_values(a));
    assert(b.map_values(fv) =~= hand_values(b));
    hand_values(a).lemma_multiset_has_no_duplicates();
    hand_values(b).lemma_multiset_has_no_duplicates_conv();
}

/// Relabeling keeps a segment of pairwise distinct values sorted: the order
/// was decided by values alone.
proof fn lemma_relabel_sorted(p: SuitMap<Suit>, s: Seq<Card>)
    requires
        vstd::relations::sorted_by(s, card_order()),
        hand_values(s).no_duplicates(),
    ensures
        vstd::relations::sorted_by(apply_permutation(p, s), card_order()),
{
    let t = apply_permutation(p, s);
    assert forall|i: int, j: int| 0 <= i < j < t.len() implies card_order()(t[i], t[j]) by {
        assert(card_order()(s[i], s[j]));
        assert(hand_values(s)[i] != hand_values(s)[j]);
        assert(t[i].value == s[i].value && t[j].value == s[j].value);
    }
}

/// A segment-sorted hand with pairwise distinct values per segment stays
/// segment-sorted under any relabeling, so re-sorting it changes nothing.
proof fn lemma_relabel_fixpoint(p: SuitMap<Suit>, x: Seq<Card>)
    requires
        x.len() >= 2,
        seg_sorted(x),
        rank_twin_free(x),
    ensures
        seg_sort(apply_permutation(p, x)) == apply_permutation(p, x),
{
    lemma_apply_segments(p, x);
    lemma_relabel_sorted(p, private_seg(x));
    lemma_relabel_sorted(p, shared_seg(x));
    lemma_seg_sort_fixpoint(apply_permutation(p, x));
}

/// A consistent assignment of `n` labels uses every label below `n`: this
/// hands back the suit that carries a given one.
proof fn lemma_labels_cover(a: SuitMap<Option<Suit>>, n: int, t: Suit) -> (s: Suit)
    requires
        assignment_ok(a, n),
        suit_index(t) < n,
    ensures
        a.spec_get(s) == Some(t),
{
    if a.clubs == Some(t) {
        Suit::Clubs
    } else if a.diamonds == Some(t) {
        Suit::Diamonds
    } else if a.hearts == Some(t) {
        Suit::Hearts
    } else {
        assert(a.spades == Some(t));
        Suit::Spades
    }
}

/// Whether some card before position `i` of the hand wears suit `s`.
pub open spec fn suit_seen_before(h: Seq<Card>, i: int, s: Suit) -> bool {
    exists|j: int| 0 <= j < i && h[j].suit == s
}

/// On a hand whose shared values are pairwise distinct, walking the shared
/// segment from `i` up to `k` reaches a state that labels exactly the suits
/// seen before `k`; this proof hands that state back.
proof fn lemma_assign_all_state_at(
    cards: Seq<Card>,
    i: int,
    a: SuitMap<Option<Suit>>,
    n: int,
    k: int,
) -> (state: (SuitMap<Option<Suit>>, int))
    requires
        2 <= i <= k <= cards.len(),
        forall|x: int, y: int| 2 <= x < y < cards.len() ==> cards[x].value != cards[y].value,
        assignment_ok(a, n),
        forall|s: Suit| (a.spec_get(s) is Some) <==> suit_seen_before(cards, i, s),
    ensures
        assign_all(cards, i, a, n) == assign_all(cards, k, state.0, state.1),
        assignment_ok(state.0, state.1),
        forall|s: Suit| (state.0.spec_get(s) is Some) <==> suit_seen_before(cards, k, s),
    decreases k - i,
{
    if i == k {
        (a, n)
    } else {
        let c = cards[i];
        if a.spec_get(c.suit) is Some {
            assert(assign_card(cards, i, a, n) == (a, n));
            assert forall|s: Suit| (a.spec_get(s) is Some) <==> suit_seen_before(
                cards,
                i + 1,
                s,
            ) by {
                if a.spec_get(s) is Some {
                    assert(suit_seen_before(cards, i, s));
                    let j = choose|j: int| 0 <= j < i && cards[j].suit == s;
                    assert(0 <= j < i + 1 && cards[j].suit == s);
                    assert(suit_seen_before(cards, i + 1, s));
                }
                if suit_seen_before(cards, i + 1, s) {
                    let j = choose|j: int| 0 <= j < i + 1 && cards[j].suit == s;
                    if j < i {
                        assert(suit_seen_before(cards, i, s));
                    } else {
                        assert(s == c.suit);
                    }
                    assert(a.spec_get(s) is Some);
                }
            }
            lemma_assign_all_state_at(cards, i + 1, a, n, k)
        } else {
            assert(crate::spec_get_next_suit(cards, i, a) == c.suit);
            let a2 = a.spec_set(c.suit, Some(spec_suit_from_index(n)));
            assert(0 <= assigned_count(a) < 4);
            assert(assign_card(cards, i, a, n) == assign_card(cards, i, a2, n + 1));
            assert(a2.spec_get(cards[i].suit) is Some);
            assert(assign_card(cards, i, a2, n + 1) == (a2, n + 1));
            assert(assignment_ok(a2, n + 1));
            assert forall|s: Suit| (a2.spec_get(s) is Some) <==> suit_seen_before(
                cards,
                i + 1,
                s,
            ) by {
                if a2.spec_get(s) is Some {
                    if s == c.suit {
                        assert(0 <= i < i + 1 && cards[i].suit == s);
                        assert(suit_seen_before(cards, i + 1, s));
                    } else {
                        assert(a.spec_get(s) is Some);
                        assert(suit_seen_before(cards, i, s));
                        let j = choose|j: int| 0 <= j < i && cards[j].suit == s;
                        assert(0 <= j < i + 1 && cards[j].suit == s);
                        assert(suit_seen_before(cards, i + 1, s));
                    }
                }
                if suit_seen_before(cards, i + 1, s) {
                    let j = choose|j: int| 0 <= j < i + 1 && cards[j].suit == s;
                    if j < i {
                        assert(suit_seen_before(cards, i, s));
                        assert(a.spec_get(s) is Some);
                    } else {
                        assert(s == c.suit);
                    }
                    assert(a2.spec_get(s) is Some);
                }
            }
            lemma_assign_all_state_at(cards, i + 1, a2, n + 1, k)
        }
    }
}

/// The suit relabeling the canonicalization phases build for a hand that is
/// already segment-wise sorted.
pub open spec fn canonical_relabeling(sorted: Seq<Card>) -> SuitMap<Suit> {
    let order = hole_suit_order(sorted);
    let a0 = no_assignment().spec_set(order.0, Some(spec_suit_from_index(0)));
    let (a1, n1): (SuitMap<Option<Suit>>, int) = if a0.spec_get(order.1) is None {
        (a0.spec_set(order.1, Some(spec_suit_from_index(1))), 2int)
    } else {
        (a0, 1int)
    };
    let done = assign_all(sorted, 2, a1, n1);
    fill_remaining(done.0, done.1)
}

/// On a segment-wise sorted hand with pairwise distinct values per segment,
/// the relabeling the phases build is lexicographically minimal: labels go
/// to suits in order of first appearance, and any other bijection pays at
/// the first position where it deviates.
#[verifier::rlimit(100)]
proof fn lemma_canonical_relabeling_minimal(sorted: Seq<Card>, pi: SuitMap<Suit>)
    requires
        well_formed_hand(sorted),
        seg_sorted(sorted),
        rank_twin_free(sorted),
        is_suit_permutation(pi),
    ensures
        hand_lex_le(
            apply_permutation(canonical_relabeling(sorted), sorted),
            apply_permutation(pi, sorted),
        ),
{
    let p = canonical_relabeling(sorted);
    let order = hole_suit_order(sorted);
    let s0 = sorted[0].suit;
    let s1 = sorted[1].suit;
    assert(hand_values(private_seg(sorted))[0] == sorted[0].value);
    assert(hand_values(private_seg(sorted))[1] == sorted[1].value);
    assert(sorted[0].value != sorted[1].value);
    assert(order == (s0, s1));
    let a0 = no_assignment().spec_set(order.0, Some(spec_suit_from_index(0)));
    let (a1, n1): (SuitMap<Option<Suit>>, int) = if a0.spec_get(order.1) is None {
        (a0.spec_set(order.1, Some(spec_suit_from_index(1))), 2int)
    } else {
        (a0, 1int)
    };
    let done = assign_all(sorted, 2, a1, n1);
    assert(p == fill_remaining(done.0, done.1));
    assert(assignment_ok(a1, n1));
    lemma_assign_all_preserves(sorted, 2, a1, n1, s0);
    assert(p.spec_get(s0) == Suit::Clubs);
    if s1 != s0 {
        lemma_assign_all_preserves(sorted, 2, a1, n1, s1);
        assert(p.spec_get(s1) == Suit::Diamonds);
    }
    assert forall|x: int, y: int| 2 <= x < y < sorted.len() implies sorted[x].value
        != sorted[y].value by {
        assert(hand_values(shared_seg(sorted))[x - 2] == sorted[x].value);
        assert(hand_values(shared_seg(sorted))[y - 2] == sorted[y].value);
    }
    let a = apply_permutation(p, sorted);
    let b = apply_permutation(pi, sorted);
    if a != b {
        let i = lemma_first_difference(a, b);
        assert(a[i] == apply_card(p, sorted[i]));
        assert(b[i] == apply_card(pi, sorted[i]));
        let si = sorted[i].suit;
        assert(p.spec_get(si) != pi.spec_get(si));
        assert forall|j: int| 0 <= j < i implies p.spec_get(sorted[j].suit) == pi.spec_get(
            sorted[j].suit,
        ) by {
            assert(a[j] == apply_card(p, sorted[j]));
            assert(b[j] == apply_card(pi, sorted[j]));
        }
        if i == 0 {
            assert(suit_index(pi.spec_get(s0)) > 0);
            assert(card_lt(a[i], b[i]));
        } else if i == 1 {
            assert(pi.spec_get(s0) == Suit::Clubs);
            if s1 == s0 {
                assert(false);
            }
            assert(pi.spec_get(s1) != Suit::Clubs);
            assert(pi.spec_get(s1) != Suit::Diamonds);
            assert(suit_index(pi.spec_get(s1)) >= 2);
            assert(card_lt(a[i], b[i]));
        } else {
            assert forall|s: Suit| (a1.spec_get(s) is Some) <==> suit_seen_before(
                sorted,
                2,
                s,
            ) by {
                if a1.spec_get(s) is Some {
                    if s == s0 {
                        assert(0 <= 0 < 2 && sorted[0].suit == s);
                    } else {
                        assert(s == s1);
                        assert(0 <= 1 < 2 && sorted[1].suit == s);
                    }
                    assert(suit_seen_before(sorted, 2, s));
                }
                if suit_seen_before(sorted, 2, s) {
                    let j = choose|j: int| 0 <= j < 2 && sorted[j].suit == s;
                    assert(a1.spec_get(s) is Some);
                }
            }
            let state = lemma_assign_all_state_at(sorted, 2, a1, n1, i);
            let ak = state.0;
            let nk = state.1;
            if suit_seen_before(sorted, i, si) {
                let j = choose|j: int| 0 <= j < i && sorted[j].suit == si;
                assert(p.spec_get(si) == pi.spec_get(si));
                assert(false);
            }
            assert(ak.spec_get(si) is None);
            assert(crate::spec_get_next_suit(sorted, i, ak) == si);
            let a2 = ak.spec_set(si, Some(spec_suit_from_index(nk)));
            assert(0 <= assigned_count(ak) < 4);
            assert(a2.spec_get(sorted[i].suit) is Some);
            assert(assign_card(sorted, i, a2, nk + 1) == (a2, nk + 1));
            assert(assign_card(sorted, i, ak, nk) == (a2, nk + 1));
            assert(assign_all(sorted, i, ak, nk) == assign_all(sorted, i + 1, a2, nk + 1));
            lemma_assign_all_preserves(sorted, i + 1, a2, nk + 1, si);
            assert(done == assign_all(sorted, i, ak, nk));
            assert(done.0.spec_get(si) == Some(spec_suit_from_index(nk)));
            assert(p.spec_get(si) == spec_suit_from_index(nk));
            assert(0 <= nk < 4);
            assert(suit_index(p.spec_get(si)) == nk);
            if suit_index(pi.spec_get(si)) < nk {
                let sp = lemma_labels_cover(ak, nk, pi.spec_get(si));
                assert(suit_seen_before(sorted, i, sp));
                let j = choose|j: int| 0 <= j < i && sorted[j].suit == sp;
                lemma_assign_all_preserves(sorted, i, ak, nk, sp);
                assert(done.0.spec_get(sp) == Some(pi.spec_get(si)));
                assert(p.spec_get(sp) == pi.spec_get(si));
                assert(pi.spec_get(sp) == pi.spec_get(si));
                assert(sp == si);
                assert(false);
            }
            assert(suit_index(pi.spec_get(si)) > nk);
            assert(card_lt(a[i], b[i]));
        }
        assert(hand_lex_le(a, b));
    }
}

/// On a twin-free sorted hand, walking the relabeled hand re-assigns every
/// suit to itself: the two walks stay in lockstep, the relabeled one holding
/// the identity on every label handed out so far.
#[verifier::rlimit(100)]
proof fn lemma_identity_trace(
    sorted: Seq<Card>,
    p: SuitMap<Suit>,
    i: int,
    a: SuitMap<Option<Suit>>,
    n: int,
    a_c: SuitMap<Option<Suit>>,
)
    requires
        2 <= i <= sorted.len(),
        forall|x: int, y: int| 2 <= x < y < sorted.len() ==> sorted[x].value != sorted[y].value,
        assignment_ok(a, n),
        forall|s: Suit| (a.spec_get(s) is Some) <==> suit_seen_before(sorted, i, s),
        p == fill_remaining(
            assign_all(sorted, i, a, n).0,
            assign_all(sorted, i, a, n).1,
        ),
        forall|t: Suit|
            a_c.spec_get(t) == (if suit_index(t) < n {
                Some(t)
            } else {
                None::<Suit>
            }),
    ensures
        ({
            let fin = assign_all(apply_permutation(p, sorted), i, a_c, n);
            &&& fin.1 == assign_all(sorted, i, a, n).1
            &&& forall|t: Suit|
                fin.0.spec_get(t) == (if suit_index(t) < fin.1 {
                    Some(t)
                } else {
                    None::<Suit>
                })
        }),
    decreases sorted.len() - i,
{
    let canon = apply_permutation(p, sorted);
    assert(0 <= n <= 4);
    if i == sorted.len() {
        assert(assign_all(canon, i, a_c, n) == (a_c, n));
        assert(assign_all(sorted, i, a, n) == (a, n));
    } else {
        let c = sorted[i];
        assert(canon[i] == apply_card(p, c));
        if a.spec_get(c.suit) is Some {
            // both walks skip this card
            assert(assign_card(sorted, i, a, n) == (a, n));
            let t = a.spec_get(c.suit)->0;
            assert(suit_index(t) < n);
            lemma_assign_all_preserves(sorted, i, a, n, c.suit);
            assert(assign_all(sorted, i, a, n).0.spec_get(c.suit) == Some(t));
            assert(p.spec_get(c.suit) == t);
            assert(a_c.spec_get(t) is Some);
            assert(assign_card(canon, i, a_c, n) == (a_c, n));
            assert(assign_all(canon, i, a_c, n) == assign_all(canon, i + 1, a_c, n));
            assert forall|s: Suit| (a.spec_get(s) is Some) <==> suit_seen_before(
                sorted,
                i + 1,
                s,
            ) by {
                if a.spec_get(s) is Some {
                    assert(suit_seen_before(sorted, i, s));
                    let j = choose|j: int| 0 <= j < i && sorted[j].suit == s;
                    assert(0 <= j < i + 1 && sorted[j].suit == s);
                    assert(suit_seen_before(sorted, i + 1, s));
                }
                if suit_seen_before(sorted, i + 1, s) {
                    let j = choose|j: int| 0 <= j < i + 1 && sorted[j].suit == s;
                    if j < i {
                        assert(suit_seen_before(sorted, i, s));
                    } else {
                        assert(s == c.suit);
                    }
                    assert(a.spec_get(s) is Some);
                }
            }
            lemma_identity_trace(sorted, p, i + 1, a, n, a_c);
        } else {
            // both walks label a fresh suit; the relabeled walk labels
            // `spec_suit_from_index(n)` with itself
            assert(crate::spec_get_next_suit(sorted, i, a) == c.suit);
            let a2 = a.spec_set(c.suit, Some(spec_suit_from_index(n)));
            assert(0 <= assigned_count(a) < 4);
            assert(a2.spec_get(sorted[i].suit) is Some);
            assert(assign_card(sorted, i, a2, n + 1) == (a2, n + 1));
            assert(assign_card(sorted, i, a, n) == (a2, n + 1));
            assert(assign_all(sorted, i, a, n) == assign_all(sorted, i + 1, a2, n + 1));
            lemma_assign_all_preserves(sorted, i + 1, a2, n + 1, c.suit);
            assert(assign_all(sorted, i, a, n).0.spec_get(c.suit) == Some(
                spec_suit_from_index(n),
            ));
            assert(p.spec_get(c.suit) == spec_suit_from_index(n));
            assert(canon[i].suit == spec_suit_from_index(n));
            assert(suit_index(canon[i].suit) == n);
            assert(a_c.spec_get(canon[i].suit) is None);
            // the relabeled walk's run is twin-free too
            assert forall|x: int, y: int| 2 <= x < y < canon.len() implies canon[x].value
                != canon[y].value by {
                assert(canon[x] == apply_card(p, sorted[x]));
                assert(canon[y] == apply_card(p, sorted[y]));
            }
            assert(crate::spec_get_next_suit(canon, i, a_c) == canon[i].suit);
            let a_c2 = a_c.spec_set(canon[i].suit, Some(spec_suit_from_index(n)));
            assert(0 <= assigned_count(a_c) < 4);
            assert(a_c2.spec_get(canon[i].suit) is Some);
            assert(assign_card(canon, i, a_c2, n + 1) == (a_c2, n + 1));
            assert(assign_card(canon, i, a_c, n) == (a_c2, n + 1));
            assert(assign_all(canon, i, a_c, n) == assign_all(canon, i + 1, a_c2, n + 1));
            assert forall|t: Suit|
                a_c2.spec_get(t) == (if suit_index(t) < n + 1 {
                    Some(t)
                } else {
                    None::<Suit>
                }) by {
                if t == canon[i].suit {
                } else {
                    assert(a_c2.spec_get(t) == a_c.spec_get(t));
                }
            }
            assert forall|s: Suit| (a2.spec_get(s) is Some) <==> suit_seen_before(
                sorted,
                i + 1,
                s,
            ) by {
                if a2.spec_get(s) is Some {
                    if s == c.suit {
                        assert(0 <= i < i + 1 && sorted[i].suit == s);
                        assert(suit_seen_before(sorted, i + 1, s));
                    } else {
                        assert(a.spec_get(s) is Some);
                        assert(suit_seen_before(sorted, i, s));
                        let j = choose|j: int| 0 <= j < i && sorted[j].suit == s;
                        assert(0 <= j < i + 1 && sorted[j].suit == s);
                        assert(suit_seen_before(sorted, i + 1, s));
                    }
                }
                if suit_seen_before(sorted, i + 1, s) {
                    let j = choose|j: int| 0 <= j < i + 1 && sorted[j].suit == s;
                    if j < i {
                        assert(suit_seen_before(sorted, i, s));
                        assert(a.spec_get(s) is Some);
                    } else {
                        assert(s == c.suit);
                    }
                    assert(a2.spec_get(s) is Some);
                }
            }
            assert(assignment_ok(a2, n + 1));
            lemma_identity_trace(sorted, p, i + 1, a2, n + 1, a_c2);
        }
    }
}

/// Idempotence, on hands that repeat no face value within a segment:
/// canonicalizing a canonical hand changes nothing, because the walk over
/// the canonical hand hands every suit its own label and the filled-in
/// relabeling is the identity.
#[verifier::rlimit(100)]
pub proof fn lemma_canonicalize_idempotent_twin_free(h: Seq<Card>)
    requires
        well_formed_hand(h),
        rank_twin_free(h),
    ensures
        spec_canonicalize(spec_canonicalize(h)) == spec_canonicalize(h),
{
    let sorted = seg_sort(h);
    lemma_seg_sort_properties(h);
    lemma_twin_free_transfer(private_seg(h), private_seg(sorted));
    lemma_twin_free_transfer(shared_seg(h), shared_seg(sorted));
    let order = hole_suit_order(sorted);
    let s0 = sorted[0].suit;
    let s1 = sorted[1].suit;
    assert(hand_values(private_seg(sorted))[0] == sorted[0].value);
    assert(hand_values(private_seg(sorted))[1] == sorted[1].value);
    assert(sorted[0].value != sorted[1].value);
    assert(order == (s0, s1));
    let a0 = no_assignment().spec_set(order.0, Some(spec_suit_from_index(0)));
    let (a1, n1): (SuitMap<Option<Suit>>, int) = if a0.spec_get(order.1) is None {
        (a0.spec_set(order.1, Some(spec_suit_from_index(1))), 2int)
    } else {
        (a0, 1int)
    };
    assert(assignment_ok(a1, n1));
    lemma_assign_all_ok(sorted, 2, a1, n1);
    let done = assign_all(sorted, 2, a1, n1);
    lemma_fill_remaining_bijective(done.0, done.1);
    let p = fill_remaining(done.0, done.1);
    lemma_relabel_fixpoint(p, sorted);
    let canon = apply_permutation(p, sorted);
    assert(spec_canonicalize(h) == canon);
    lemma_assign_all_preserves(sorted, 2, a1, n1, s0);
    assert(p.spec_get(s0) == Suit::Clubs);
    if s1 != s0 {
        lemma_assign_all_preserves(sorted, 2, a1, n1, s1);
        assert(p.spec_get(s1) == Suit::Diamonds);
    }
    assert forall|x: int, y: int| 2 <= x < y < sorted.len() implies sorted[x].value
        != sorted[y].value by {
        assert(hand_values(shared_seg(sorted))[x - 2] == sorted[x].value);
        assert(hand_values(shared_seg(sorted))[y - 2] == sorted[y].value);
    }

    // the relabeled hand is itself twin-free and segment-sorted
    lemma_apply_segments(p, sorted);
    assert(hand_values(private_seg(canon)) =~= hand_values(private_seg(sorted)));
    assert(hand_values(shared_seg(canon)) =~= hand_values(shared_seg(sorted)));
    lemma_relabel_sorted(p, private_seg(sorted));
    lemma_relabel_sorted(p, shared_seg(sorted));
    assert(seg_sorted(canon));
    lemma_seg_sort_fixpoint(canon);

    // the second walk's private setup is the identity on Clubs and Diamonds
    assert(canon[0] == apply_card(p, sorted[0]));
    assert(canon[1] == apply_card(p, sorted[1]));
    assert(canon[0].value != canon[1].value);
    let order2 = hole_suit_order(canon);
    assert(order2 == (canon[0].suit, canon[1].suit));
    let b0 = no_assignment().spec_set(order2.0, Some(spec_suit_from_index(0)));
    let (b1, m1): (SuitMap<Option<Suit>>, int) = if b0.spec_get(order2.1) is None {
        (b0.spec_set(order2.1, Some(spec_suit_from_index(1))), 2int)
    } else {
        (b0, 1int)
    };
    assert(canon[0].suit == Suit::Clubs);
    if s1 == s0 {
        assert(canon[1].suit == Suit::Clubs);
        assert(m1 == n1);
    } else {
        assert(canon[1].suit == Suit::Diamonds);
        assert(m1 == n1);
    }
    assert forall|t: Suit|
        b1.spec_get(t) == (if suit_index(t) < n1 {
            Some(t)
        } else {
            None::<Suit>
        }) by {}
    assert forall|s: Suit| (a1.spec_get(s) is Some) <==> suit_seen_before(sorted, 2, s) by {
        if a1.spec_get(s) is Some {
            if s == s0 {
                assert(0 <= 0 < 2 && sorted[0].suit == s);
            } else {
                assert(s == s1);
                assert(0 <= 1 < 2 && sorted[1].suit == s);
            }
            assert(suit_seen_before(sorted, 2, s));
        }
        if suit_seen_before(sorted, 2, s) {
            let j = choose|j: int| 0 <= j < 2 && sorted[j].suit == s;
            assert(a1.spec_get(s) is Some);
        }
    }
    lemma_identity_trace(sorted, p, 2, a1, n1, b1);
    let fin = assign_all(canon, 2, b1, m1);
    assert(0 <= fin.1 <= 4) by {
        lemma_assign_all_ok(sorted, 2, a1, n1);
    }
    let p2 = fill_remaining(fin.0, fin.1);
    assert(fin.0.spec_get(Suit::Clubs) == (if suit_index(Suit::Clubs) < fin.1 {
        Some(Suit::Clubs)
    } else {
        None::<Suit>
    }));
    assert(fin.0.spec_get(Suit::Diamonds) == (if suit_index(Suit::Diamonds) < fin.1 {
        Some(Suit::Diamonds)
    } else {
        None::<Suit>
    }));
    assert(fin.0.spec_get(Suit::Hearts) == (if suit_index(Suit::Hearts) < fin.1 {
        Some(Suit::Hearts)
    } else {
        None::<Suit>
    }));
    assert(fin.0.spec_get(Suit::Spades) == (if suit_index(Suit::Spades) < fin.1 {
        Some(Suit::Spades)
    } else {
        None::<Suit>
    }));
    assert(p2 == identity_permutation());
    assert(spec_canonicalize(canon) == seg_sort(apply_permutation(p2, canon)));
    lemma_apply_identity(canon);
    assert(spec_canonicalize(canon) == canon);
}

/// Lexicographic minimality, on hands that repeat no face value within a
/// segment: the canonical form is less than or equal to the segment-wise
/// sort of every suit relabeling of itself, under the hand order that
/// compares cards left to right.
#[verifier::rlimit(100)]
pub proof fn lemma_canonicalize_minimal_twin_free(h: Seq<Card>, q: SuitMap<Suit>)
    requires
        well_formed_hand(h),
        rank_twin_free(h),
        is_suit_permutation(q),
    ensures
        hand_lex_le(spec_canonicalize(h), seg_sort(apply_permutation(q, spec_canonicalize(h)))),
{
    let sorted = seg_sort(h);
    lemma_seg_sort_properties(h);
    lemma_twin_free_transfer(private_seg(h), private_seg(sorted));
    lemma_twin_free_transfer(shared_seg(h), shared_seg(sorted));
    let order = hole_suit_order(sorted);
    let a0 = no_assignment().spec_set(order.0, Some(spec_suit_from_index(0)));
    let (a1, n1): (SuitMap<Option<Suit>>, int) = if a0.spec_get(order.1) is None {
        (a0.spec_set(order.1, Some(spec_suit_from_index(1))), 2int)
    } else {
        (a0, 1int)
    };
    assert(assignment_ok(a1, n1));
    lemma_assign_all_ok(sorted, 2, a1, n1);
    let done = assign_all(sorted, 2, a1, n1);
    lemma_fill_remaining_bijective(done.0, done.1);
    let p = canonical_relabeling(sorted);
    assert(p == fill_remaining(done.0, done.1));
    assert(is_suit_permutation(p));
    assert(spec_canonicalize(h) == seg_sort(apply_permutation(p, sorted)));
    lemma_relabel_fixpoint(p, sorted);
    let canon = apply_permutation(p, sorted);
    assert(spec_canonicalize(h) == canon);
    let qp = compose_permutations(q, p);
    assert(is_suit_permutation(qp));
    lemma_apply_compose(q, p, sorted);
    assert(apply_permutation(q, canon) == apply_permutation(qp, sorted));
    lemma_relabel_fixpoint(qp, sorted);
    lemma_canonical_relabeling_minimal(sorted, qp);
}

/// Repeatedly relabeling a hand by one bijection returns the original hand
/// within at most four applications.
pub proof fn lemma_permutation_cycles(p: SuitMap<Suit>, h: Seq<Card>)
    requires
        is_suit_permutation(p),
    ensures
        exists|k: nat| 1 <= k <= 4 && apply_permutation_n(p, k, h) == h,
{
    lemma_permutation_order(p);
    let k = choose|k: nat|
        1 <= k <= 4 && permutation_power(p, k) == identity_permutation();
    lemma_apply_power(p, k, h);
    lemma_apply_identity(h);
    assert(1 <= k <= 4 && apply_permutation_n(p, k, h) == h);
}

} // verus!
