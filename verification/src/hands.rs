//! Enumeration of every player hand reachable from a shoe.
//!
//! A hand is reachable when it is a nonempty submultiset of the shoe whose
//! value has not busted. The enumerator grows hands one card at a time in
//! nondecreasing rank order, so each multiset is visited exactly once.

use vstd::prelude::*;

use crate::cards::{busted, card_of, hv_add_model, lemma_best_value_add, Card, HandValue, HvModel};
use crate::deck::{
    counts_value, hard_total, is_blackjack_spec, lemma_busted_iff, lemma_elem_le_sum,
    lemma_hard_strict_lt, lemma_hard_zero, lemma_sum_nonneg, lemma_sum_pointwise_le,
    lemma_sum_update, sum_counts, Deck, Hand,
};

verus! {

/// `h` extends `cur` by one or more cards drawn from `rem`, all of slot
/// `start` or later, without busting.
pub open spec fn valid_extension(
    h: Seq<usize>,
    cur: Seq<usize>,
    rem: Seq<usize>,
    start: int,
) -> bool {
    &&& h.len() == 10
    &&& forall|i: int| 0 <= i < 10 ==> cur[i] <= #[trigger] h[i] && h[i] - cur[i] <= rem[i]
    &&& forall|i: int| 0 <= i < start ==> h[i] == cur[i]
    &&& exists|i: int| 0 <= i < 10 && h[i] > cur[i]
    &&& !busted(counts_value(h))
}

/// The first slot at or after `k` where `h` holds more than `cur`; 10 when
/// there is none.
pub open spec fn first_growth(h: Seq<usize>, cur: Seq<usize>, k: int) -> int
    decreases 10 - k,
{
    if !(0 <= k < 10) {
        10
    } else if h[k] > cur[k] {
        k
    } else {
        first_growth(h, cur, k + 1)
    }
}

proof fn lemma_first_growth_props(h: Seq<usize>, cur: Seq<usize>, k: int)
    requires
        0 <= k <= 10,
    ensures
        k <= first_growth(h, cur, k) <= 10,
        forall|i: int| k <= i < first_growth(h, cur, k) ==> #[trigger] h[i] <= cur[i],
        first_growth(h, cur, k) < 10 ==> h[first_growth(h, cur, k)] > cur[first_growth(h, cur, k)],
    decreases 10 - k,
{
    if 0 <= k < 10 && !(h[k] > cur[k]) {
        lemma_first_growth_props(h, cur, k + 1);
    }
}

proof fn lemma_first_growth_at(h: Seq<usize>, cur: Seq<usize>, r: int)
    requires
        0 <= r < 10,
        forall|i: int| 0 <= i < r ==> #[trigger] h[i] <= cur[i],
        h[r] > cur[r],
    ensures
        first_growth(h, cur, 0) == r,
{
    lemma_first_growth_props(h, cur, 0);
}

/// Pushes onto `all` every extension of `current` by cards of slot `start`
/// or later drawn from `remaining`, skipping busted hands and not growing
/// a hand past a hard 21; each such extension exactly once.
#[verifier::loop_isolation(false)]
fn generate_hand(all: &mut Vec<Hand>, current: &Deck, remaining: &Deck, start: usize)
    requires
        current.wf(),
        remaining.wf(),
        start <= 10,
        !busted(current.value()),
    ensures
        final(all)@.len() >= old(all)@.len(),
        forall|j: int| 0 <= j < old(all)@.len() ==> final(all)@[j] == old(all)@[j],
        forall|j: int|
            old(all)@.len() <= j < final(all)@.len() ==> (#[trigger] final(all)@[j]).wf()
                && valid_extension(final(all)@[j]@, current@, remaining@, start as int),
        forall|h: Seq<usize>|
            valid_extension(h, current@, remaining@, start as int) ==> exists|j: int|
                old(all)@.len() <= j < final(all)@.len() && final(all)@[j]@ == h,
        forall|j1: int, j2: int|
            old(all)@.len() <= j1 < j2 < final(all)@.len()
                ==> final(all)@[j1]@ != final(all)@[j2]@,
    decreases sum_counts(remaining@),
{
    let ghost pre = all@;
    let ghost cur = current@;
    let ghost rem = remaining@;
    proof {
        assert forall|h: Seq<usize>|
            valid_extension(h, cur, rem, start as int) implies first_growth(h, cur, 0)
            >= start by {
            lemma_first_growth_props(h, cur, 0);
        }
    }
    let mut r: usize = start;
    while r < 10
        invariant
            start <= r <= 10,
            current.wf(),
            remaining.wf(),
            !busted(current.value()),
            cur == current@,
            rem == remaining@,
            all@.len() >= pre.len(),
            forall|j: int| 0 <= j < pre.len() ==> all@[j] == pre[j],
            forall|j: int|
                pre.len() <= j < all@.len() ==> (#[trigger] all@[j]).wf() && valid_extension(
                    all@[j]@,
                    cur,
                    rem,
                    start as int,
                ) && first_growth(all@[j]@, cur, 0) < r,
            forall|h: Seq<usize>|
                valid_extension(h, cur, rem, start as int) && first_growth(h, cur, 0) < r
                    ==> exists|j: int| pre.len() <= j < all@.len() && all@[j]@ == h,
            forall|j1: int, j2: int|
                pre.len() <= j1 < j2 < all@.len() ==> all@[j1]@ != all@[j2]@,
        decreases 10 - r,
    {
        let ghost all0 = all@;
        let c = card_of(r);
        if remaining.get_count_of_card(c) > 0 {
            proof {
                lemma_busted_iff(cur);
                lemma_sum_nonneg(cur);
                lemma_elem_le_sum(cur, r as int);
                assert(cur[r as int] <= 21);
            }
            let child = current.plus_card(c);
            let ghost ch = child@;
            proof {
                assert(ch[r as int] == cur[r as int] + 1);
                crate::deck::lemma_sum_update(cur, r as int, (cur[r as int] + 1) as usize);
                assert(hard_total(ch) == hard_total(cur) + (r + 1) * 1);
                lemma_busted_iff(ch);
            }
            let v = child.get_hand_value();
            let busted_now = match v {
                HandValue::Hard(x) => x > 21,
                HandValue::Soft(_) => false,
            };
            proof {
                assert(busted_now == busted(child.value()));
            }
            if busted_now {
                // Every hand that first grows at this slot contains the
                // busted child, so none of them is a valid extension.
                proof {
                    assert forall|h: Seq<usize>|
                        valid_extension(h, cur, rem, start as int) && first_growth(h, cur, 0)
                            == r implies false by {
                        lemma_first_growth_props(h, cur, 0);
                        assert(forall|i: int| 0 <= i < 10 ==> ch[i] <= #[trigger] h[i]);
                        lemma_sum_pointwise_le(ch, h);
                        lemma_busted_iff(h);
                    }
                    assert forall|h: Seq<usize>|
                        valid_extension(h, cur, rem, start as int) && first_growth(h, cur, 0) < r
                            + 1 implies exists|j: int|
                        pre.len() <= j < all@.len() && all@[j]@ == h by {
                        let j = choose|j: int| pre.len() <= j < all0.len() && all0[j]@ == h;
                        assert(all@[j]@ == h);
                    }
                }
            } else {
                all.push(child);
                proof {
                    assert(forall|i: int| 0 <= i < r ==> #[trigger] ch[i] == cur[i]);
                    lemma_first_growth_at(ch, cur, r as int);
                }
                let is21 = match v {
                    HandValue::Hard(x) => x == 21,
                    HandValue::Soft(_) => false,
                };
                if is21 {
                    // A hard 21 cannot grow: any strictly larger hand has a
                    // low-ace total past 21 and has busted.
                    proof {
                        assert(hard_total(ch) == 21);
                        assert forall|h: Seq<usize>|
                            valid_extension(h, cur, rem, start as int) && first_growth(h, cur, 0)
                                == r && h != ch implies false by {
                            lemma_first_growth_props(h, cur, 0);
                            assert(forall|i: int| 0 <= i < 10 ==> ch[i] <= #[trigger] h[i]);
                            if forall|i: int| 0 <= i < 10 ==> #[trigger] h[i] == ch[i] {
                                assert(h =~= ch);
                            } else {
                                let i0 = choose|i: int| 0 <= i < 10 && #[trigger] h[i] != ch[i];
                                lemma_hard_strict_lt(ch, h, i0);
                                lemma_busted_iff(h);
                            }
                        }
                        assert(all@[all0.len() as int]@ == ch);
                        assert forall|h: Seq<usize>|
                            valid_extension(h, cur, rem, start as int) && first_growth(h, cur, 0)
                                < r + 1 implies exists|j: int|
                            pre.len() <= j < all@.len() && all@[j]@ == h by {
                            if first_growth(h, cur, 0) < r {
                                let j = choose|j: int|
                                    pre.len() <= j < all0.len() && all0[j]@ == h;
                                assert(all@[j]@ == h);
                            } else {
                                assert(h == ch);
                                assert(all@[all0.len() as int]@ == h);
                            }
                        }
                    }
                } else {
                    let new_rem = match remaining.minus_card(c) {
                        Some(d) => d,
                        None => {
                            assert(false);
                            Deck::new()
                        },
                    };
                    let ghost rem2 = new_rem@;
                    let ghost all1 = all@;
                    proof {
                        lemma_sum_nonneg(rem2);
                        assert(sum_counts(rem2) < sum_counts(rem));
                    }
                    generate_hand(all, &child, &new_rem, r);
                    proof {
                        // Hands that first grow at this slot are the child
                        // itself and the valid extensions of the child.
                        assert forall|h: Seq<usize>|
                            valid_extension(h, ch, rem2, r as int) implies valid_extension(
                            h,
                            cur,
                            rem,
                            start as int,
                        ) && first_growth(h, cur, 0) == r && h != ch by {
                            assert forall|i: int|
                                0 <= i < 10 implies cur[i] <= #[trigger] h[i] && h[i] - cur[i]
                                <= rem[i] by {
                                assert(ch[i] <= h[i] && h[i] - ch[i] <= rem2[i]);
                            }
                            let i0 = choose|i: int| 0 <= i < 10 && h[i] > ch[i];
                            assert(h[i0] > cur[i0]);
                            lemma_first_growth_at(h, cur, r as int);
                        }
                        assert forall|h: Seq<usize>|
                            valid_extension(h, cur, rem, start as int) && first_growth(h, cur, 0)
                                == r && h != ch implies valid_extension(h, ch, rem2, r as int) by {
                            lemma_first_growth_props(h, cur, 0);
                            assert(forall|i: int| 0 <= i < 10 ==> ch[i] <= #[trigger] h[i]);
                            if forall|i: int| 0 <= i < 10 ==> #[trigger] h[i] == ch[i] {
                                assert(h =~= ch);
                            } else {
                                let i0 = choose|i: int| 0 <= i < 10 && #[trigger] h[i] != ch[i];
                                assert(h[i0] > ch[i0]);
                            }
                        }
                        assert(all@[all1.len() - 1]@ == ch);
                        assert forall|h: Seq<usize>|
                            valid_extension(h, cur, rem, start as int) && first_growth(h, cur, 0)
                                < r + 1 implies exists|j: int|
                            pre.len() <= j < all@.len() && all@[j]@ == h by {
                            if first_growth(h, cur, 0) < r {
                                let j = choose|j: int|
                                    pre.len() <= j < all0.len() && all0[j]@ == h;
                                assert(all@[j] == all1[j]);
                                assert(all@[j]@ == h);
                            } else if h == ch {
                                assert(all@[all1.len() - 1]@ == h);
                            } else {
                                let j = choose|j: int|
                                    all1.len() <= j < all@.len() && all@[j]@ == h;
                                assert(all@[j]@ == h);
                            }
                        }
                    }
                }
            }
        } else {
            // No card of this rank is left, so no hand first grows here.
            proof {
                assert forall|h: Seq<usize>|
                    valid_extension(h, cur, rem, start as int) && first_growth(h, cur, 0)
                        == r implies false by {
                    lemma_first_growth_props(h, cur, 0);
                }
            }
        }
        r += 1;
    }
    proof {
        assert forall|h: Seq<usize>|
            valid_extension(h, cur, rem, start as int) implies first_growth(h, cur, 0) < 10 by {
            lemma_first_growth_props(h, cur, 0);
            let i0 = choose|i: int| 0 <= i < 10 && h[i] > cur[i];
            assert(!(h[i0] <= cur[i0]));
        }
    }
}

/// A hand the shoe can deal: a nonempty submultiset of the shoe whose
/// value has not busted.
pub open spec fn reachable_hand(h: Seq<usize>, shoe: Seq<usize>) -> bool {
    &&& h.len() == 10
    &&& forall|i: int| 0 <= i < 10 ==> #[trigger] h[i] <= shoe[i]
    &&& sum_counts(h) >= 1
    &&& !busted(counts_value(h))
}

/// Every hand reachable from the shoe, each exactly once.
pub fn generate_all_hands(deck: &Deck) -> (hands: Vec<Hand>)
    requires
        deck.wf(),
    ensures
        forall|j: int|
            0 <= j < hands@.len() ==> (#[trigger] hands@[j]).wf() && reachable_hand(
                hands@[j]@,
                deck@,
            ),
        forall|h: Seq<usize>|
            reachable_hand(h, deck@) ==> exists|j: int|
                0 <= j < hands@.len() && hands@[j]@ == h,
        forall|j1: int, j2: int| 0 <= j1 < j2 < hands@.len() ==> hands@[j1]@ != hands@[j2]@,
{
    let empty = Deck::new();
    proof {
        lemma_hard_zero(empty@);
    }
    let mut ret: Vec<Hand> = Vec::new();
    generate_hand(&mut ret, &empty, deck, 0);
    proof {
        let zeros = empty@;
        assert forall|h: Seq<usize>|
            valid_extension(h, zeros, deck@, 0) implies reachable_hand(h, deck@) by {
            let i0 = choose|i: int| 0 <= i < 10 && h[i] > zeros[i];
            lemma_elem_le_sum(h, i0);
        }
        assert forall|h: Seq<usize>|
            reachable_hand(h, deck@) implies valid_extension(h, zeros, deck@, 0) by {
            if forall|i: int| 0 <= i < 10 ==> !(#[trigger] h[i] > zeros[i]) {
                crate::deck::lemma_sum_const(h, 0);
            }
        }
    }
    ret
}

/// Reachability is closed under drawing: growing a reachable hand by a
/// card the rest of the shoe still holds, without busting, yields a
/// reachable hand. So every successor that the hit and double evaluators
/// look up is in the enumerated table.
pub proof fn lemma_successor_reachable(h: Seq<usize>, shoe: Seq<usize>, c: Card)
    requires
        reachable_hand(h, shoe),
        h[c.idx()] < shoe[c.idx()],
        !busted(counts_value(h.update(c.idx(), (h[c.idx()] + 1) as usize))),
    ensures
        reachable_hand(h.update(c.idx(), (h[c.idx()] + 1) as usize), shoe),
{
    lemma_sum_nonneg(h);
    lemma_sum_update(h, c.idx(), (h[c.idx()] + 1) as usize);
}

/// The slot of a hand value in the processing order of the dynamic
/// program: hands are filled in ascending key order. Hard totals above ten
/// come first, largest first; then soft totals, largest first; then hard
/// totals of ten and below, largest first. The one twist — soft hands
/// before small hard hands — is forced, because adding an ace to a hard
/// ten-or-less yields a soft hand, which therefore must already be filled.
pub open spec fn dp_key_spec(m: HvModel) -> int {
    if !m.soft && m.total >= 11 {
        21 - m.total
    } else {
        43 - m.total
    }
}

/// The processing-order key of a hand value.
pub fn dp_key(v: HandValue) -> (k: i64)
    ensures
        k == dp_key_spec(v.model()),
{
    match v {
        HandValue::Hard(x) => {
            if x >= 11 {
                21 - x as i64
            } else {
                43 - x as i64
            }
        },
        HandValue::Soft(x) => 43 - x as i64,
    }
}

/// Adding one card to a hand adds that card to the hand's value.
pub proof fn lemma_value_plus_card(h: Seq<usize>, c: Card)
    requires
        h.len() == 10,
        h[c.idx()] < usize::MAX,
    ensures
        counts_value(h.update(c.idx(), (h[c.idx()] + 1) as usize)) == hv_add_model(
            counts_value(h),
            c,
        ),
{
    let i = c.idx();
    let h2 = h.update(i, (h[i] + 1) as usize);
    lemma_sum_nonneg(h);
    lemma_sum_update(h, i, (h[i] + 1) as usize);
    assert((i + 1) * ((h[i] + 1) - h[i]) == i + 1) by (nonlinear_arith);
    assert(hard_total(h2) == hard_total(h) + c.face());
    assert(h2[0] == h[0] + if c == Card::Ace {
        1int
    } else {
        0int
    });
    lemma_best_value_add(h[0] as int, hard_total(h), c);
}

/// Growing a live hand by any card strictly lowers its processing key, as
/// long as the grown hand is still live.
pub proof fn lemma_dp_key_add(m: HvModel, c: Card)
    requires
        !busted(m),
        !busted(hv_add_model(m, c)),
    ensures
        dp_key_spec(hv_add_model(m, c)) < dp_key_spec(m),
{
}

/// Hands sorted by ascending processing key.
pub open spec fn dp_sorted(s: Seq<Hand>) -> bool {
    forall|i: int, j: int|
        0 <= i < j < s.len() ==> dp_key_spec(counts_value(#[trigger] s[i]@)) <= dp_key_spec(
            counts_value(#[trigger] s[j]@),
        )
}

/// Sorts hands by ascending processing key: a selection sort that moves
/// the least-keyed hand out first.
#[verifier::loop_isolation(false)]
pub fn sort_hands_for_dp(hands: &mut Vec<Hand>)
    requires
        forall|i: int|
            0 <= i < old(hands)@.len() ==> (#[trigger] old(hands)@[i]).wf() && !busted(
                counts_value(old(hands)@[i]@),
            ),
    ensures
        final(hands)@.len() == old(hands)@.len(),
        final(hands)@.to_multiset() == old(hands)@.to_multiset(),
        dp_sorted(final(hands)@),
        forall|i: int|
            0 <= i < final(hands)@.len() ==> (#[trigger] final(hands)@[i]).wf() && !busted(
                counts_value(final(hands)@[i]@),
            ),
{
    broadcast use vstd::seq_lib::group_to_multiset_ensures;
    broadcast use vstd::multiset::group_multiset_axioms;

    let ghost orig = hands@;
    let mut out: Vec<Hand> = Vec::new();
    while hands.len() > 0
        invariant
            out@.len() + hands@.len() == orig.len(),
            out@.to_multiset().add(hands@.to_multiset()) == orig.to_multiset(),
            forall|i: int|
                0 <= i < hands@.len() ==> (#[trigger] hands@[i]).wf() && !busted(
                    counts_value(hands@[i]@),
                ),
            forall|i: int|
                0 <= i < out@.len() ==> (#[trigger] out@[i]).wf() && !busted(
                    counts_value(out@[i]@),
                ),
            dp_sorted(out@),
            forall|i: int, j: int|
                0 <= i < out@.len() && 0 <= j < hands@.len() ==> dp_key_spec(
                    counts_value(#[trigger] out@[i]@),
                ) <= dp_key_spec(counts_value(#[trigger] hands@[j]@)),
        decreases hands@.len(),
    {
        proof {
            lemma_busted_iff(hands@[0]@);
            lemma_sum_nonneg(hands@[0]@);
        }
        let mut min_idx: usize = 0;
        let mut min_key: i64 = dp_key(hands[0].get_hand_value());
        let mut t: usize = 1;
        while t < hands.len()
            invariant
                1 <= t <= hands@.len(),
                0 <= min_idx < hands@.len(),
                min_key == dp_key_spec(counts_value(hands@[min_idx as int]@)),
                forall|u: int|
                    0 <= u < t ==> min_key <= dp_key_spec(counts_value(#[trigger] hands@[u]@)),
            decreases hands@.len() - t,
        {
            proof {
                lemma_busted_iff(hands@[t as int]@);
                lemma_sum_nonneg(hands@[t as int]@);
            }
            let k = dp_key(hands[t].get_hand_value());
            if k < min_key {
                min_key = k;
                min_idx = t;
            }
            t += 1;
        }
        let ghost before = hands@;
        let m = hands.remove(min_idx);
        proof {
            assert(before.to_multiset().count(m) > 0) by {
                assert(before.contains(m));
            }
            assert(out@.push(m).to_multiset().add(hands@.to_multiset())
                =~= orig.to_multiset());
        }
        out.push(m);
    }
    proof {
        assert(hands@.to_multiset().len() == 0);
        assert(out@.to_multiset() =~= orig.to_multiset());
    }
    *hands = out;
}

/// An element of a list is an element of every list with the same
/// multiset of entries.
proof fn lemma_contains_transfer(s1: Seq<Hand>, s2: Seq<Hand>, x: Hand)
    requires
        s1.to_multiset() == s2.to_multiset(),
        s1.contains(x),
    ensures
        s2.contains(x),
{
    broadcast use vstd::seq_lib::group_to_multiset_ensures;

    assert(s1.to_multiset().count(x) > 0);
    assert(s2.to_multiset().count(x) > 0);
}

/// Every hand reachable from the shoe, each exactly once, in the order the
/// dynamic program fills them: each hand after all its one-card
/// extensions.
pub fn hands_in_dp_order(deck: &Deck) -> (hands: Vec<Hand>)
    requires
        deck.wf(),
    ensures
        forall|j: int|
            0 <= j < hands@.len() ==> (#[trigger] hands@[j]).wf() && reachable_hand(
                hands@[j]@,
                deck@,
            ),
        forall|h: Seq<usize>|
            reachable_hand(h, deck@) ==> exists|j: int|
                0 <= j < hands@.len() && hands@[j]@ == h,
        forall|j1: int, j2: int| 0 <= j1 < j2 < hands@.len() ==> hands@[j1]@ != hands@[j2]@,
        dp_sorted(hands@),
{
    broadcast use vstd::seq_lib::group_to_multiset_ensures;
    broadcast use vstd::multiset::group_multiset_axioms;

    let mut hands = generate_all_hands(deck);
    let ghost orig = hands@;
    proof {
    }
    sort_hands_for_dp(&mut hands);
    proof {
        let fin = hands@;
        // Membership carries over in both directions through the multiset.
        assert forall|j: int| 0 <= j < fin.len() implies (#[trigger] fin[j]).wf()
            && reachable_hand(fin[j]@, deck@) by {
            assert(fin.contains(fin[j]));
            lemma_contains_transfer(fin, orig, fin[j]);
            let i = choose|i: int| 0 <= i < orig.len() && orig[i] == fin[j];
        }
        assert forall|h: Seq<usize>| reachable_hand(h, deck@) implies exists|j: int|
            0 <= j < fin.len() && fin[j]@ == h by {
            let i = choose|i: int| 0 <= i < orig.len() && orig[i]@ == h;
            assert(orig.contains(orig[i]));
            lemma_contains_transfer(orig, fin, orig[i]);
            let j = choose|j: int| 0 <= j < fin.len() && fin[j] == orig[i];
            assert(fin[j]@ == h);
        }
        // No hand appears twice: the sort is a permutation of a list whose
        // entries' views are pairwise distinct.
        assert(orig.no_duplicates()) by {
            assert forall|i: int, j: int|
                0 <= i < orig.len() && 0 <= j < orig.len() && i != j implies orig[i]
                != orig[j] by {
                assert(orig[i]@ != orig[j]@);
            }
        }
        orig.lemma_multiset_has_no_duplicates();
        fin.lemma_multiset_has_no_duplicates_conv();
        assert forall|j1: int, j2: int| 0 <= j1 < j2 < fin.len() implies fin[j1]@ != fin[j2]@ by {
            if fin[j1]@ == fin[j2]@ {
                assert(fin[j1] != fin[j2]);
                assert(fin.contains(fin[j1]));
                assert(fin.contains(fin[j2]));
                lemma_contains_transfer(fin, orig, fin[j1]);
                lemma_contains_transfer(fin, orig, fin[j2]);
                let i1 = choose|i: int| 0 <= i < orig.len() && orig[i] == fin[j1];
                let i2 = choose|i: int| 0 <= i < orig.len() && orig[i] == fin[j2];
                assert(i1 != i2);
                assert(orig[i1]@ != orig[i2]@);
            }
        }
    }
    hands
}

/// The dynamic-programming order is safe: in a key-sorted hand list, a
/// hand that extends another hand of the list by one card comes strictly
/// before it.
pub proof fn lemma_dp_order_successor(hands: Seq<Hand>, i: int, j: int, c: Card)
    requires
        dp_sorted(hands),
        0 <= i < hands.len(),
        0 <= j < hands.len(),
        hands[i]@.len() == 10,
        hands[i]@[c.idx()] < usize::MAX,
        !busted(counts_value(hands[i]@)),
        !busted(counts_value(hands[j]@)),
        hands[j]@ == hands[i]@.update(c.idx(), (hands[i]@[c.idx()] + 1) as usize),
    ensures
        j < i,
{
    lemma_value_plus_card(hands[i]@, c);
    lemma_dp_key_add(counts_value(hands[i]@), c);
    if j >= i {
        assert(dp_key_spec(counts_value(hands[i]@)) <= dp_key_spec(counts_value(hands[j]@)));
    }
}

/// The double rule: a hand may double exactly when it holds two cards and
/// is not a natural.
pub fn double_allowed(hand: &Hand) -> (r: bool)
    requires
        hand.wf(),
    ensures
        r <==> (hand.total() == 2 && !is_blackjack_spec(hand@)),
{
    hand.get_count() == 2 && !hand.is_blackjack()
}

/// The rank a hand may split on: the rank it holds twice. `Some` exactly
/// when the hand is two cards of one rank.
pub fn pair_rank(hand: &Hand) -> (r: Option<Card>)
    requires
        hand.wf(),
    ensures
        r is Some <==> (hand.total() == 2 && exists|i: int| 0 <= i < 10 && hand@[i] == 2),
        r matches Some(c) ==> hand@[c.idx()] == 2 && hand.total() == 2,
{
    if hand.get_count() != 2 {
        return None;
    }
    let mut i: usize = 0;
    while i < 10
        invariant
            i <= 10,
            hand.wf(),
            hand.total() == 2,
            forall|k: int| 0 <= k < i ==> hand@[k] != 2,
        decreases 10 - i,
    {
        let c = card_of(i);
        if hand.get_count_of_card(c) == 2 {
            return Some(c);
        }
        i += 1;
    }
    None
}

/// The split rule: a hand may split exactly when it is a pair.
pub fn split_allowed(hand: &Hand) -> (r: bool)
    requires
        hand.wf(),
    ensures
        r <==> (hand.total() == 2 && exists|i: int| 0 <= i < 10 && hand@[i] == 2),
{
    match pair_rank(hand) {
        Some(_) => true,
        None => false,
    }
}

} // verus!
