//! The greedy matching algorithm that pairs participants with opposite
//! opinions.
//!
//! The matcher scores every unordered pair of participants with its
//! strategy, sorts the candidates by score descending (stably, so results
//! are deterministic for a fixed input ordering) and then walks the sorted
//! list once, committing each candidate whose participants are both still
//! unmatched. The whole pipeline is mirrored by spec functions, so
//! `find_matches` returns exactly the mathematically defined result.

use crate::Match;
use crate::ScoringStrategy;
use crate::User;
use vstd::pervasive::VecAdditionalExecFns;
use vstd::prelude::*;

verus! {

/// A candidate pairing: the positions of two participants in the input list
/// (first < second) and their opposition score.
pub type Candidate = (usize, usize, u64);

// ============================================================================
// The candidate list
// ============================================================================

/// The score a strategy assigns to the participants at positions `i` and `j`.
pub open spec fn cand_score<S: ScoringStrategy>(
    scorer: S,
    users: Seq<User>,
    i: int,
    j: int,
) -> u64 {
    scorer.spec_score(users[i].responses@, users[j].responses@) as u64
}

/// The candidates pairing position `i` with each position in `j..users.len()`,
/// in position order.
pub open spec fn cand_row<S: ScoringStrategy>(
    scorer: S,
    users: Seq<User>,
    i: int,
    j: int,
) -> Seq<Candidate>
    decreases users.len() - j,
{
    if j >= users.len() {
        Seq::empty()
    } else {
        seq![(i as usize, j as usize, cand_score(scorer, users, i, j))] + cand_row(
            scorer,
            users,
            i,
            j + 1,
        )
    }
}

/// The candidates pairing every position `u` with every position `v`,
/// `i <= u < v < users.len()`, ordered by `u` first and `v` second.
pub open spec fn cands_from<S: ScoringStrategy>(
    scorer: S,
    users: Seq<User>,
    i: int,
) -> Seq<Candidate>
    decreases users.len() - i,
{
    if i >= users.len() {
        Seq::empty()
    } else {
        cand_row(scorer, users, i, i + 1) + cands_from(scorer, users, i + 1)
    }
}

/// Every unordered pair of participant positions with its score, ordered by
/// first position, then second.
pub open spec fn all_candidates<S: ScoringStrategy>(scorer: S, users: Seq<User>) -> Seq<Candidate> {
    cands_from(scorer, users, 0)
}

/// Some candidate in `s` pairs position `u` with position `v`.
pub open spec fn has_candidate(s: Seq<Candidate>, u: int, v: int) -> bool {
    exists|k: int| 0 <= k < s.len() && (#[trigger] s[k]).0 as int == u && s[k].1 as int == v
}

proof fn lemma_cand_row_props<S: ScoringStrategy>(scorer: S, users: Seq<User>, i: int, j: int)
    requires
        0 <= i,
        0 <= j,
    ensures
        cand_row(scorer, users, i, j).len() == if j < users.len() {
            users.len() - j
        } else {
            0
        },
        forall|k: int|
            0 <= k < cand_row(scorer, users, i, j).len() ==> #[trigger] cand_row(
                scorer,
                users,
                i,
                j,
            )[k] == (i as usize, (j + k) as usize, cand_score(scorer, users, i, j + k)),
    decreases users.len() - j,
{
    if j < users.len() {
        lemma_cand_row_props(scorer, users, i, j + 1);
    }
}

proof fn lemma_cands_from_props<S: ScoringStrategy>(scorer: S, users: Seq<User>, i: int)
    requires
        0 <= i,
        users.len() <= usize::MAX,
    ensures
        forall|k: int|
            0 <= k < cands_from(scorer, users, i).len() ==> {
                let c = #[trigger] cands_from(scorer, users, i)[k];
                &&& i <= c.0 as int
                &&& (c.0 as int) < (c.1 as int)
                &&& (c.1 as int) < users.len()
                &&& c.2 == cand_score(scorer, users, c.0 as int, c.1 as int)
            },
        forall|u: int, v: int|
            i <= u < v < users.len() ==> #[trigger] has_candidate(cands_from(scorer, users, i), u, v),
    decreases users.len() - i,
{
    if i < users.len() {
        let row = cand_row(scorer, users, i, i + 1);
        let rest = cands_from(scorer, users, i + 1);
        let s = cands_from(scorer, users, i);
        lemma_cand_row_props(scorer, users, i, i + 1);
        lemma_cands_from_props(scorer, users, i + 1);
        assert(s =~= row + rest);
        assert forall|k: int| 0 <= k < s.len() implies {
            let c = #[trigger] s[k];
            &&& i <= c.0 as int
            &&& (c.0 as int) < (c.1 as int)
            &&& (c.1 as int) < users.len()
            &&& c.2 == cand_score(scorer, users, c.0 as int, c.1 as int)
        } by {
            if k < row.len() {
                assert(s[k] == row[k]);
                assert(row[k] == (i as usize, (i + 1 + k) as usize, cand_score(
                    scorer,
                    users,
                    i,
                    i + 1 + k,
                )));
            } else {
                assert(s[k] == rest[k - row.len()]);
            }
        }
        assert forall|u: int, v: int| i <= u < v < users.len() implies #[trigger] has_candidate(
            s,
            u,
            v,
        ) by {
            if u == i {
                let k = v - i - 1;
                assert(row[k] == (i as usize, (i + 1 + k) as usize, cand_score(
                    scorer,
                    users,
                    i,
                    i + 1 + k,
                )));
                assert(s[k] == row[k]);
                assert(s[k].0 as int == u && s[k].1 as int == v);
            } else {
                assert(has_candidate(rest, u, v));
                let k0 = choose|k0: int|
                    0 <= k0 < rest.len() && (#[trigger] rest[k0]).0 as int == u && rest[k0].1
                        as int == v;
                assert(s[row.len() + k0] == rest[k0]);
                assert(s[row.len() + k0].0 as int == u && s[row.len() + k0].1 as int == v);
            }
        }
    }
}

// ============================================================================
// Sorting the candidates
// ============================================================================

/// The scores of `s` never increase from left to right.
pub open spec fn sorted_desc(s: Seq<Candidate>) -> bool {
    forall|k1: int, k2: int| 0 <= k1 < k2 < s.len() ==> (#[trigger] s[k1]).2 >= (#[trigger] s[k2]).2
}

/// Insert `c` into the descending-sorted `s`, after every element whose
/// score is at least `c`'s (so equal scores keep their original order).
pub open spec fn insert_desc(s: Seq<Candidate>, c: Candidate) -> Seq<Candidate>
    decreases s.len(),
{
    if s.len() == 0 {
        seq![c]
    } else if s[0].2 >= c.2 {
        seq![s[0]] + insert_desc(s.drop_first(), c)
    } else {
        seq![c] + s
    }
}

/// Stable insertion sort by score descending: candidates with equal scores
/// stay in their original order.
pub open spec fn sort_desc(s: Seq<Candidate>) -> Seq<Candidate>
    decreases s.len(),
{
    if s.len() == 0 {
        Seq::empty()
    } else {
        insert_desc(sort_desc(s.drop_last()), s.last())
    }
}

proof fn lemma_insert_desc_props(s: Seq<Candidate>, c: Candidate)
    ensures
        insert_desc(s, c).len() == s.len() + 1,
        insert_desc(s, c).to_multiset() =~= s.to_multiset().insert(c),
        sorted_desc(s) ==> sorted_desc(insert_desc(s, c)),
    decreases s.len(),
{
    broadcast use vstd::seq_lib::group_to_multiset_ensures;
    broadcast use vstd::seq_lib::lemma_multiset_commutative;
    broadcast use vstd::multiset::group_multiset_axioms;

    let r = insert_desc(s, c);
    if s.len() == 0 {
        assert(seq![c] =~= Seq::<Candidate>::empty().push(c));
        assert(Seq::<Candidate>::empty().push(c).to_multiset() =~= Seq::<
            Candidate,
        >::empty().to_multiset().insert(c));
        assert(s =~= Seq::<Candidate>::empty());
    } else if s[0].2 >= c.2 {
        let rest = insert_desc(s.drop_first(), c);
        lemma_insert_desc_props(s.drop_first(), c);
        assert(s =~= seq![s[0]] + s.drop_first());
        assert(r.to_multiset() =~= s.to_multiset().insert(c));
        if sorted_desc(s) {
            assert(sorted_desc(s.drop_first())) by {
                assert(forall|k: int|
                    0 <= k < s.drop_first().len() ==> #[trigger] s.drop_first()[k] == s[k + 1]);
            }
            assert forall|k: int| 0 <= k < rest.len() implies s[0].2 >= (#[trigger] rest[k]).2 by {
                assert(rest.contains(rest[k]));
                assert(rest.to_multiset().count(rest[k]) > 0);
                if rest[k] != c {
                    assert(s.drop_first().to_multiset().count(rest[k]) > 0);
                    assert(s.drop_first().contains(rest[k]));
                    let k0 = choose|k0: int|
                        0 <= k0 < s.drop_first().len() && s.drop_first()[k0] == rest[k];
                    assert(s[k0 + 1] == rest[k]);
                }
            }
            assert forall|k1: int, k2: int| 0 <= k1 < k2 < r.len() implies (#[trigger] r[k1]).2 >= (
            #[trigger] r[k2]).2 by {
                if k1 > 0 {
                    assert(r[k1] == rest[k1 - 1] && r[k2] == rest[k2 - 1]);
                } else {
                    assert(r[k2] == rest[k2 - 1]);
                }
            }
        }
    } else {
        assert(seq![c] =~= Seq::<Candidate>::empty().push(c));
        assert(Seq::<Candidate>::empty().push(c).to_multiset() =~= Seq::<
            Candidate,
        >::empty().to_multiset().insert(c));
        assert(r.to_multiset() =~= s.to_multiset().insert(c));
        if sorted_desc(s) {
            assert forall|k1: int, k2: int| 0 <= k1 < k2 < r.len() implies (#[trigger] r[k1]).2 >= (
            #[trigger] r[k2]).2 by {
                if k1 > 0 {
                    assert(r[k1] == s[k1 - 1] && r[k2] == s[k2 - 1]);
                } else {
                    assert(r[k2] == s[k2 - 1]);
                    if k2 - 1 > 0 {
                        assert(s[0].2 >= s[k2 - 1].2);
                    }
                }
            }
        }
    }
}

proof fn lemma_insert_desc_at(s: Seq<Candidate>, c: Candidate, p: int)
    requires
        sorted_desc(s),
        0 <= p <= s.len(),
        forall|q: int| 0 <= q < p ==> (#[trigger] s[q]).2 >= c.2,
        p == s.len() || s[p].2 < c.2,
    ensures
        insert_desc(s, c) =~= s.take(p) + seq![c] + s.skip(p),
    decreases s.len(),
{
    if p == 0 {
        if s.len() == 0 {
            assert(insert_desc(s, c) =~= seq![c]);
        }
    } else {
        let df = s.drop_first();
        assert(forall|q: int| 0 <= q < df.len() ==> #[trigger] df[q] == s[q + 1]);
        assert(sorted_desc(df));
        assert(s[0].2 >= c.2);
        lemma_insert_desc_at(df, c, p - 1);
        assert(insert_desc(s, c) =~= seq![s[0]] + (df.take(p - 1) + seq![c] + df.skip(p - 1)));
        assert forall|m: int| 0 <= m < p implies (s.take(p) + seq![c] + s.skip(p))[m] == (seq![s[0]]
            + (df.take(p - 1) + seq![c] + df.skip(p - 1)))[m] by {
            if m > 0 {
                assert(df.take(p - 1)[m - 1] == s[m]);
            }
        }
    }
}

proof fn lemma_sort_desc_props(s: Seq<Candidate>)
    ensures
        sort_desc(s).len() == s.len(),
        sort_desc(s).to_multiset() =~= s.to_multiset(),
        sorted_desc(sort_desc(s)),
    decreases s.len(),
{
    broadcast use vstd::seq_lib::group_to_multiset_ensures;
    broadcast use vstd::multiset::group_multiset_axioms;

    if s.len() != 0 {
        let dl = s.drop_last();
        lemma_sort_desc_props(dl);
        lemma_insert_desc_props(sort_desc(dl), s.last());
        assert(s =~= dl.push(s.last()));
        assert(dl.push(s.last()).to_multiset() =~= dl.to_multiset().insert(s.last()));
    }
}

proof fn lemma_sort_desc_same_elements(s: Seq<Candidate>)
    ensures
        forall|x: Candidate| #[trigger] sort_desc(s).contains(x) <==> s.contains(x),
{
    broadcast use vstd::seq_lib::group_to_multiset_ensures;
    broadcast use vstd::multiset::group_multiset_axioms;

    lemma_sort_desc_props(s);
    assert forall|x: Candidate| #[trigger] sort_desc(s).contains(x) <==> s.contains(x) by {
        assert(sort_desc(s).contains(x) <==> sort_desc(s).to_multiset().count(x) > 0);
        assert(s.contains(x) <==> s.to_multiset().count(x) > 0);
    }
}

// ============================================================================
// Greedy selection
// ============================================================================

/// A candidate may be committed: neither of its participants is matched yet.
pub open spec fn pair_ok(c: Candidate, matched: Set<int>) -> bool {
    !matched.contains(c.0 as int) && !matched.contains(c.1 as int)
}

/// Walk the candidates once, in order, committing each whose participants
/// are both unmatched and marking them matched.
pub open spec fn greedy_rec(cands: Seq<Candidate>, matched: Set<int>) -> Seq<Candidate>
    decreases cands.len(),
{
    if cands.len() == 0 {
        Seq::empty()
    } else if pair_ok(cands[0], matched) {
        seq![cands[0]] + greedy_rec(
            cands.drop_first(),
            matched.insert(cands[0].0 as int).insert(cands[0].1 as int),
        )
    } else {
        greedy_rec(cands.drop_first(), matched)
    }
}

/// The matched set after the greedy walk.
pub open spec fn matched_after(cands: Seq<Candidate>, matched: Set<int>) -> Set<int>
    decreases cands.len(),
{
    if cands.len() == 0 {
        matched
    } else if pair_ok(cands[0], matched) {
        matched_after(
            cands.drop_first(),
            matched.insert(cands[0].0 as int).insert(cands[0].1 as int),
        )
    } else {
        matched_after(cands.drop_first(), matched)
    }
}

/// The candidate references participant position `u`.
pub open spec fn touches(c: Candidate, u: int) -> bool {
    c.0 as int == u || c.1 as int == u
}

/// Some pairing in `cs` references participant position `u`.
pub open spec fn touched(cs: Seq<Candidate>, u: int) -> bool {
    exists|k: int| 0 <= k < cs.len() && touches(#[trigger] cs[k], u)
}

proof fn lemma_greedy_rec_props(cands: Seq<Candidate>, matched: Set<int>)
    requires
        matched.finite(),
        forall|k: int| 0 <= k < cands.len() ==> ((#[trigger] cands[k]).0 as int) < (cands[k].1 as int),
    ensures
        ({
            let r = greedy_rec(cands, matched);
            let mf = matched_after(cands, matched);
            &&& mf.finite()
            &&& matched.subset_of(mf)
            &&& mf.len() == matched.len() + 2 * r.len()
            &&& forall|k: int| 0 <= k < r.len() ==> cands.contains(#[trigger] r[k])
            &&& forall|u: int| mf.contains(u) <==> matched.contains(u) || touched(r, u)
            &&& forall|k: int| 0 <= k < r.len() ==> pair_ok(#[trigger] r[k], matched)
            &&& forall|k1: int, k2: int|
                0 <= k1 < k2 < r.len() ==> !touches(#[trigger] r[k1], (#[trigger] r[k2]).0 as int)
                    && !touches(r[k1], r[k2].1 as int)
            &&& forall|k: int|
                0 <= k < cands.len() ==> mf.contains((#[trigger] cands[k]).0 as int) || mf.contains(
                    cands[k].1 as int,
                )
        }),
    decreases cands.len(),
{
    broadcast use vstd::set::group_set_axioms;

    let r = greedy_rec(cands, matched);
    let mf = matched_after(cands, matched);
    if cands.len() == 0 {
        assert(forall|u: int| !touched(r, u));
    } else {
        let c = cands[0];
        let tail = cands.drop_first();
        assert(forall|k: int| 0 <= k < tail.len() ==> #[trigger] tail[k] == cands[k + 1]);
        if pair_ok(c, matched) {
            let m2 = matched.insert(c.0 as int).insert(c.1 as int);
            lemma_greedy_rec_props(tail, m2);
            let r2 = greedy_rec(tail, m2);
            assert(r == seq![c] + r2);
            assert(r[0] == c);
            assert(forall|k: int| 1 <= k < r.len() ==> #[trigger] r[k] == r2[k - 1]);
            assert(m2.len() == matched.len() + 2);
            // every position the result touches, plus the prior matched set,
            // is exactly the final matched set
            assert forall|u: int| mf.contains(u) <==> matched.contains(u) || touched(r, u) by {
                if mf.contains(u) {
                    if !matched.contains(u) {
                        if u == c.0 as int || u == c.1 as int {
                            assert(touches(r[0], u));
                            assert(touched(r, u));
                        } else {
                            assert(touched(r2, u));
                            let k = choose|k: int| 0 <= k < r2.len() && touches(#[trigger] r2[k], u);
                            assert(touches(r[k + 1], u));
                            assert(touched(r, u));
                        }
                    }
                }
                if touched(r, u) {
                    let k = choose|k: int| 0 <= k < r.len() && touches(#[trigger] r[k], u);
                    if k == 0 {
                        assert(m2.contains(u));
                    } else {
                        assert(touches(r2[k - 1], u));
                        assert(touched(r2, u));
                    }
                }
            }
            // committed pairings never share a participant
            assert forall|k1: int, k2: int| 0 <= k1 < k2 < r.len() implies !touches(
                #[trigger] r[k1],
                (#[trigger] r[k2]).0 as int,
            ) && !touches(r[k1], r[k2].1 as int) by {
                if k1 == 0 {
                    assert(pair_ok(r2[k2 - 1], m2));
                } else {
                    assert(r[k1] == r2[k1 - 1] && r[k2] == r2[k2 - 1]);
                }
            }
            assert forall|k: int| 0 <= k < r.len() implies cands.contains(#[trigger] r[k]) by {
                if k == 0 {
                    assert(r[0] == cands[0]);
                } else {
                    assert(tail.contains(r2[k - 1]));
                    let k0 = choose|k0: int| 0 <= k0 < tail.len() && tail[k0] == r2[k - 1];
                    assert(cands[k0 + 1] == r[k]);
                }
            }
            assert forall|k: int| 0 <= k < r.len() implies pair_ok(#[trigger] r[k], matched) by {
                if k > 0 {
                    assert(pair_ok(r2[k - 1], m2));
                }
            }
            assert forall|k: int| 0 <= k < cands.len() implies mf.contains(
                (#[trigger] cands[k]).0 as int,
            ) || mf.contains(cands[k].1 as int) by {
                if k == 0 {
                    assert(m2.contains(c.0 as int));
                    assert(m2.subset_of(mf));
                    assert(mf.contains(c.0 as int));
                } else {
                    assert(tail[k - 1] == cands[k]);
                    assert(mf.contains((tail[k - 1]).0 as int) || mf.contains(tail[k - 1].1 as int));
                }
            }
        } else {
            lemma_greedy_rec_props(tail, matched);
            let r2 = greedy_rec(tail, matched);
            assert(r == r2);
            assert forall|k: int| 0 <= k < r.len() implies cands.contains(#[trigger] r[k]) by {
                assert(tail.contains(r2[k]));
                let k0 = choose|k0: int| 0 <= k0 < tail.len() && tail[k0] == r2[k];
                assert(cands[k0 + 1] == r[k]);
            }
            assert forall|k: int| 0 <= k < cands.len() implies mf.contains(
                (#[trigger] cands[k]).0 as int,
            ) || mf.contains(cands[k].1 as int) by {
                if k == 0 {
                    assert(matched.contains(c.0 as int) || matched.contains(c.1 as int));
                    assert(matched.subset_of(mf));
                } else {
                    assert(tail[k - 1] == cands[k]);
                    assert(mf.contains((tail[k - 1]).0 as int) || mf.contains(tail[k - 1].1 as int));
                }
            }
        }
    }
    assert(mf.finite());
    assert(matched.subset_of(mf));
    assert(mf.len() == matched.len() + 2 * r.len());
    assert(forall|k: int| 0 <= k < r.len() ==> cands.contains(#[trigger] r[k]));
    assert(forall|u: int| mf.contains(u) <==> matched.contains(u) || touched(r, u));
    assert(forall|k: int| 0 <= k < r.len() ==> pair_ok(#[trigger] r[k], matched));
    assert(forall|k1: int, k2: int|
        0 <= k1 < k2 < r.len() ==> !touches(#[trigger] r[k1], (#[trigger] r[k2]).0 as int)
            && !touches(r[k1], r[k2].1 as int));
    assert(forall|k: int|
        0 <= k < cands.len() ==> mf.contains((#[trigger] cands[k]).0 as int) || mf.contains(
            cands[k].1 as int,
        ));
}

proof fn lemma_greedy_rec_sorted(cands: Seq<Candidate>, matched: Set<int>)
    requires
        matched.finite(),
        sorted_desc(cands),
        forall|k: int| 0 <= k < cands.len() ==> ((#[trigger] cands[k]).0 as int) < (cands[k].1 as int),
    ensures
        sorted_desc(greedy_rec(cands, matched)),
    decreases cands.len(),
{
    broadcast use vstd::set::group_set_axioms;

    let r = greedy_rec(cands, matched);
    if cands.len() != 0 {
        let c = cands[0];
        let tail = cands.drop_first();
        assert(forall|k: int| 0 <= k < tail.len() ==> #[trigger] tail[k] == cands[k + 1]);
        if pair_ok(c, matched) {
            let m2 = matched.insert(c.0 as int).insert(c.1 as int);
            lemma_greedy_rec_sorted(tail, m2);
            lemma_greedy_rec_props(tail, m2);
            let r2 = greedy_rec(tail, m2);
            assert(forall|k: int| 1 <= k < r.len() ==> #[trigger] r[k] == r2[k - 1]);
            assert forall|k1: int, k2: int| 0 <= k1 < k2 < r.len() implies (#[trigger] r[k1]).2 >= (
            #[trigger] r[k2]).2 by {
                if k1 == 0 {
                    assert(tail.contains(r2[k2 - 1]));
                    let k0 = choose|k0: int| 0 <= k0 < tail.len() && tail[k0] == r2[k2 - 1];
                    assert(cands[k0 + 1] == r[k2]);
                    assert(cands[0].2 >= cands[k0 + 1].2);
                } else {
                    assert(r[k1] == r2[k1 - 1] && r[k2] == r2[k2 - 1]);
                }
            }
        } else {
            lemma_greedy_rec_sorted(tail, matched);
        }
    }
}

proof fn lemma_greedy_pairs_count(cands: Seq<Candidate>, n: int)
    requires
        0 <= n,
        forall|k: int|
            0 <= k < cands.len() ==> ((#[trigger] cands[k]).0 as int) < (cands[k].1 as int)
                && (cands[k].1 as int) < n,
        forall|u: int, v: int| 0 <= u < v < n ==> #[trigger] has_candidate(cands, u, v),
    ensures
        greedy_rec(cands, Set::empty()).len() == n / 2,
{
    broadcast use vstd::set::group_set_axioms;
    broadcast use vstd::set_lib::group_set_properties;

    lemma_greedy_rec_props(cands, Set::empty());
    let r = greedy_rec(cands, Set::empty());
    let mf = matched_after(cands, Set::empty());
    assert(mf.len() == 2 * r.len());
    let range = vstd::set_lib::set_int_range(0, n);
    vstd::set_lib::lemma_int_range(0, n);
    // everything matched lies in [0, n)
    assert forall|u: int| mf.contains(u) implies range.contains(u) by {
        assert(touched(r, u));
        let k = choose|k: int| 0 <= k < r.len() && touches(#[trigger] r[k], u);
        assert(cands.contains(r[k]));
        let k0 = choose|k0: int| 0 <= k0 < cands.len() && cands[k0] == r[k];
        assert(((cands[k0]).0 as int) < (cands[k0].1 as int) < n);
    }
    assert(mf.subset_of(range));
    vstd::set_lib::lemma_len_subset(mf, range);
    let d = range.difference(mf);
    vstd::set_lib::lemma_len_subset(d, range);
    // at most one position is unmatched: a candidate exists for every pair,
    // and the greedy walk never skips a pair of two unmatched participants
    if d.len() >= 2 {
        assert(!d.is_empty());
        let u = d.choose();
        assert(d.contains(u));
        let d2 = d.remove(u);
        assert(d2.len() >= 1);
        assert(!d2.is_empty());
        let v = d2.choose();
        assert(d2.contains(v));
        assert(d.contains(v) && u != v);
        let a = if u < v {
            u
        } else {
            v
        };
        let b = if u < v {
            v
        } else {
            u
        };
        assert(0 <= a < b < n);
        assert(has_candidate(cands, a, b));
        let k = choose|k: int|
            0 <= k < cands.len() && (#[trigger] cands[k]).0 as int == a && cands[k].1 as int == b;
        assert(mf.contains(a) || mf.contains(b));
        assert(false);
    }
    assert(range =~= mf.union(d));
    vstd::set_lib::lemma_len_union(mf, d);
    assert(2 * r.len() <= n && n <= 2 * r.len() + 1);
    assert(r.len() == n / 2);
}

// ============================================================================
// The full pipeline, as one spec function, and its laws
// ============================================================================

/// The exact result of the greedy matcher: every pair of positions is
/// scored, the candidates are stably sorted by score descending, and the
/// sorted list is walked once, committing each pair whose participants are
/// both still unmatched.
pub open spec fn find_matches_spec<S: ScoringStrategy>(scorer: S, users: Seq<User>) -> Seq<
    Candidate,
> {
    greedy_rec(sort_desc(all_candidates(scorer, users)), Set::empty())
}

proof fn lemma_sorted_candidates_props<S: ScoringStrategy>(scorer: S, users: Seq<User>)
    requires
        users.len() <= usize::MAX,
    ensures
        ({
            let sc = sort_desc(all_candidates(scorer, users));
            &&& sorted_desc(sc)
            &&& forall|k: int|
                0 <= k < sc.len() ==> {
                    let c = #[trigger] sc[k];
                    &&& 0 <= c.0 as int
                    &&& (c.0 as int) < (c.1 as int)
                    &&& (c.1 as int) < users.len()
                    &&& c.2 == cand_score(scorer, users, c.0 as int, c.1 as int)
                }
            &&& forall|u: int, v: int|
                0 <= u < v < users.len() ==> #[trigger] has_candidate(sc, u, v)
        }),
{
    let ac = all_candidates(scorer, users);
    let sc = sort_desc(ac);
    lemma_cands_from_props(scorer, users, 0);
    lemma_sort_desc_props(ac);
    lemma_sort_desc_same_elements(ac);
    assert forall|k: int| 0 <= k < sc.len() implies {
        let c = #[trigger] sc[k];
        &&& 0 <= c.0 as int
        &&& (c.0 as int) < (c.1 as int)
        &&& (c.1 as int) < users.len()
        &&& c.2 == cand_score(scorer, users, c.0 as int, c.1 as int)
    } by {
        assert(sc.contains(sc[k]));
        assert(ac.contains(sc[k]));
        let k0 = choose|k0: int| 0 <= k0 < ac.len() && ac[k0] == sc[k];
        assert(0 <= (ac[k0].0 as int) < (ac[k0].1 as int) < users.len());
    }
    assert forall|u: int, v: int| 0 <= u < v < users.len() implies #[trigger] has_candidate(
        sc,
        u,
        v,
    ) by {
        assert(has_candidate(ac, u, v));
        let k = choose|k: int|
            0 <= k < ac.len() && (#[trigger] ac[k]).0 as int == u && ac[k].1 as int == v;
        assert(ac.contains(ac[k]));
        assert(sc.contains(ac[k]));
        let k2 = choose|k2: int| 0 <= k2 < sc.len() && sc[k2] == ac[k];
        assert(sc[k2].0 as int == u && sc[k2].1 as int == v);
    }
}

/// The greedy matcher commits exactly `⌊n/2⌋` pairings for `n`
/// participants: every participant is paired but, when `n` is odd, one.
pub proof fn lemma_match_count<S: ScoringStrategy>(scorer: S, users: Seq<User>)
    requires
        users.len() <= usize::MAX,
    ensures
        find_matches_spec(scorer, users).len() == users.len() as int / 2,
{
    let sc = sort_desc(all_candidates(scorer, users));
    lemma_sorted_candidates_props(scorer, users);
    lemma_greedy_pairs_count(sc, users.len() as int);
}

/// The committed pairings form a partial partition of the participants:
/// each pairing references two distinct positions in range, no two pairings
/// share a position, at most one position goes unmatched, and an odd
/// participant count leaves exactly one position unmatched.
pub proof fn lemma_matches_partition<S: ScoringStrategy>(scorer: S, users: Seq<User>)
    requires
        users.len() <= usize::MAX,
    ensures
        ({
            let r = find_matches_spec(scorer, users);
            let n = users.len() as int;
            &&& forall|k: int|
                0 <= k < r.len() ==> 0 <= ((#[trigger] r[k]).0 as int) && ((r[k].0 as int) < (
                r[k].1 as int)) && ((r[k].1 as int) < n)
            &&& forall|k1: int, k2: int|
                0 <= k1 < k2 < r.len() ==> !touches(#[trigger] r[k1], (#[trigger] r[k2]).0 as int)
                    && !touches(r[k1], r[k2].1 as int)
            &&& forall|u: int, v: int| 0 <= u < v < n ==> touched(r, u) || touched(r, v)
            &&& (n % 2 == 1 ==> exists|u: int| 0 <= u < n && !touched(r, u))
        }),
{
    broadcast use vstd::set::group_set_axioms;

    let sc = sort_desc(all_candidates(scorer, users));
    let r = find_matches_spec(scorer, users);
    let n = users.len() as int;
    lemma_sorted_candidates_props(scorer, users);
    lemma_greedy_rec_props(sc, Set::empty());
    lemma_greedy_pairs_count(sc, n);
    let mf = matched_after(sc, Set::empty());
    assert forall|k: int| 0 <= k < r.len() implies 0 <= ((#[trigger] r[k]).0 as int) && ((r[k].0
        as int) < (r[k].1 as int)) && ((r[k].1 as int) < n) by {
        assert(sc.contains(r[k]));
        let k0 = choose|k0: int| 0 <= k0 < sc.len() && sc[k0] == r[k];
        assert(0 <= (sc[k0].0 as int) < (sc[k0].1 as int) < n);
    }
    assert forall|u: int, v: int| 0 <= u < v < n implies touched(r, u) || touched(r, v) by {
        assert(has_candidate(sc, u, v));
        let k = choose|k: int|
            0 <= k < sc.len() && (#[trigger] sc[k]).0 as int == u && sc[k].1 as int == v;
        assert(mf.contains(sc[k].0 as int) || mf.contains(sc[k].1 as int));
    }
    if n % 2 == 1 {
        assert(mf.len() == 2 * (n / 2));
        assert(mf.len() < n);
        if forall|u: int| 0 <= u < n ==> touched(r, u) {
            let range = vstd::set_lib::set_int_range(0, n);
            vstd::set_lib::lemma_int_range(0, n);
            assert forall|u: int| range.contains(u) implies mf.contains(u) by {
                assert(touched(r, u));
            }
            assert(range.subset_of(mf));
            vstd::set_lib::lemma_len_subset(range, mf);
            assert(false);
        }
        let u = choose|u: int| 0 <= u < n && !touched(r, u);
        assert(0 <= u < n && !touched(r, u));
    }
}

/// Committed pairings come out in descending score order.
pub proof fn lemma_matches_sorted<S: ScoringStrategy>(scorer: S, users: Seq<User>)
    requires
        users.len() <= usize::MAX,
    ensures
        sorted_desc(find_matches_spec(scorer, users)),
{
    let sc = sort_desc(all_candidates(scorer, users));
    lemma_sorted_candidates_props(scorer, users);
    lemma_greedy_rec_sorted(sc, Set::empty());
}

/// The first committed pairing always carries the maximum score among all
/// candidate pairs.
pub proof fn lemma_first_match_is_max<S: ScoringStrategy>(scorer: S, users: Seq<User>)
    requires
        users.len() <= usize::MAX,
        2 <= users.len(),
        forall|k: int| 0 <= k < users.len() ==> (#[trigger] users[k]).wf(),
        forall|k1: int, k2: int|
            0 <= k1 < users.len() && 0 <= k2 < users.len() ==> (#[trigger] users[k1]).responses@.len()
                == (#[trigger] users[k2]).responses@.len(),
        scorer.compatible(users[0].responses@.len() as int),
    ensures
        ({
            let r = find_matches_spec(scorer, users);
            &&& r.len() >= 1
            &&& forall|i: int, j: int|
                0 <= i < j < users.len() ==> (#[trigger] r[0]).2 >= scorer.spec_score(
                    (#[trigger] users[i]).responses@,
                    (#[trigger] users[j]).responses@,
                )
        }),
{
    broadcast use vstd::set::group_set_axioms;

    let sc = sort_desc(all_candidates(scorer, users));
    let r = find_matches_spec(scorer, users);
    lemma_sorted_candidates_props(scorer, users);
    lemma_match_count(scorer, users);
    assert(r.len() >= 1);
    assert(sc.len() != 0) by {
        if sc.len() == 0 {
            assert(r.len() == 0);
        }
    }
    assert(pair_ok(sc[0], Set::empty()));
    assert(r[0] == sc[0]);
    assert forall|i: int, j: int| 0 <= i < j < users.len() implies (#[trigger] r[0]).2
        >= scorer.spec_score(
        (#[trigger] users[i]).responses@,
        (#[trigger] users[j]).responses@,
    ) by {
        assert(has_candidate(sc, i, j));
        let k = choose|k: int|
            0 <= k < sc.len() && (#[trigger] sc[k]).0 as int == i && sc[k].1 as int == j;
        assert(sc[k].2 == cand_score(scorer, users, i, j));
        scorer.lemma_score_bounds(users[i].responses@, users[j].responses@);
        assert(sc[k].2 as int == scorer.spec_score(users[i].responses@, users[j].responses@));
        if k > 0 {
            assert(sc[0].2 >= sc[k].2);
        }
    }
}

// ============================================================================
// The matcher
// ============================================================================

/// Each produced `Match` carries the identities and the score of the
/// corresponding committed candidate.
pub open spec fn matches_correspond(ms: Seq<Match>, cs: Seq<Candidate>, users: Seq<User>) -> bool {
    &&& ms.len() == cs.len()
    &&& forall|k: int|
        0 <= k < cs.len() ==> {
            let c = #[trigger] cs[k];
            &&& ms[k].user1_id@ == users[c.0 as int].id@
            &&& ms[k].user2_id@ == users[c.1 as int].id@
            &&& ms[k].score == c.2
        }
}

/// Sort the candidates by score descending, stably, so that the result is
/// exactly [`sort_desc`] of the input.
fn sort_candidates(cands: &mut Vec<Candidate>)
    ensures
        final(cands)@ == sort_desc(old(cands)@),
{
    let ghost v0 = old(cands)@;
    let n = cands.len();
    if n <= 1 {
        proof {
            reveal_with_fuel(sort_desc, 3);
            if v0.len() == 1 {
                assert(v0.drop_last() =~= Seq::<Candidate>::empty());
                assert(sort_desc(v0.drop_last()) == sort_desc(Seq::<Candidate>::empty()));
                assert(insert_desc(Seq::<Candidate>::empty(), v0.last()) =~= seq![v0.last()]);
                assert(sort_desc(v0) =~= v0);
            } else {
                assert(sort_desc(v0) =~= v0);
            }
        }
        return ;
    }
    proof {
        reveal_with_fuel(sort_desc, 3);
        assert(v0.take(1).drop_last() =~= Seq::<Candidate>::empty());
        assert(sort_desc(v0.take(1).drop_last()) == sort_desc(Seq::<Candidate>::empty()));
        assert(v0.take(1).last() == v0[0]);
        assert(insert_desc(Seq::<Candidate>::empty(), v0[0]) =~= seq![v0[0]]);
        assert(sort_desc(v0.take(1)) =~= v0.take(1));
        assert(cands@ =~= sort_desc(v0.take(1)) + v0.skip(1));
    }
    let mut k: usize = 1;
    while k < n
        invariant
            n == cands@.len(),
            n == v0.len(),
            1 <= k <= n,
            cands@ =~= sort_desc(v0.take(k as int)) + v0.skip(k as int),
        decreases n - k,
    {
        let ghost pre = cands@;
        let ghost sorted_pre = sort_desc(v0.take(k as int));
        proof {
            lemma_sort_desc_props(v0.take(k as int));
            assert(sorted_pre.len() == k);
        }
        let c = cands[k];
        proof {
            assert(pre[k as int] == v0.skip(k as int)[0]);
            assert(v0.skip(k as int)[0] == v0[k as int]);
        }
        let mut p: usize = 0;
        while p < k && cands[p].2 >= c.2
            invariant
                0 <= p <= k,
                k < n,
                n == cands@.len(),
                cands@ == pre,
                forall|q: int| 0 <= q < p ==> (#[trigger] pre[q]).2 >= c.2,
            decreases k - p,
        {
            p = p + 1;
        }
        proof {
            assert(forall|q: int| 0 <= q < k ==> pre[q] == #[trigger] sorted_pre[q]);
            lemma_insert_desc_at(sorted_pre, c, p as int);
            assert(v0.take(k as int + 1).drop_last() =~= v0.take(k as int));
            assert(v0.take(k as int + 1).last() == v0[k as int]);
        }
        if p < k {
            let cc = cands.remove(k);
            cands.insert(p, cc);
            proof {
                assert(pre.remove(k as int) =~= sorted_pre + v0.skip(k as int + 1));
                assert(cands@ =~= (sorted_pre + v0.skip(k as int + 1)).insert(p as int, c));
                assert((sorted_pre + v0.skip(k as int + 1)).insert(p as int, c) =~= (sorted_pre.take(
                    p as int,
                ) + seq![c] + sorted_pre.skip(p as int)) + v0.skip(k as int + 1));
                assert(cands@ =~= sort_desc(v0.take(k as int + 1)) + v0.skip(k as int + 1));
            }
        } else {
            proof {
                assert(sorted_pre.take(k as int) =~= sorted_pre);
                assert(sorted_pre.skip(k as int) =~= Seq::<Candidate>::empty());
                assert(insert_desc(sorted_pre, c) =~= sorted_pre + seq![c]);
                assert(v0.skip(k as int) =~= seq![c] + v0.skip(k as int + 1));
                assert(cands@ =~= sort_desc(v0.take(k as int + 1)) + v0.skip(k as int + 1));
            }
        }
        k = k + 1;
    }
    proof {
        assert(v0.take(n as int) =~= v0);
        assert(v0.skip(n as int) =~= Seq::<Candidate>::empty());
        assert(cands@ =~= sort_desc(v0));
    }
}

/// Walk the sorted candidates once and commit every pair whose participants
/// are both still unmatched, exactly as [`greedy_rec`] describes.
fn greedy_select(users: &Vec<User>, cands: Vec<Candidate>) -> (r: Vec<Match>)
    requires
        forall|k: int|
            0 <= k < cands@.len() ==> ((#[trigger] cands@[k]).0 as int) < (cands@[k].1 as int) && ((
            cands@[k].1 as int) < users@.len()),
    ensures
        matches_correspond(r@, greedy_rec(cands@, Set::empty()), users@),
{
    let n = users.len();
    let mut matched: Vec<bool> = Vec::new();
    let mut q: usize = 0;
    while q < n
        invariant
            matched@.len() == q,
            0 <= q <= n,
            forall|u: int| 0 <= u < q ==> !(#[trigger] matched@[u]),
        decreases n - q,
    {
        matched.push(false);
        q = q + 1;
    }
    let mut result: Vec<Match> = Vec::new();
    let ghost mut mset: Set<int> = Set::empty();
    let ghost mut committed: Seq<Candidate> = Seq::empty();
    proof {
        broadcast use vstd::set::group_set_axioms;

        assert(cands@.skip(0) =~= cands@);
        assert(greedy_rec(cands@, Set::empty()) =~= committed + greedy_rec(cands@.skip(0), mset));
    }
    let mut t: usize = 0;
    while t < cands.len()
        invariant
            n == users@.len(),
            matched@.len() == n,
            0 <= t <= cands@.len(),
            forall|k: int|
                0 <= k < cands@.len() ==> ((#[trigger] cands@[k]).0 as int) < (cands@[k].1 as int)
                    && ((cands@[k].1 as int) < n),
            mset.finite(),
            forall|u: int| mset.contains(u) ==> 0 <= u < n,
            forall|u: int| 0 <= u < n ==> ((#[trigger] matched@[u]) <==> mset.contains(u)),
            greedy_rec(cands@, Set::empty()) =~= committed + greedy_rec(
                cands@.skip(t as int),
                mset,
            ),
            matches_correspond(result@, committed, users@),
        decreases cands@.len() - t,
    {
        let c = cands[t];
        let ci = c.0;
        let cj = c.1;
        proof {
            assert(cands@.skip(t as int)[0] == cands@[t as int]);
            assert(cands@.skip(t as int).drop_first() =~= cands@.skip(t as int + 1));
        }
        if !matched[ci] && !matched[cj] {
            matched.set(ci, true);
            matched.set(cj, true);
            let m = Match::new(users[ci].id.clone(), users[cj].id.clone(), c.2);
            result.push(m);
            proof {
                broadcast use vstd::set::group_set_axioms;

                assert(pair_ok(c, mset));
                assert(greedy_rec(cands@.skip(t as int), mset) =~= seq![c] + greedy_rec(
                    cands@.skip(t as int + 1),
                    mset.insert(ci as int).insert(cj as int),
                ));
                mset = mset.insert(ci as int).insert(cj as int);
                committed = committed.push(c);
                assert(committed.drop_last() + (seq![c] + greedy_rec(cands@.skip(t as int + 1), mset))
                    =~= committed + greedy_rec(cands@.skip(t as int + 1), mset));
            }
        } else {
            proof {
                assert(!pair_ok(c, mset));
                assert(greedy_rec(cands@.skip(t as int), mset) =~= greedy_rec(
                    cands@.skip(t as int + 1),
                    mset,
                ));
            }
        }
        t = t + 1;
    }
    proof {
        assert(cands@.skip(cands@.len() as int) =~= Seq::<Candidate>::empty());
        assert(greedy_rec(cands@, Set::empty()) =~= committed);
    }
    result
}

/// A greedy matcher: scores every pair of participants with its strategy,
/// then commits pairs in descending score order, skipping pairs that reuse
/// an already-matched participant.
///
/// The matcher works with any [`ScoringStrategy`]. Greedy selection trades
/// global optimality for `O(n^2 log n)` simplicity: each committed pairing
/// is the best-scoring pair among the participants still unmatched at that
/// point, which is not necessarily a maximum-weight perfect matching.
pub struct GreedyMatcher<S: ScoringStrategy> {
    /// The scoring strategy used to calculate opposition between participants.
    scorer: S,
}

impl<S: ScoringStrategy> GreedyMatcher<S> {
    /// The strategy this matcher was built with.
    pub closed spec fn spec_scorer(&self) -> S {
        self.scorer
    }

    /// Create a greedy matcher bound to the given scoring strategy.
    pub fn new(scorer: S) -> (m: GreedyMatcher<S>)
        ensures
            m.spec_scorer() == scorer,
    {
        GreedyMatcher { scorer }
    }

    /// Score every unordered pair of participants, in position order.
    fn calculate_all_pairs(&self, users: &Vec<User>) -> (r: Vec<Candidate>)
        requires
            forall|k: int| 0 <= k < users@.len() ==> (#[trigger] users@[k]).wf(),
            forall|k1: int, k2: int|
                0 <= k1 < users@.len() && 0 <= k2 < users@.len() ==> (
                #[trigger] users@[k1]).responses@.len() == (#[trigger] users@[k2]).responses@.len(),
            users@.len() >= 2 ==> self.spec_scorer().compatible(
                users@[0].responses@.len() as int,
            ),
        ensures
            r@ == all_candidates(self.spec_scorer(), users@),
    {
        let n = users.len();
        let mut pairs: Vec<Candidate> = Vec::new();
        proof {
            assert(all_candidates(self.spec_scorer(), users@) =~= pairs@ + cands_from(
                self.spec_scorer(),
                users@,
                0,
            ));
        }
        let mut i: usize = 0;
        while i < n
            invariant
                n == users@.len(),
                forall|k: int| 0 <= k < users@.len() ==> (#[trigger] users@[k]).wf(),
                forall|k1: int, k2: int|
                    0 <= k1 < users@.len() && 0 <= k2 < users@.len() ==> (
                    #[trigger] users@[k1]).responses@.len() == (
                    #[trigger] users@[k2]).responses@.len(),
                n >= 2 ==> self.spec_scorer().compatible(users@[0].responses@.len() as int),
                0 <= i <= n,
                all_candidates(self.spec_scorer(), users@) =~= pairs@ + cands_from(
                    self.spec_scorer(),
                    users@,
                    i as int,
                ),
            decreases n - i,
        {
            let mut j: usize = i + 1;
            proof {
                assert(cands_from(self.spec_scorer(), users@, i as int) =~= cand_row(
                    self.spec_scorer(),
                    users@,
                    i as int,
                    i as int + 1,
                ) + cands_from(self.spec_scorer(), users@, i as int + 1));
                assert(all_candidates(self.spec_scorer(), users@) =~= pairs@ + (cand_row(
                    self.spec_scorer(),
                    users@,
                    i as int,
                    j as int,
                ) + cands_from(self.spec_scorer(), users@, i as int + 1)));
            }
            while j < n
                invariant
                    n == users@.len(),
                    forall|k: int| 0 <= k < users@.len() ==> (#[trigger] users@[k]).wf(),
                    forall|k1: int, k2: int|
                        0 <= k1 < users@.len() && 0 <= k2 < users@.len() ==> (
                        #[trigger] users@[k1]).responses@.len() == (
                        #[trigger] users@[k2]).responses@.len(),
                    n >= 2 ==> self.spec_scorer().compatible(users@[0].responses@.len() as int),
                    0 <= i < n,
                    i < j <= n,
                    all_candidates(self.spec_scorer(), users@) =~= pairs@ + (cand_row(
                        self.spec_scorer(),
                        users@,
                        i as int,
                        j as int,
                    ) + cands_from(self.spec_scorer(), users@, i as int + 1)),
                decreases n - j,
            {
                let score = self.scorer.calculate_score(&users[i], &users[j]);
                proof {
                    assert(score == cand_score(self.spec_scorer(), users@, i as int, j as int));
                    assert(cand_row(self.spec_scorer(), users@, i as int, j as int) =~= seq![
                        (i, j, score),
                    ] + cand_row(self.spec_scorer(), users@, i as int, j as int + 1));
                    assert(pairs@.push((i, j, score)) =~= pairs@ + seq![(i, j, score)]);
                    assert(all_candidates(self.spec_scorer(), users@) =~= pairs@.push((i, j, score))
                        + (cand_row(self.spec_scorer(), users@, i as int, j as int + 1)
                        + cands_from(self.spec_scorer(), users@, i as int + 1)));
                }
                pairs.push((i, j, score));
                j = j + 1;
            }
            proof {
                assert(cand_row(self.spec_scorer(), users@, i as int, j as int) =~= Seq::<
                    Candidate,
                >::empty());
                assert(all_candidates(self.spec_scorer(), users@) =~= pairs@ + cands_from(
                    self.spec_scorer(),
                    users@,
                    i as int + 1,
                ));
            }
            i = i + 1;
        }
        proof {
            assert(cands_from(self.spec_scorer(), users@, n as int) =~= Seq::<Candidate>::empty());
            assert(all_candidates(self.spec_scorer(), users@) =~= pairs@);
        }
        pairs
    }

    /// Find matches for all participants using the greedy algorithm.
    ///
    /// Fewer than two participants yield no pairings; an odd participant
    /// count leaves exactly one participant unmatched. The result is exactly
    /// [`find_matches_spec`] of the input: candidates in descending score
    /// order, equal scores kept in position order, each pair committed when
    /// both participants are still unmatched. Pairings are tracked by
    /// position in `users`; identities are expected to be distinct and
    /// duplicates are not deduplicated.
    pub fn find_matches(&self, users: &Vec<User>) -> (r: Vec<Match>)
        requires
            forall|k: int| 0 <= k < users@.len() ==> (#[trigger] users@[k]).wf(),
            forall|k1: int, k2: int|
                0 <= k1 < users@.len() && 0 <= k2 < users@.len() ==> (
                #[trigger] users@[k1]).responses@.len() == (#[trigger] users@[k2]).responses@.len(),
            users@.len() >= 2 ==> self.spec_scorer().compatible(
                users@[0].responses@.len() as int,
            ),
        ensures
            matches_correspond(r@, find_matches_spec(self.spec_scorer(), users@), users@),
            r@.len() == users@.len() as int / 2,
            forall|k1: int, k2: int|
                0 <= k1 < k2 < r@.len() ==> (#[trigger] r@[k1]).score >= (#[trigger] r@[k2]).score,
    {
        let n = users.len();
        if n < 2 {
            let empty_result: Vec<Match> = Vec::new();
            proof {
                if n == 1 {
                    assert(cand_row(self.spec_scorer(), users@, 0, 1) =~= Seq::<Candidate>::empty());
                    assert(cands_from(self.spec_scorer(), users@, 1) =~= Seq::<Candidate>::empty());
                }
                assert(all_candidates(self.spec_scorer(), users@) =~= Seq::<Candidate>::empty());
                assert(find_matches_spec(self.spec_scorer(), users@) =~= Seq::<Candidate>::empty());
            }
            return empty_result;
        }
        let mut pairs = self.calculate_all_pairs(users);
        sort_candidates(&mut pairs);
        proof {
            lemma_sorted_candidates_props(self.spec_scorer(), users@);
            assert(pairs@ == sort_desc(all_candidates(self.spec_scorer(), users@)));
        }
        let result = greedy_select(users, pairs);
        proof {
            lemma_match_count(self.spec_scorer(), users@);
            lemma_matches_sorted(self.spec_scorer(), users@);
            let committed = find_matches_spec(self.spec_scorer(), users@);
            assert forall|k1: int, k2: int| 0 <= k1 < k2 < result@.len() implies (
            #[trigger] result@[k1]).score >= (#[trigger] result@[k2]).score by {
                assert(result@[k1].score == committed[k1].2);
                assert(result@[k2].score == committed[k2].2);
                assert(committed[k1].2 >= committed[k2].2);
            }
        }
        result
    }
}

} // verus!
