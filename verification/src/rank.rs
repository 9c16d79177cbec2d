//! Ranking of the corpus against a query: fuzzy scoring through an outside
//! matcher, ordering by descending score with original corpus order as the
//! tiebreak, and the exclusion laws of the match.

use vstd::prelude::*;

verus! {

/// Lower-cases an ASCII upper-case code point, leaves everything else alone.
pub open spec fn lower_code(u: u32) -> u32 {
    if 0x41 <= u <= 0x5A {
        (u + 0x20) as u32
    } else {
        u
    }
}

/// ASCII upper-case character.
pub open spec fn is_ascii_upper(c: char) -> bool {
    0x41 <= c as u32 <= 0x5A
}

/// True when the sequence holds at least one ASCII upper-case character: the
/// matcher then respects case ("smart case").
pub open spec fn has_ascii_upper(s: Seq<char>) -> bool {
    exists|i: int| 0 <= i < s.len() && is_ascii_upper(#[trigger] s[i])
}

/// Character comparison of the matcher: exact when case-sensitive, otherwise
/// ASCII-case-insensitive.
pub open spec fn chars_match(a: char, b: char, case_sensitive: bool) -> bool {
    if case_sensitive {
        a == b
    } else {
        lower_code(a as u32) == lower_code(b as u32)
    }
}

/// Greedy subsequence match: every pattern character is found, in order, in
/// the choice, under the given character comparison.
pub open spec fn subseq_match(pattern: Seq<char>, choice: Seq<char>, case_sensitive: bool) -> bool
    decreases choice.len(),
{
    if pattern.len() == 0 {
        true
    } else if choice.len() == 0 {
        false
    } else if chars_match(choice[0], pattern[0], case_sensitive) {
        subseq_match(pattern.drop_first(), choice.drop_first(), case_sensitive)
    } else {
        subseq_match(pattern, choice.drop_first(), case_sensitive)
    }
}

/// True when the matcher finds the pattern in the choice: an empty pattern
/// always matches; otherwise the pattern must be a subsequence of the choice
/// under smart-case comparison.
pub open spec fn fuzzy_matches(choice: Seq<char>, pattern: Seq<char>) -> bool {
    pattern.len() == 0 || subseq_match(pattern, choice, has_ascii_upper(pattern))
}

/// The score the matcher gives a matching (choice, pattern) pair; a function
/// of the two character sequences alone.
pub uninterp spec fn fuzzy_score_of(choice: Seq<char>, pattern: Seq<char>) -> int;

/// Relies on fuzzy_matcher's `SkimMatcherV2::fuzzy_match` with the default
/// settings: the result is a function of the two character sequences alone;
/// it is `Some` exactly when the pattern is empty or is a subsequence of the
/// choice under smart-case ASCII comparison (case-sensitive when the pattern
/// holds an ASCII upper-case character); an empty pattern scores 0.
#[verifier::external_body]
fn fuzzy_match(choice: &str, pattern: &str) -> (r: Option<i64>)
    ensures
        r is Some <==> fuzzy_matches(choice@, pattern@),
        r matches Some(s) ==> s == fuzzy_score_of(choice@, pattern@),
        pattern@.len() == 0 ==> r == Some(0i64),
{
    let matcher = fuzzy_matcher::skim::SkimMatcherV2::default();
    fuzzy_matcher::FuzzyMatcher::fuzzy_match(&matcher, choice, pattern)
}

/// `idx` picks out, in strictly increasing order, one choice position per
/// pattern character, each matching under the given comparison.
pub open spec fn subsequence_witness(
    pattern: Seq<char>,
    choice: Seq<char>,
    idx: Seq<int>,
    case_sensitive: bool,
) -> bool {
    &&& idx.len() == pattern.len()
    &&& (forall|k: int| 0 <= k < idx.len() ==> 0 <= #[trigger] idx[k] < choice.len())
    &&& (forall|k: int| 0 <= k && k + 1 < idx.len() ==> #[trigger] idx[k] < idx[k + 1])
    &&& (forall|k: int|
        0 <= k < idx.len() ==> chars_match(choice[#[trigger] idx[k]], pattern[k], case_sensitive))
}

/// The pattern occurs as a subsequence of the choice, under the given
/// comparison.
pub open spec fn has_subsequence(pattern: Seq<char>, choice: Seq<char>, case_sensitive: bool) -> bool {
    exists|idx: Seq<int>| subsequence_witness(pattern, choice, idx, case_sensitive)
}

/// A greedy match yields a subsequence witness.
#[verifier::rlimit(50)]
#[verifier::spinoff_prover]
pub proof fn lemma_match_implies_subsequence(pattern: Seq<char>, choice: Seq<char>, cs: bool)
    requires
        subseq_match(pattern, choice, cs),
    ensures
        has_subsequence(pattern, choice, cs),
    decreases choice.len(),
{
    if pattern.len() == 0 {
        let idx = Seq::<int>::empty();
        assert(subsequence_witness(pattern, choice, idx, cs));
    } else if chars_match(choice[0], pattern[0], cs) {
        lemma_match_implies_subsequence(pattern.drop_first(), choice.drop_first(), cs);
        let idx0 = choose|idx: Seq<int>|
            subsequence_witness(pattern.drop_first(), choice.drop_first(), idx, cs);
        let idx = seq![0int].add(idx0.map_values(|x: int| x + 1));
        assert forall|k: int| 0 <= k < idx.len() implies 0 <= #[trigger] idx[k] < choice.len() by {
            if k > 0 {
                assert(idx[k] == idx0[k - 1] + 1);
            }
        }
        assert forall|k: int| 0 <= k && k + 1 < idx.len() implies #[trigger] idx[k] < idx[k + 1] by {
            if k > 0 {
                assert(idx[k] == idx0[k - 1] + 1);
            }
            assert(idx[k + 1] == idx0[k] + 1);
        }
        assert forall|k: int| 0 <= k < idx.len() implies chars_match(
            choice[#[trigger] idx[k]],
            pattern[k],
            cs,
        ) by {
            if k > 0 {
                assert(idx[k] == idx0[k - 1] + 1);
                assert(choice[idx0[k - 1] + 1] == choice.drop_first()[idx0[k - 1]]);
                assert(pattern[k] == pattern.drop_first()[k - 1]);
            }
        }
        assert(subsequence_witness(pattern, choice, idx, cs));
    } else {
        lemma_match_implies_subsequence(pattern, choice.drop_first(), cs);
        let idx0 = choose|idx: Seq<int>|
            subsequence_witness(pattern, choice.drop_first(), idx, cs);
        let idx = idx0.map_values(|x: int| x + 1);
        assert forall|k: int| 0 <= k < idx.len() implies chars_match(
            choice[#[trigger] idx[k]],
            pattern[k],
            cs,
        ) by {
            assert(idx[k] == idx0[k] + 1);
            assert(choice[idx0[k] + 1] == choice.drop_first()[idx0[k]]);
        }
        assert(subsequence_witness(pattern, choice, idx, cs));
    }
}

/// In a strictly increasing index sequence, the `k`th element is at least
/// `k` above the first.
proof fn lemma_idx_growth(idx: Seq<int>, k: int)
    requires
        0 <= k < idx.len(),
        forall|t: int| 0 <= t && t + 1 < idx.len() ==> #[trigger] idx[t] < idx[t + 1],
    ensures
        idx[k] >= idx[0] + k,
    decreases k,
{
    if k > 0 {
        lemma_idx_growth(idx, k - 1);
    }
}

/// A subsequence witness makes the greedy match succeed.
#[verifier::rlimit(50)]
#[verifier::spinoff_prover]
pub proof fn lemma_subsequence_implies_match(pattern: Seq<char>, choice: Seq<char>, cs: bool)
    requires
        has_subsequence(pattern, choice, cs),
    ensures
        subseq_match(pattern, choice, cs),
    decreases choice.len(),
{
    if pattern.len() != 0 {
        let idx = choose|idx: Seq<int>| subsequence_witness(pattern, choice, idx, cs);
        assert(0 <= idx[0] < choice.len());
        if chars_match(choice[0], pattern[0], cs) {
            let idx2 = idx.drop_first().map_values(|x: int| x - 1);
            assert forall|k: int| 0 <= k < idx2.len() implies 0 <= #[trigger] idx2[k]
                < choice.drop_first().len() by {
                assert(idx2[k] == idx[k + 1] - 1);
                lemma_idx_growth(idx, k + 1);
            }
            assert forall|k: int| 0 <= k && k + 1 < idx2.len() implies #[trigger] idx2[k] < idx2[k
                + 1] by {
                assert(idx2[k] == idx[k + 1] - 1);
                assert(idx2[k + 1] == idx[k + 2] - 1);
            }
            assert forall|k: int| 0 <= k < idx2.len() implies chars_match(
                choice.drop_first()[#[trigger] idx2[k]],
                pattern.drop_first()[k],
                cs,
            ) by {
                assert(idx2[k] == idx[k + 1] - 1);
                lemma_idx_growth(idx, k + 1);
                assert(choice.drop_first()[idx[k + 1] - 1] == choice[idx[k + 1]]);
                assert(pattern.drop_first()[k] == pattern[k + 1]);
            }
            assert(subsequence_witness(pattern.drop_first(), choice.drop_first(), idx2, cs));
            lemma_subsequence_implies_match(pattern.drop_first(), choice.drop_first(), cs);
        } else {
            assert(idx[0] >= 1);
            let idx2 = idx.map_values(|x: int| x - 1);
            assert forall|k: int| 0 <= k < idx2.len() implies 0 <= #[trigger] idx2[k]
                < choice.drop_first().len() by {
                assert(idx2[k] == idx[k] - 1);
                lemma_idx_growth(idx, k);
            }
            assert forall|k: int| 0 <= k && k + 1 < idx2.len() implies #[trigger] idx2[k] < idx2[k
                + 1] by {
                assert(idx2[k] == idx[k] - 1);
                assert(idx2[k + 1] == idx[k + 1] - 1);
            }
            assert forall|k: int| 0 <= k < idx2.len() implies chars_match(
                choice.drop_first()[#[trigger] idx2[k]],
                pattern[k],
                cs,
            ) by {
                assert(idx2[k] == idx[k] - 1);
                lemma_idx_growth(idx, k);
                assert(choice.drop_first()[idx[k] - 1] == choice[idx[k]]);
            }
            assert(subsequence_witness(pattern, choice.drop_first(), idx2, cs));
            lemma_subsequence_implies_match(pattern, choice.drop_first(), cs);
        }
    }
}

/// Strict ranking order on (score, corpus index) pairs: higher score first,
/// earlier corpus position first among equal scores.
pub open spec fn pair_before(a: (int, int), b: (int, int)) -> bool {
    a.0 > b.0 || (a.0 == b.0 && a.1 < b.1)
}

/// Inserts a pair in front of the first element it ranks before.
pub open spec fn insert_pair(x: (int, int), s: Seq<(int, int)>) -> Seq<(int, int)>
    decreases s.len(),
{
    if s.len() == 0 {
        seq![x]
    } else if pair_before(x, s[0]) {
        seq![x].add(s)
    } else {
        seq![s[0]].add(insert_pair(x, s.drop_first()))
    }
}

/// The ranked (score, corpus index) pairs of the corpus positions from `i`
/// on, inserted one by one into `acc`.
pub open spec fn rank_pairs_from(
    cv: Seq<Seq<char>>,
    q: Seq<char>,
    i: int,
    acc: Seq<(int, int)>,
) -> Seq<(int, int)>
    decreases cv.len() - i,
{
    if i < 0 || i >= cv.len() {
        acc
    } else {
        let acc2 = if fuzzy_matches(cv[i], q) {
            insert_pair((fuzzy_score_of(cv[i], q), i), acc)
        } else {
            acc
        };
        rank_pairs_from(cv, q, i + 1, acc2)
    }
}

/// All (score, corpus index) pairs of the matching corpus entries, ordered
/// by descending score with corpus order as the tiebreak.
pub open spec fn rank_pairs(cv: Seq<Seq<char>>, q: Seq<char>) -> Seq<(int, int)> {
    rank_pairs_from(cv, q, 0, Seq::empty())
}

/// The ranked view of a corpus under a query: the corpus itself for the
/// empty query, otherwise the matching entries by descending score.
pub open spec fn ranked_view(cv: Seq<Seq<char>>, q: Seq<char>) -> Seq<Seq<char>> {
    if q.len() == 0 {
        cv
    } else {
        rank_pairs(cv, q).map_values(|p: (int, int)| cv[p.1])
    }
}

/// An empty query ranks the corpus as it is.
pub proof fn lemma_empty_query_identity(cv: Seq<Seq<char>>)
    ensures
        ranked_view(cv, Seq::<char>::empty()) == cv,
{
}

/// Every pair names a matching corpus entry and carries its score.
pub open spec fn pairs_wf(ps: Seq<(int, int)>, cv: Seq<Seq<char>>, q: Seq<char>) -> bool {
    forall|k: int|
        0 <= k < ps.len() ==> {
            let p = #[trigger] ps[k];
            &&& 0 <= p.1 < cv.len()
            &&& fuzzy_matches(cv[p.1], q)
            &&& p.0 == fuzzy_score_of(cv[p.1], q)
        }
}

/// Pairs stand in strictly descending rank order.
pub open spec fn pairs_sorted(ps: Seq<(int, int)>) -> bool {
    forall|i: int, j: int| 0 <= i < j < ps.len() ==> pair_before(#[trigger] ps[i], #[trigger] ps[j])
}

/// Inserting keeps well-formedness and adds the new pair.
proof fn lemma_insert_pair_wf(x: (int, int), ps: Seq<(int, int)>, cv: Seq<Seq<char>>, q: Seq<char>)
    requires
        pairs_wf(ps, cv, q),
        0 <= x.1 < cv.len(),
        fuzzy_matches(cv[x.1], q),
        x.0 == fuzzy_score_of(cv[x.1], q),
    ensures
        pairs_wf(insert_pair(x, ps), cv, q),
    decreases ps.len(),
{
    if ps.len() != 0 && !pair_before(x, ps[0]) {
        lemma_insert_pair_wf(x, ps.drop_first(), cv, q);
        let r = seq![ps[0]].add(insert_pair(x, ps.drop_first()));
        assert forall|k: int| 0 <= k < r.len() implies {
            let p = #[trigger] r[k];
            &&& 0 <= p.1 < cv.len()
            &&& fuzzy_matches(cv[p.1], q)
            &&& p.0 == fuzzy_score_of(cv[p.1], q)
        } by {
            if k > 0 {
                assert(r[k] == insert_pair(x, ps.drop_first())[k - 1]);
            }
        }
    }
}

/// Inserting into a sorted sequence keeps it sorted, provided the new pair
/// ranks differently from every present pair.
proof fn lemma_insert_pair_sorted(x: (int, int), ps: Seq<(int, int)>)
    requires
        pairs_sorted(ps),
        forall|k: int| 0 <= k < ps.len() ==> #[trigger] ps[k] != x,
    ensures
        pairs_sorted(insert_pair(x, ps)),
    decreases ps.len(),
{
    if ps.len() != 0 {
        if pair_before(x, ps[0]) {
            let r = seq![x].add(ps);
            assert forall|i: int, j: int| 0 <= i < j < r.len() implies pair_before(
                #[trigger] r[i],
                #[trigger] r[j],
            ) by {
                if i > 0 {
                    assert(r[i] == ps[i - 1]);
                    assert(r[j] == ps[j - 1]);
                } else {
                    assert(r[j] == ps[j - 1]);
                    if j > 1 {
                        assert(pair_before(ps[0], ps[j - 1]));
                    }
                }
            }
        } else {
            assert(pairs_sorted(ps.drop_first()));
            lemma_insert_pair_sorted(x, ps.drop_first());
            let inner = insert_pair(x, ps.drop_first());
            let r = seq![ps[0]].add(inner);
            // ps[0] ranks before x (the order is total on distinct pairs) and
            // before every element of the sorted tail.
            assert(pair_before(ps[0], x)) by {
                assert(ps[0] != x);
            }
            assert forall|i: int, j: int| 0 <= i < j < r.len() implies pair_before(
                #[trigger] r[i],
                #[trigger] r[j],
            ) by {
                if i > 0 {
                    assert(r[i] == inner[i - 1]);
                    assert(r[j] == inner[j - 1]);
                } else {
                    assert(r[j] == inner[j - 1]);
                    lemma_insert_pair_members(x, ps.drop_first(), inner[j - 1]);
                }
            }
        }
    }
}

/// A member of an insertion result is the inserted pair or a member of the
/// original sequence.
proof fn lemma_insert_pair_members(x: (int, int), ps: Seq<(int, int)>, y: (int, int))
    requires
        insert_pair(x, ps).contains(y),
    ensures
        y == x || ps.contains(y),
    decreases ps.len(),
{
    let r = insert_pair(x, ps);
    let i = choose|i: int| 0 <= i < r.len() && r[i] == y;
    if ps.len() == 0 {
    } else if pair_before(x, ps[0]) {
        if i > 0 {
            assert(ps[i - 1] == y);
        }
    } else {
        if i > 0 {
            assert(r[i] == insert_pair(x, ps.drop_first())[i - 1]);
            assert(insert_pair(x, ps.drop_first()).contains(y));
            lemma_insert_pair_members(x, ps.drop_first(), y);
            if ps.drop_first().contains(y) {
                let j = choose|j: int| 0 <= j < ps.drop_first().len() && ps.drop_first()[j] == y;
                assert(ps[j + 1] == y);
            }
        } else {
            assert(ps[0] == y);
        }
    }
}

/// The accumulated ranking is well formed and sorted, and distinct corpus
/// indices keep their pairs distinct.
proof fn lemma_rank_pairs_from_wf(cv: Seq<Seq<char>>, q: Seq<char>, i: int, acc: Seq<(int, int)>)
    requires
        pairs_wf(acc, cv, q),
        pairs_sorted(acc),
        forall|k: int| 0 <= k < acc.len() ==> #[trigger] acc[k].1 < i,
    ensures
        pairs_wf(rank_pairs_from(cv, q, i, acc), cv, q),
        pairs_sorted(rank_pairs_from(cv, q, i, acc)),
    decreases cv.len() - i,
{
    if 0 <= i < cv.len() {
        if fuzzy_matches(cv[i], q) {
            let x = (fuzzy_score_of(cv[i], q), i);
            lemma_insert_pair_wf(x, acc, cv, q);
            assert forall|k: int| 0 <= k < acc.len() implies #[trigger] acc[k] != x by {
                assert(acc[k].1 < i);
            }
            lemma_insert_pair_sorted(x, acc);
            let acc2 = insert_pair(x, acc);
            assert forall|k: int| 0 <= k < acc2.len() implies #[trigger] acc2[k].1 < i + 1 by {
                assert(acc2.contains(acc2[k]));
                lemma_insert_pair_members(x, acc, acc2[k]);
                if acc.contains(acc2[k]) {
                    let j = choose|j: int| 0 <= j < acc.len() && acc[j] == acc2[k];
                    assert(acc[j].1 < i);
                }
            }
            lemma_rank_pairs_from_wf(cv, q, i + 1, acc2);
        } else {
            lemma_rank_pairs_from_wf(cv, q, i + 1, acc);
        }
    }
}

/// The full ranking is well formed and strictly ordered.
pub proof fn lemma_rank_pairs_wf(cv: Seq<Seq<char>>, q: Seq<char>)
    ensures
        pairs_wf(rank_pairs(cv, q), cv, q),
        pairs_sorted(rank_pairs(cv, q)),
{
    lemma_rank_pairs_from_wf(cv, q, 0, Seq::empty());
}

/// Exclusion: an entry in which the matcher's smart-case comparison finds no
/// subsequence equal to the (non-empty) query is absent from the ranked view.
pub proof fn lemma_exclusion(cv: Seq<Seq<char>>, query: Seq<char>, entry: Seq<char>)
    requires
        query.len() > 0,
        !has_subsequence(query, entry, has_ascii_upper(query)),
    ensures
        !ranked_view(cv, query).contains(entry),
{
    if ranked_view(cv, query).contains(entry) {
        lemma_rank_pairs_wf(cv, query);
        let rv = ranked_view(cv, query);
        let i = choose|i: int| 0 <= i < rv.len() && rv[i] == entry;
        let p = rank_pairs(cv, query)[i];
        assert(fuzzy_matches(cv[p.1], query));
        assert(subseq_match(query, entry, has_ascii_upper(query)));
        lemma_match_implies_subsequence(query, entry, has_ascii_upper(query));
    }
}

/// Exclusion in its plainest form: when the query holds an ASCII upper-case
/// character the matcher compares characters exactly, so an entry of which
/// the query is not a plain subsequence is absent from the ranked view.
pub proof fn lemma_exclusion_exact(cv: Seq<Seq<char>>, query: Seq<char>, entry: Seq<char>)
    requires
        query.len() > 0,
        has_ascii_upper(query),
        !has_subsequence(query, entry, true),
    ensures
        !ranked_view(cv, query).contains(entry),
{
    lemma_exclusion(cv, query, entry);
}

/// Insertion keeps every present pair.
proof fn lemma_insert_pair_superset(x: (int, int), ps: Seq<(int, int)>, y: (int, int))
    requires
        ps.contains(y),
    ensures
        insert_pair(x, ps).contains(y),
    decreases ps.len(),
{
    let i = choose|i: int| 0 <= i < ps.len() && ps[i] == y;
    if pair_before(x, ps[0]) {
        assert(insert_pair(x, ps)[i + 1] == y);
    } else if i == 0 {
        assert(insert_pair(x, ps)[0] == y);
    } else {
        assert(ps.drop_first()[i - 1] == y);
        lemma_insert_pair_superset(x, ps.drop_first(), y);
        let j = choose|j: int|
            0 <= j < insert_pair(x, ps.drop_first()).len() && insert_pair(x, ps.drop_first())[j]
                == y;
        assert(insert_pair(x, ps)[j + 1] == y);
    }
}

/// Insertion puts the new pair in.
proof fn lemma_insert_pair_has_x(x: (int, int), ps: Seq<(int, int)>)
    ensures
        insert_pair(x, ps).contains(x),
    decreases ps.len(),
{
    if ps.len() == 0 {
        assert(insert_pair(x, ps)[0] == x);
    } else if pair_before(x, ps[0]) {
        assert(insert_pair(x, ps)[0] == x);
    } else {
        lemma_insert_pair_has_x(x, ps.drop_first());
        let j = choose|j: int|
            0 <= j < insert_pair(x, ps.drop_first()).len() && insert_pair(x, ps.drop_first())[j]
                == x;
        assert(insert_pair(x, ps)[j + 1] == x);
    }
}

/// Ranking from position `j` on keeps every pair already accumulated.
proof fn lemma_rank_pairs_from_keeps(
    cv: Seq<Seq<char>>,
    q: Seq<char>,
    j: int,
    acc: Seq<(int, int)>,
    y: (int, int),
)
    requires
        acc.contains(y),
    ensures
        rank_pairs_from(cv, q, j, acc).contains(y),
    decreases cv.len() - j,
{
    if 0 <= j < cv.len() {
        if fuzzy_matches(cv[j], q) {
            let x = (fuzzy_score_of(cv[j], q), j);
            lemma_insert_pair_superset(x, acc, y);
            lemma_rank_pairs_from_keeps(cv, q, j + 1, insert_pair(x, acc), y);
        } else {
            lemma_rank_pairs_from_keeps(cv, q, j + 1, acc, y);
        }
    }
}

/// Ranking from position `j` on picks up the pair of every matching entry at
/// or after `j`.
proof fn lemma_rank_pairs_from_includes(
    cv: Seq<Seq<char>>,
    q: Seq<char>,
    j: int,
    acc: Seq<(int, int)>,
    i: int,
)
    requires
        0 <= j <= i < cv.len(),
        fuzzy_matches(cv[i], q),
    ensures
        rank_pairs_from(cv, q, j, acc).contains((fuzzy_score_of(cv[i], q), i)),
    decreases i - j,
{
    let x = (fuzzy_score_of(cv[i], q), i);
    if j == i {
        lemma_insert_pair_has_x(x, acc);
        lemma_rank_pairs_from_keeps(cv, q, i + 1, insert_pair(x, acc), x);
    } else {
        if fuzzy_matches(cv[j], q) {
            lemma_rank_pairs_from_includes(
                cv,
                q,
                j + 1,
                insert_pair((fuzzy_score_of(cv[j], q), j), acc),
                i,
            );
        } else {
            lemma_rank_pairs_from_includes(cv, q, j + 1, acc, i);
        }
    }
}

/// Inclusion: every corpus entry the matcher accepts appears in the ranked
/// view.
pub proof fn lemma_match_included(cv: Seq<Seq<char>>, q: Seq<char>, i: int)
    requires
        q.len() > 0,
        0 <= i < cv.len(),
        fuzzy_matches(cv[i], q),
    ensures
        ranked_view(cv, q).contains(cv[i]),
{
    lemma_rank_pairs_from_includes(cv, q, 0, Seq::empty(), i);
    let ps = rank_pairs(cv, q);
    let k = choose|k: int| 0 <= k < ps.len() && ps[k] == (fuzzy_score_of(cv[i], q), i);
    assert(ranked_view(cv, q)[k] == cv[i]);
}

/// View of executable (score, index) pairs as mathematical pairs.
pub open spec fn pv(s: Seq<(i64, usize)>) -> Seq<(int, int)> {
    s.map_values(|p: (i64, usize)| (p.0 as int, p.1 as int))
}

/// Where the first `j` elements rank no later than `x` and the `j`th (when
/// there is one) ranks after it, inserting lands exactly at position `j`.
proof fn lemma_insert_pair_at(x: (int, int), s: Seq<(int, int)>, j: int)
    requires
        0 <= j <= s.len(),
        forall|k: int| 0 <= k < j ==> !pair_before(x, #[trigger] s[k]),
        j < s.len() ==> pair_before(x, s[j]),
    ensures
        insert_pair(x, s) == s.take(j).add(seq![x]).add(s.skip(j)),
    decreases j,
{
    if j == 0 {
        if s.len() == 0 {
            assert(insert_pair(x, s) =~= s.take(0).add(seq![x]).add(s.skip(0)));
        } else {
            assert(insert_pair(x, s) == seq![x].add(s));
            assert(seq![x].add(s) =~= s.take(0).add(seq![x]).add(s.skip(0)));
        }
    } else {
        let t = s.drop_first();
        assert(forall|k: int| 0 <= k < j - 1 ==> !pair_before(x, #[trigger] t[k]));
        assert(j - 1 < t.len() ==> pair_before(x, t[j - 1]));
        lemma_insert_pair_at(x, t, j - 1);
        assert(insert_pair(x, s) == seq![s[0]].add(insert_pair(x, t)));
        assert(seq![s[0]].add(t.take(j - 1).add(seq![x]).add(t.skip(j - 1))) =~= s.take(j).add(
            seq![x],
        ).add(s.skip(j)));
    }
}

/// First position whose pair ranks after `(score, idx)`.
fn find_insert_pos(pairs: &Vec<(i64, usize)>, score: i64, idx: usize) -> (j: usize)
    ensures
        j <= pairs@.len(),
        forall|k: int| 0 <= k < j ==> !pair_before((score as int, idx as int), #[trigger] pv(pairs@)[k]),
        j < pairs@.len() ==> pair_before((score as int, idx as int), pv(pairs@)[j as int]),
{
    let mut j: usize = 0;
    while j < pairs.len()
        invariant
            j <= pairs@.len(),
            forall|k: int|
                0 <= k < j ==> !pair_before((score as int, idx as int), #[trigger] pv(pairs@)[k]),
        decreases pairs@.len() - j,
    {
        let (s, i) = pairs[j];
        if score > s || (score == s && idx < i) {
            assert(pair_before((score as int, idx as int), pv(pairs@)[j as int]));
            return j;
        }
        assert(!pair_before((score as int, idx as int), pv(pairs@)[j as int]));
        j += 1;
    }
    j
}

/// Inserts a scored corpus index at its rank.
fn insert_ranked(pairs: &mut Vec<(i64, usize)>, score: i64, idx: usize)
    ensures
        pv(final(pairs)@) == insert_pair((score as int, idx as int), pv(old(pairs)@)),
{
    let ghost orig = pv(pairs@);
    let ghost x = (score as int, idx as int);
    let j = find_insert_pos(pairs, score, idx);
    pairs.insert(j, (score, idx));
    proof {
        lemma_insert_pair_at(x, orig, j as int);
        assert(pv(pairs@) =~= orig.take(j as int).add(seq![x]).add(orig.skip(j as int)));
    }
}

/// Ranks the corpus against a query. An empty query returns the corpus in
/// its own order; otherwise the entries the matcher accepts are returned in
/// descending score order, ties broken by corpus order.
pub fn rank(corpus: &Vec<String>, query: &String) -> (r: Vec<String>)
    ensures
        r.deep_view() == ranked_view(corpus.deep_view(), query@),
{
    let ghost cv = corpus.deep_view();
    let ghost q = query@;
    if query.as_str().is_empty() {
        let r = corpus.clone();
        proof {
            assert forall|k: int| 0 <= k < cv.len() implies r.deep_view()[k] == cv[k] by {
                assert(cloned::<String>(corpus@[k], r@[k]));
            }
            assert(r.deep_view() =~= cv);
        }
        return r;
    }
    let mut pairs: Vec<(i64, usize)> = Vec::new();
    let mut i: usize = 0;
    proof {
        assert(pv(pairs@) =~= Seq::<(int, int)>::empty());
    }
    while i < corpus.len()
        invariant
            0 <= i <= cv.len(),
            cv == corpus.deep_view(),
            cv.len() == corpus@.len(),
            q == query@,
            rank_pairs(cv, q) == rank_pairs_from(cv, q, i as int, pv(pairs@)),
        decreases cv.len() - i,
    {
        proof {
            assert(cv[i as int] =~= corpus@[i as int]@);
        }
        match fuzzy_match(corpus[i].as_str(), query.as_str()) {
            Some(score) => {
                insert_ranked(&mut pairs, score, i);
            },
            None => {},
        }
        i += 1;
    }
    proof {
        lemma_rank_pairs_wf(cv, q);
    }
    let ghost ps = rank_pairs(cv, q);
    assert(pv(pairs@) == ps);
    let mut r: Vec<String> = Vec::new();
    let mut k: usize = 0;
    while k < pairs.len()
        invariant
            0 <= k <= pairs@.len(),
            cv == corpus.deep_view(),
            cv.len() == corpus@.len(),
            pv(pairs@) == ps,
            pairs_wf(ps, cv, q),
            r.deep_view().len() == k,
            forall|t: int| 0 <= t < k ==> r.deep_view()[t] == cv[ps[t].1],
        decreases pairs@.len() - k,
    {
        assert(ps[k as int] == (pairs@[k as int].0 as int, pairs@[k as int].1 as int));
        let (_, idx) = pairs[k];
        let s = corpus[idx].clone();
        let ghost prev = r.deep_view();
        r.push(s);
        proof {
            assert(r.deep_view() =~= prev.push(s@));
            assert(s@ =~= cv[ps[k as int].1]);
        }
        k += 1;
    }
    assert(r.deep_view() =~= ps.map_values(|p: (int, int)| cv[p.1]));
    r
}

/// Inclusion, by witness: an entry of which the (non-empty) query is a
/// subsequence under the matcher's smart-case comparison is present in the
/// ranked view.
pub proof fn lemma_subsequence_included(cv: Seq<Seq<char>>, q: Seq<char>, i: int)
    requires
        q.len() > 0,
        0 <= i < cv.len(),
        has_subsequence(q, cv[i], has_ascii_upper(q)),
    ensures
        ranked_view(cv, q).contains(cv[i]),
{
    lemma_subsequence_implies_match(q, cv[i], has_ascii_upper(q));
    lemma_match_included(cv, q, i);
}

/// The ranked view is ordered by weakly descending score.
pub proof fn lemma_ranked_descending(cv: Seq<Seq<char>>, q: Seq<char>, i: int, j: int)
    requires
        q.len() > 0,
        0 <= i < j < ranked_view(cv, q).len(),
    ensures
        fuzzy_score_of(ranked_view(cv, q)[i], q) >= fuzzy_score_of(ranked_view(cv, q)[j], q),
{
    lemma_rank_pairs_wf(cv, q);
    let ps = rank_pairs(cv, q);
    assert(pair_before(ps[i], ps[j]));
    assert(ranked_view(cv, q)[i] == cv[ps[i].1]);
    assert(ranked_view(cv, q)[j] == cv[ps[j].1]);
}

} // verus!
