//! The run-level laws of the merge: completion order does not change the
//! output, and duplicate reporting is exact.

use vstd::prelude::*;
use crate::merge::OutcomeView;
use crate::merge::in_merged;
use crate::merge::is_duplicate;
use crate::merge::kept_lines;
use crate::merge::line_count;
use crate::merge::outcome_lines;
use crate::order::join_lines;
use crate::order::lemma_sorted_unique;
use crate::order::sorted_lex;

verus! {

proof fn lemma_kept_lines_remove(rs: Seq<OutcomeView>, k: int)
    requires
        0 <= k < rs.len(),
    ensures
        kept_lines(rs).to_multiset() == kept_lines(rs.remove(k)).to_multiset().add(
            outcome_lines(rs[k]).to_multiset(),
        ),
    decreases k,
{
    broadcast use vstd::multiset::group_multiset_axioms;

    if k == 0 {
        assert(rs.remove(0) =~= rs.drop_first());
        vstd::seq_lib::lemma_multiset_commutative(outcome_lines(rs[0]), kept_lines(
            rs.drop_first(),
        ));
        assert(kept_lines(rs).to_multiset() =~= kept_lines(rs.remove(0)).to_multiset().add(
            outcome_lines(rs[0]).to_multiset(),
        ));
    } else {
        let tail = rs.drop_first();
        lemma_kept_lines_remove(tail, k - 1);
        assert(rs.remove(k).drop_first() =~= tail.remove(k - 1));
        assert(rs.remove(k)[0] == rs[0]);
        assert(rs.remove(k).len() > 0);
        assert(rs[k] == tail[k - 1]);
        vstd::seq_lib::lemma_multiset_commutative(outcome_lines(rs[0]), kept_lines(tail));
        vstd::seq_lib::lemma_multiset_commutative(outcome_lines(rs[0]), kept_lines(
            tail.remove(k - 1),
        ));
        assert(kept_lines(rs).to_multiset() =~= kept_lines(rs.remove(k)).to_multiset().add(
            outcome_lines(rs[k]).to_multiset(),
        ));
    }
}

proof fn lemma_kept_permutation(a: Seq<OutcomeView>, b: Seq<OutcomeView>)
    requires
        a.to_multiset() == b.to_multiset(),
    ensures
        kept_lines(a).to_multiset() == kept_lines(b).to_multiset(),
    decreases a.len(),
{
    broadcast use vstd::seq_lib::group_to_multiset_ensures;
    broadcast use vstd::multiset::group_multiset_axioms;

    if a.len() == 0 {
        assert(a.to_multiset().len() == 0);
        assert(b.len() == 0);
        assert(kept_lines(a) =~= kept_lines(b));
    } else {
        let ov = a[0];
        assert(a.contains(ov));
        assert(a.to_multiset().count(ov) > 0);
        assert(b.to_multiset().count(ov) > 0);
        assert(b.contains(ov));
        let k = choose|k: int| 0 <= k < b.len() && b[k] == ov;
        assert(a.remove(0).to_multiset() == a.to_multiset().remove(ov));
        assert(b.remove(k).to_multiset() == b.to_multiset().remove(ov));
        lemma_kept_permutation(a.remove(0), b.remove(k));
        lemma_kept_lines_remove(a, 0);
        lemma_kept_lines_remove(b, k);
        assert(kept_lines(a).to_multiset() =~= kept_lines(b).to_multiset());
    }
}

proof fn lemma_in_merged_permutation(a: Seq<OutcomeView>, b: Seq<OutcomeView>)
    requires
        a.to_multiset() == b.to_multiset(),
    ensures
        forall|l: Seq<char>| #[trigger] in_merged(a, l) <==> in_merged(b, l),
{
    broadcast use vstd::seq_lib::group_to_multiset_ensures;

    assert forall|l: Seq<char>| #[trigger] in_merged(a, l) <==> in_merged(b, l) by {
        if in_merged(a, l) {
            let w = choose|w: OutcomeView| #[trigger] a.contains(w) && crate::merge::contributes(
                w,
                l,
            );
            assert(a.to_multiset().count(w) > 0);
            assert(b.to_multiset().count(w) > 0);
            assert(b.contains(w));
        }
        if in_merged(b, l) {
            let w = choose|w: OutcomeView| #[trigger] b.contains(w) && crate::merge::contributes(
                w,
                l,
            );
            assert(b.to_multiset().count(w) > 0);
            assert(a.to_multiset().count(w) > 0);
            assert(a.contains(w));
        }
    }
}

/// Merge-order independence: two runs whose fetches settled with the same
/// outcomes, in whatever completion order (the outcome multisets agree),
/// produce the identical sorted merged collection, the identical output
/// text, and the identical duplicate report.
pub proof fn lemma_merge_order_independent(
    a: Seq<OutcomeView>,
    b: Seq<OutcomeView>,
    x: Seq<Seq<char>>,
    y: Seq<Seq<char>>,
    dx: Seq<Seq<char>>,
    dy: Seq<Seq<char>>,
)
    requires
        a.to_multiset() == b.to_multiset(),
        sorted_lex(x),
        x.no_duplicates(),
        forall|l: Seq<char>| #[trigger] x.contains(l) <==> in_merged(a, l),
        sorted_lex(y),
        y.no_duplicates(),
        forall|l: Seq<char>| #[trigger] y.contains(l) <==> in_merged(b, l),
        sorted_lex(dx),
        dx.no_duplicates(),
        forall|l: Seq<char>| #[trigger] dx.contains(l) <==> is_duplicate(a, l),
        sorted_lex(dy),
        dy.no_duplicates(),
        forall|l: Seq<char>| #[trigger] dy.contains(l) <==> is_duplicate(b, l),
    ensures
        x == y,
        dx == dy,
        join_lines(x) == join_lines(y),
{
    lemma_in_merged_permutation(a, b);
    lemma_kept_permutation(a, b);
    assert(forall|l: Seq<char>| #[trigger] is_duplicate(a, l) <==> is_duplicate(b, l));
    lemma_sorted_unique(x, y);
    lemma_sorted_unique(dx, dy);
}

proof fn lemma_kept_lines_member(rs: Seq<OutcomeView>, l: Seq<char>)
    requires
        kept_lines(rs).contains(l),
    ensures
        in_merged(rs, l),
    decreases rs.len(),
{
    assert(rs.len() > 0);
    let head = outcome_lines(rs[0]);
    let rest = kept_lines(rs.drop_first());
    let idx = choose|idx: int| 0 <= idx < kept_lines(rs).len() && kept_lines(rs)[idx] == l;
    if idx < head.len() {
        assert(head[idx] == l);
        assert(head.contains(l));
        assert(rs.contains(rs[0]));
        assert(crate::merge::contributes(rs[0], l));
    } else {
        assert(rest[idx - head.len()] == l);
        assert(rest.contains(l));
        lemma_kept_lines_member(rs.drop_first(), l);
        let w = choose|w: OutcomeView| #[trigger]
            rs.drop_first().contains(w) && crate::merge::contributes(w, l);
        let k = choose|k: int| 0 <= k < rs.drop_first().len() && rs.drop_first()[k] == w;
        assert(rs[k + 1] == w);
        assert(rs.contains(w));
    }
}

/// Dedup correctness: a line kept at least twice across the successful
/// sources (in one source or several) stands exactly once in the duplicate
/// report and exactly once in the merged collection.
pub proof fn lemma_dedup_correct(
    rs: Seq<OutcomeView>,
    l: Seq<char>,
    merged: Seq<Seq<char>>,
    dups: Seq<Seq<char>>,
)
    requires
        merged.no_duplicates(),
        forall|m: Seq<char>| #[trigger] merged.contains(m) <==> in_merged(rs, m),
        dups.no_duplicates(),
        forall|m: Seq<char>| #[trigger] dups.contains(m) <==> is_duplicate(rs, m),
        line_count(rs, l) >= 2,
    ensures
        dups.to_multiset().count(l) == 1,
        merged.to_multiset().count(l) == 1,
{
    broadcast use vstd::seq_lib::group_to_multiset_ensures;

    assert(dups.contains(l));
    dups.lemma_multiset_has_no_duplicates();
    assert(dups.to_multiset().count(l) > 0);
    assert(kept_lines(rs).to_multiset().count(l) > 0);
    assert(kept_lines(rs).contains(l));
    lemma_kept_lines_member(rs, l);
    assert(merged.contains(l));
    merged.lemma_multiset_has_no_duplicates();
    assert(merged.to_multiset().count(l) > 0);
}

/// The empty-success case: with no settled outcomes at all, the merged
/// collection and the duplicate report are empty, and the rendered output
/// is the empty text.
pub proof fn lemma_empty_run(x: Seq<Seq<char>>, d: Seq<Seq<char>>)
    requires
        forall|l: Seq<char>| #[trigger] x.contains(l) <==> in_merged(Seq::empty(), l),
        forall|l: Seq<char>| #[trigger] d.contains(l) <==> is_duplicate(Seq::empty(), l),
    ensures
        x == Seq::<Seq<char>>::empty(),
        d == Seq::<Seq<char>>::empty(),
        join_lines(x) == Seq::<char>::empty(),
{
    broadcast use vstd::seq_lib::group_to_multiset_ensures;

    if x.len() > 0 {
        assert(x.contains(x[0]));
        let w = choose|w: OutcomeView| #[trigger]
            Seq::<OutcomeView>::empty().contains(w) && crate::merge::contributes(w, x[0]);
        assert(false);
    }
    if d.len() > 0 {
        assert(d.contains(d[0]));
        assert(kept_lines(Seq::<OutcomeView>::empty()) == Seq::<Seq<char>>::empty());
        assert(Seq::<Seq<char>>::empty().to_multiset().count(d[0]) == 0);
        assert(false);
    }
    assert(x =~= Seq::<Seq<char>>::empty());
    assert(d =~= Seq::<Seq<char>>::empty());
}

} // verus!
