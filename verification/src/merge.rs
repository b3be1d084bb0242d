//! Folding the per-source fetch outcomes into one deduplicated merged
//! collection, with a report of the lines that occurred more than once.

use vstd::prelude::*;
use crate::order::join_lines;
use crate::order::render_output;
use crate::order::sort_lines;
use crate::order::sorted_lex;

verus! {

/// A configured list source: a display name and a URL.
pub struct Source {
    pub name: String,
    pub url: String,
}

/// Why a source contributed nothing to the merge.
pub enum FetchError {
    /// The connection could not be established, or timed out.
    Network { name: String, cause: String },
    /// A response arrived whose status lies outside the success range.
    HttpStatus { name: String, status: u16 },
    /// The response body could not be decoded as text.
    Decode { name: String, cause: String },
    /// The concurrent unit of work ended abnormally instead of returning.
    Task { name: String, cause: String },
}

/// What one source's fetch came to.
pub enum FetchOutcome {
    /// The fetch succeeded: the source's name and its kept content lines.
    Fetched { name: String, lines: Vec<String> },
    /// The fetch failed; the source is skipped.
    Failed { error: FetchError },
}

/// The merge-relevant content of a fetch outcome.
pub enum OutcomeView {
    FetchedV { name: Seq<char>, lines: Seq<Seq<char>> },
    FailedV,
}

impl View for FetchOutcome {
    type V = OutcomeView;

    open spec fn view(&self) -> OutcomeView {
        match self {
            FetchOutcome::Fetched { name, lines } => OutcomeView::FetchedV {
                name: name@,
                lines: lines.deep_view(),
            },
            FetchOutcome::Failed { .. } => OutcomeView::FailedV,
        }
    }
}

impl DeepView for FetchOutcome {
    type V = OutcomeView;

    open spec fn deep_view(&self) -> OutcomeView {
        self.view()
    }
}

/// The synthetic header naming a successfully fetched source.
pub open spec fn header_of(name: Seq<char>) -> Seq<char> {
    "Blocklist -> "@ + name
}

/// The synthetic separator closing each source's block.
pub open spec fn separator() -> Seq<char> {
    "********************--************************"@
}

/// Builds the synthetic header line for a source name.
pub fn header_for(name: &String) -> (r: String)
    ensures
        r@ == header_of(name@),
{
    let mut r = "Blocklist -> ".to_owned();
    r.append(name.as_str());
    r
}

/// Builds the synthetic separator line.
pub fn separator_line() -> (r: String)
    ensures
        r@ == separator(),
{
    "********************--************************".to_owned()
}

/// What a single outcome puts into the merged collection: its header, its
/// kept lines, and the separator; a failed fetch contributes nothing.
pub open spec fn contributes(ov: OutcomeView, l: Seq<char>) -> bool {
    match ov {
        OutcomeView::FetchedV { name, lines } => l == header_of(name) || lines.contains(l) || l
            == separator(),
        OutcomeView::FailedV => false,
    }
}

/// Membership in the merged collection: some outcome contributes the line.
pub open spec fn in_merged(rs: Seq<OutcomeView>, l: Seq<char>) -> bool {
    exists|ov: OutcomeView| #[trigger] rs.contains(ov) && contributes(ov, l)
}

/// The kept content lines of one outcome.
pub open spec fn outcome_lines(ov: OutcomeView) -> Seq<Seq<char>> {
    match ov {
        OutcomeView::FetchedV { lines, .. } => lines,
        OutcomeView::FailedV => Seq::empty(),
    }
}

/// All kept content lines of the successful outcomes, concatenated in
/// order, with repetitions.
pub open spec fn kept_lines(rs: Seq<OutcomeView>) -> Seq<Seq<char>>
    decreases rs.len(),
{
    if rs.len() == 0 {
        Seq::empty()
    } else {
        outcome_lines(rs[0]) + kept_lines(rs.drop_first())
    }
}

/// How often a line occurs across all successful sources' kept lines.
pub open spec fn line_count(rs: Seq<OutcomeView>, l: Seq<char>) -> nat {
    kept_lines(rs).to_multiset().count(l)
}

/// A duplicate: a content line occurring at least twice across the union
/// of the successful sources' kept lines.
pub open spec fn is_duplicate(rs: Seq<OutcomeView>, l: Seq<char>) -> bool {
    line_count(rs, l) >= 2
}

/// The merged collection and the duplicate report of one run.
pub struct MergeOutput {
    pub merged: Vec<String>,
    pub duplicates: Vec<String>,
}

fn contains_line(v: &Vec<String>, x: &String) -> (r: bool)
    ensures
        r == v.deep_view().contains(x@),
{
    let mut i: usize = 0;
    while i < v.len()
        invariant
            0 <= i <= v.len(),
            v.deep_view().len() == v.len(),
            forall|k: int| 0 <= k < i ==> v.deep_view()[k] != x@,
        decreases v.len() - i,
    {
        if v[i].eq(x) {
            proof {
                assert(v.deep_view()[i as int] == x@);
            }
            return true;
        }
        i = i + 1;
    }
    false
}

fn insert_unique(v: &mut Vec<String>, x: String)
    requires
        old(v).deep_view().no_duplicates(),
    ensures
        final(v).deep_view() == (if old(v).deep_view().contains(x@) {
            old(v).deep_view()
        } else {
            old(v).deep_view().push(x@)
        }),
        final(v).deep_view().no_duplicates(),
{
    let ghost s = v.deep_view();
    if !contains_line(v, &x) {
        v.push(x);
        proof {
            assert(v.deep_view() =~= s.push(x@));
            assert forall|i: int, j: int|
                0 <= i < s.push(x@).len() && 0 <= j < s.push(x@).len() && i != j implies s.push(
                x@,
            )[i] != s.push(x@)[j] by {
                if i < s.len() && j < s.len() {
                } else if j == s.len() && i < s.len() {
                    assert(s.contains(s[i]) || s[i] != x@);
                } else if i == s.len() && j < s.len() {
                    assert(s.contains(s[j]) || s[j] != x@);
                }
            }
        }
    }
}

proof fn lemma_push_contains(s: Seq<Seq<char>>, x: Seq<char>)
    ensures
        forall|l: Seq<char>| #[trigger] s.push(x).contains(l) <==> s.contains(l) || l == x,
{
    assert forall|l: Seq<char>| #[trigger] s.push(x).contains(l) <==> s.contains(l) || l == x by {
        if s.contains(l) {
            let k = choose|k: int| 0 <= k < s.len() && s[k] == l;
            assert(s.push(x)[k] == l);
        }
        if l == x {
            assert(s.push(x)[s.len() as int] == l);
        }
        if s.push(x).contains(l) {
            let k = choose|k: int| 0 <= k < s.push(x).len() && s.push(x)[k] == l;
            if k < s.len() {
                assert(s[k] == l);
            }
        }
    }
}

proof fn lemma_in_merged_push(rs: Seq<OutcomeView>, ov: OutcomeView)
    ensures
        forall|l: Seq<char>|
            #[trigger] in_merged(rs.push(ov), l) <==> in_merged(rs, l) || contributes(ov, l),
{
    assert forall|l: Seq<char>| #[trigger]
        in_merged(rs.push(ov), l) implies in_merged(rs, l) || contributes(ov, l) by {
        let w = choose|w: OutcomeView| #[trigger] rs.push(ov).contains(w) && contributes(w, l);
        let k = choose|k: int| 0 <= k < rs.push(ov).len() && rs.push(ov)[k] == w;
        if k < rs.len() {
            assert(rs.contains(w));
        } else {
            assert(w == ov);
        }
    }
    assert forall|l: Seq<char>| in_merged(rs, l) || contributes(ov, l) implies #[trigger]
        in_merged(rs.push(ov), l) by {
        if in_merged(rs, l) {
            let w = choose|w: OutcomeView| #[trigger] rs.contains(w) && contributes(w, l);
            let k = choose|k: int| 0 <= k < rs.len() && rs[k] == w;
            assert(rs.push(ov)[k] == w);
            assert(rs.push(ov).contains(w));
        } else {
            assert(rs.push(ov)[rs.len() as int] == ov);
            assert(rs.push(ov).contains(ov));
        }
    }
}

proof fn lemma_kept_lines_push(rs: Seq<OutcomeView>, ov: OutcomeView)
    ensures
        kept_lines(rs.push(ov)) == kept_lines(rs) + outcome_lines(ov),
    decreases rs.len(),
{
    if rs.len() == 0 {
        assert(rs.push(ov)[0] == ov);
        assert(rs.push(ov).drop_first() =~= Seq::<OutcomeView>::empty());
        assert(kept_lines(Seq::<OutcomeView>::empty()) =~= Seq::<Seq<char>>::empty());
        assert(outcome_lines(ov) + Seq::<Seq<char>>::empty() =~= outcome_lines(ov));
        assert(Seq::<Seq<char>>::empty() + outcome_lines(ov) =~= outcome_lines(ov));
    } else {
        assert(rs.push(ov).drop_first() =~= rs.drop_first().push(ov));
        lemma_kept_lines_push(rs.drop_first(), ov);
        assert(rs.push(ov)[0] == rs[0]);
        assert(outcome_lines(rs[0]) + (kept_lines(rs.drop_first()) + outcome_lines(ov))
            =~= (outcome_lines(rs[0]) + kept_lines(rs.drop_first())) + outcome_lines(ov));
    }
}

/// Folds the settled fetch outcomes into the merged collection and the
/// duplicate report.  Each successful source contributes its header, its
/// kept lines and the separator; a failed source contributes nothing.  The
/// merged collection is duplicate-free; the report holds, once each and in
/// lexicographic order, exactly the lines kept at least twice across the
/// successful sources.
pub fn merge_outcomes(outcomes: &Vec<FetchOutcome>) -> (r: MergeOutput)
    ensures
        r.merged.deep_view().no_duplicates(),
        forall|l: Seq<char>|
            #[trigger] r.merged.deep_view().contains(l) <==> in_merged(outcomes.deep_view(), l),
        r.duplicates.deep_view().no_duplicates(),
        sorted_lex(r.duplicates.deep_view()),
        forall|l: Seq<char>|
            #[trigger] r.duplicates.deep_view().contains(l) <==> is_duplicate(
                outcomes.deep_view(),
                l,
            ),
{
    broadcast use vstd::seq_lib::group_to_multiset_ensures;

    let ghost rs = outcomes.deep_view();
    let mut merged: Vec<String> = Vec::new();
    let mut seen: Vec<String> = Vec::new();
    let mut dups: Vec<String> = Vec::new();
    let mut i: usize = 0;
    proof {
        assert(rs.take(0) =~= Seq::<OutcomeView>::empty());
        assert(merged.deep_view() =~= Seq::<Seq<char>>::empty());
        assert(seen.deep_view() =~= Seq::<Seq<char>>::empty());
        assert(dups.deep_view() =~= Seq::<Seq<char>>::empty());
        assert forall|l: Seq<char>| !(#[trigger] in_merged(rs.take(0), l)) by {
            assert(forall|ov: OutcomeView| !(#[trigger] rs.take(0).contains(ov)));
        }
        assert(kept_lines(rs.take(0)) =~= Seq::<Seq<char>>::empty());
        assert(forall|l: Seq<char>|
            #[trigger] kept_lines(rs.take(0)).to_multiset().count(l) == 0);
    }
    while i < outcomes.len()
        invariant
            0 <= i <= outcomes.len(),
            rs == outcomes.deep_view(),
            rs.len() == outcomes.len(),
            merged.deep_view().no_duplicates(),
            forall|l: Seq<char>|
                #[trigger] merged.deep_view().contains(l) <==> in_merged(rs.take(i as int), l),
            seen.deep_view().no_duplicates(),
            forall|l: Seq<char>|
                #[trigger] seen.deep_view().contains(l) <==> kept_lines(
                    rs.take(i as int),
                ).to_multiset().count(l) >= 1,
            dups.deep_view().no_duplicates(),
            forall|l: Seq<char>|
                #[trigger] dups.deep_view().contains(l) <==> kept_lines(
                    rs.take(i as int),
                ).to_multiset().count(l) >= 2,
        decreases outcomes.len() - i,
    {
        let ghost processed = rs.take(i as int);
        match &outcomes[i] {
            FetchOutcome::Fetched { name, lines } => {
                let ghost merged_before = merged.deep_view();
                let header = header_for(name);
                insert_unique(&mut merged, header);
                let ghost lv = lines.deep_view();
                let ghost nv = name@;
                let mut j: usize = 0;
                proof {
                    lemma_push_contains(merged_before, header_of(nv));
                    assert(lv.take(0) =~= Seq::<Seq<char>>::empty());
                    assert(kept_lines(processed) + lv.take(0) =~= kept_lines(processed));
                }
                while j < lines.len()
                    invariant
                        0 <= j <= lines.len(),
                        lv == lines.deep_view(),
                        lv.len() == lines.len(),
                        merged.deep_view().no_duplicates(),
                        forall|l: Seq<char>|
                            #[trigger] merged.deep_view().contains(l) <==> in_merged(processed, l)
                                || l == header_of(nv) || lv.take(j as int).contains(l),
                        seen.deep_view().no_duplicates(),
                        forall|l: Seq<char>|
                            #[trigger] seen.deep_view().contains(l) <==> (kept_lines(processed)
                                + lv.take(j as int)).to_multiset().count(l) >= 1,
                        dups.deep_view().no_duplicates(),
                        forall|l: Seq<char>|
                            #[trigger] dups.deep_view().contains(l) <==> (kept_lines(processed)
                                + lv.take(j as int)).to_multiset().count(l) >= 2,
                    decreases lines.len() - j,
                {
                    let ghost cur = kept_lines(processed) + lv.take(j as int);
                    let ghost x = lv[j as int];
                    let line = lines[j].clone();
                    let ghost seen0 = seen.deep_view();
                    let ghost dups0 = dups.deep_view();
                    let ghost merged0 = merged.deep_view();
                    let was_seen = contains_line(&seen, &line);
                    if was_seen {
                        insert_unique(&mut dups, line.clone());
                    } else {
                        seen.push(line.clone());
                    }
                    insert_unique(&mut merged, line);
                    proof {
                        broadcast use vstd::seq_lib::group_to_multiset_ensures;
                        broadcast use vstd::multiset::group_multiset_axioms;

                        lemma_push_contains(merged0, x);
                        lemma_push_contains(dups0, x);
                        lemma_push_contains(seen0, x);
                        lemma_push_contains(lv.take(j as int), x);
                        assert(line@ == x);
                        assert(lv.take(j as int + 1) =~= lv.take(j as int).push(x));
                        assert(kept_lines(processed) + lv.take(j as int + 1) =~= cur.push(x));
                        assert(cur.push(x).to_multiset() == cur.to_multiset().insert(x));
                        assert(cur.to_multiset().insert(x).count(x) == cur.to_multiset().count(x)
                            + 1);
                        assert(forall|l: Seq<char>|
                            l != x ==> #[trigger] cur.to_multiset().insert(x).count(l)
                                == cur.to_multiset().count(l));
                        if !was_seen {
                            assert(cur.to_multiset().count(x) == 0);
                            let sv = seen.deep_view();
                            assert(sv =~= seen0.push(x));
                            assert forall|a: int, b: int|
                                0 <= a < sv.len() && 0 <= b < sv.len() && a != b implies sv[a]
                                != sv[b] by {
                                if a < seen0.len() && b < seen0.len() {
                                    assert(sv[a] == seen0[a]);
                                    assert(sv[b] == seen0[b]);
                                } else if a == seen0.len() {
                                    assert(sv[a] == x);
                                    assert(sv[b] == seen0[b]);
                                    assert(seen0.contains(seen0[b]));
                                } else {
                                    assert(sv[b] == x);
                                    assert(sv[a] == seen0[a]);
                                    assert(seen0.contains(seen0[a]));
                                }
                            }
                        }
                    }
                    j = j + 1;
                }
                let ghost merged_mid = merged.deep_view();
                let sep = separator_line();
                insert_unique(&mut merged, sep);
                proof {
                    lemma_push_contains(merged_mid, separator());
                    assert(lv.take(lv.len() as int) =~= lv);
                    assert(rs.take(i as int + 1) =~= processed.push(rs[i as int]));
                    assert(rs[i as int] == OutcomeView::FetchedV { name: nv, lines: lv });
                    lemma_in_merged_push(processed, rs[i as int]);
                    lemma_kept_lines_push(processed, rs[i as int]);
                    assert(kept_lines(rs.take(i as int + 1)) == kept_lines(processed) + lv);
                }
            },
            FetchOutcome::Failed { .. } => {
                proof {
                    assert(rs.take(i as int + 1) =~= processed.push(rs[i as int]));
                    assert(rs[i as int] == OutcomeView::FailedV);
                    lemma_in_merged_push(processed, rs[i as int]);
                    lemma_kept_lines_push(processed, rs[i as int]);
                    assert(kept_lines(processed) + Seq::<Seq<char>>::empty()
                        =~= kept_lines(processed));
                }
            },
        }
        i = i + 1;
    }
    proof {
        assert(rs.take(rs.len() as int) =~= rs);
    }
    let ghost dv = dups.deep_view();
    let duplicates = sort_lines(dups);
    proof {
        broadcast use vstd::seq_lib::group_to_multiset_ensures;

        let sv = duplicates.deep_view();
        assert forall|l: Seq<char>| #[trigger] sv.contains(l) <==> dv.contains(l) by {
            assert(sv.to_multiset().count(l) == dv.to_multiset().count(l));
        }
        dv.lemma_multiset_has_no_duplicates();
        assert forall|x: Seq<char>|
            sv.to_multiset().contains(x) implies sv.to_multiset().count(x) == 1 by {
            assert(sv.to_multiset().count(x) == dv.to_multiset().count(x));
            assert(dv.to_multiset().contains(x));
        }
        sv.lemma_multiset_has_no_duplicates_conv();
    }
    MergeOutput { merged, duplicates }
}

/// Everything a finished run hands back: the merged lines in sorted order,
/// the rendered output text, and the sorted duplicate report.
pub struct RunReport {
    pub sorted_lines: Vec<String>,
    pub output_text: String,
    pub duplicates: Vec<String>,
}

/// Finalizes a run from its settled fetch outcomes: merges them, sorts the
/// merged collection lexicographically, and renders the output text that is
/// written to the output file.  The count of unique merged lines is the
/// length of `sorted_lines`.
pub fn aggregate(outcomes: &Vec<FetchOutcome>) -> (r: RunReport)
    ensures
        sorted_lex(r.sorted_lines.deep_view()),
        r.sorted_lines.deep_view().no_duplicates(),
        forall|l: Seq<char>|
            #[trigger] r.sorted_lines.deep_view().contains(l) <==> in_merged(
                outcomes.deep_view(),
                l,
            ),
        r.output_text@ == join_lines(r.sorted_lines.deep_view()),
        sorted_lex(r.duplicates.deep_view()),
        r.duplicates.deep_view().no_duplicates(),
        forall|l: Seq<char>|
            #[trigger] r.duplicates.deep_view().contains(l) <==> is_duplicate(
                outcomes.deep_view(),
                l,
            ),
{
    let m = merge_outcomes(outcomes);
    let ghost mv = m.merged.deep_view();
    let sorted = sort_lines(m.merged);
    proof {
        broadcast use vstd::seq_lib::group_to_multiset_ensures;

        let sv = sorted.deep_view();
        assert forall|l: Seq<char>| #[trigger] sv.contains(l) <==> mv.contains(l) by {
            assert(sv.to_multiset().count(l) == mv.to_multiset().count(l));
        }
        mv.lemma_multiset_has_no_duplicates();
        assert forall|x: Seq<char>|
            sv.to_multiset().contains(x) implies sv.to_multiset().count(x) == 1 by {
            assert(sv.to_multiset().count(x) == mv.to_multiset().count(x));
            assert(mv.to_multiset().contains(x));
        }
        sv.lemma_multiset_has_no_duplicates_conv();
    }
    let text = render_output(&sorted);
    RunReport { sorted_lines: sorted, output_text: text, duplicates: m.duplicates }
}

} // verus!
