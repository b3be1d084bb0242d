//! Lexicographic ordering of lines, sorting, and the uniqueness of the
//! sorted form, which makes the written output deterministic.

use vstd::prelude::*;

verus! {

/// Lexicographic order on character sequences: ordinary codepoint
/// comparison, shorter prefixes first.
pub open spec fn lex_le(a: Seq<char>, b: Seq<char>) -> bool
    decreases a.len(),
{
    if a.len() == 0 {
        true
    } else if b.len() == 0 {
        false
    } else if (a[0] as u32) < (b[0] as u32) {
        true
    } else if (a[0] as u32) > (b[0] as u32) {
        false
    } else {
        lex_le(a.drop_first(), b.drop_first())
    }
}

/// A sequence of lines in lexicographically non-decreasing order.
pub open spec fn sorted_lex(s: Seq<Seq<char>>) -> bool {
    forall|i: int, j: int| 0 <= i < j < s.len() ==> lex_le(#[trigger] s[i], #[trigger] s[j])
}

proof fn lemma_char_eq(a: char, b: char)
    requires
        a as u32 == b as u32,
    ensures
        a == b,
{
}

pub proof fn lemma_lex_refl(a: Seq<char>)
    ensures
        lex_le(a, a),
    decreases a.len(),
{
    if a.len() > 0 {
        lemma_lex_refl(a.drop_first());
    }
}

pub proof fn lemma_lex_total(a: Seq<char>, b: Seq<char>)
    ensures
        lex_le(a, b) || lex_le(b, a),
    decreases a.len(),
{
    if a.len() > 0 && b.len() > 0 && (a[0] as u32) == (b[0] as u32) {
        lemma_lex_total(a.drop_first(), b.drop_first());
    }
}

pub proof fn lemma_lex_antisym(a: Seq<char>, b: Seq<char>)
    requires
        lex_le(a, b),
        lex_le(b, a),
    ensures
        a == b,
    decreases a.len(),
{
    if a.len() == 0 {
        assert(b.len() == 0);
        assert(a =~= b);
    } else {
        assert(b.len() > 0);
        assert((a[0] as u32) == (b[0] as u32));
        lemma_char_eq(a[0], b[0]);
        lemma_lex_antisym(a.drop_first(), b.drop_first());
        assert(a =~= seq![a[0]] + a.drop_first());
        assert(b =~= seq![b[0]] + b.drop_first());
    }
}

pub proof fn lemma_lex_trans(a: Seq<char>, b: Seq<char>, c: Seq<char>)
    requires
        lex_le(a, b),
        lex_le(b, c),
    ensures
        lex_le(a, c),
    decreases a.len(),
{
    if a.len() > 0 && b.len() > 0 && c.len() > 0 && (a[0] as u32) == (b[0] as u32) && (b[0]
        as u32) == (c[0] as u32) {
        lemma_lex_trans(a.drop_first(), b.drop_first(), c.drop_first());
    }
}

/// Compares two lines in lexicographic codepoint order.
pub fn lex_le_exec(a: &str, b: &str) -> (r: bool)
    ensures
        r == lex_le(a@, b@),
{
    let na = a.unicode_len();
    let nb = b.unicode_len();
    let mut i: usize = 0;
    proof {
        assert(a@.skip(0) =~= a@);
        assert(b@.skip(0) =~= b@);
    }
    loop
        invariant
            0 <= i <= na,
            i <= nb,
            na == a@.len(),
            nb == b@.len(),
            forall|k: int| 0 <= k < i ==> a@[k] == b@[k],
            lex_le(a@, b@) == lex_le(a@.skip(i as int), b@.skip(i as int)),
            lex_le(b@, a@) == lex_le(b@.skip(i as int), a@.skip(i as int)),
        decreases na - i,
    {
        if i == na {
            proof {
                assert(lex_le(a@.skip(i as int), b@.skip(i as int)));
            }
            return true;
        }
        if i == nb {
            proof {
                assert(b@.skip(i as int).len() == 0);
                assert(a@.skip(i as int).len() > 0);
            }
            return false;
        }
        let ca = a.get_char(i);
        let cb = b.get_char(i);
        if (ca as u32) < (cb as u32) {
            proof {
                assert(a@.skip(i as int)[0] == a@[i as int]);
                assert(b@.skip(i as int)[0] == b@[i as int]);
            }
            return true;
        }
        if (ca as u32) > (cb as u32) {
            proof {
                assert(a@.skip(i as int)[0] == a@[i as int]);
                assert(b@.skip(i as int)[0] == b@[i as int]);
            }
            return false;
        }
        proof {
            assert(a@.skip(i as int)[0] == a@[i as int]);
            assert(b@.skip(i as int)[0] == b@[i as int]);
            assert((a@[i as int] as u32) == (b@[i as int] as u32));
            assert(a@.skip(i as int).drop_first() =~= a@.skip(i as int + 1));
            assert(b@.skip(i as int).drop_first() =~= b@.skip(i as int + 1));
        }
        i = i + 1;
    }
}

/// Sorts lines into lexicographic order; the result is a permutation of
/// the input.
pub fn sort_lines(lines: Vec<String>) -> (r: Vec<String>)
    ensures
        sorted_lex(r.deep_view()),
        r.deep_view().to_multiset() == lines.deep_view().to_multiset(),
        r.len() == lines.len(),
{
    broadcast use vstd::seq_lib::group_to_multiset_ensures;

    let mut r: Vec<String> = Vec::new();
    let mut i: usize = 0;
    proof {
        assert(lines.deep_view().take(0) =~= Seq::<Seq<char>>::empty());
        assert(r.deep_view() =~= Seq::<Seq<char>>::empty());
        assert(Seq::<Seq<char>>::empty().to_multiset() =~= Seq::<
            Seq<char>,
        >::empty().to_multiset());
    }
    while i < lines.len()
        invariant
            0 <= i <= lines.len(),
            lines.deep_view().len() == lines.len(),
            r.len() == i,
            r.deep_view().len() == i,
            sorted_lex(r.deep_view()),
            r.deep_view().to_multiset() == lines.deep_view().take(i as int).to_multiset(),
        decreases lines.len() - i,
    {
        let x = lines[i].clone();
        let ghost xv = x@;
        let ghost old_dv = r.deep_view();
        let mut p: usize = 0;
        while p < r.len() && lex_le_exec(r[p].as_str(), x.as_str())
            invariant
                0 <= p <= r.len(),
                r.deep_view().len() == r.len(),
                xv == x@,
                forall|k: int| 0 <= k < p ==> lex_le(#[trigger] r.deep_view()[k], xv),
            decreases r.len() - p,
        {
            p = p + 1;
        }
        r.insert(p, x);
        proof {
            broadcast use vstd::seq_lib::group_to_multiset_ensures;

            assert(r.deep_view() =~= old_dv.insert(p as int, xv));
            assert forall|k: int| p < k < r.deep_view().len() implies lex_le(
                xv,
                #[trigger] r.deep_view()[k],
            ) by {
                let orig = old_dv[k - 1];
                assert(r.deep_view()[k] == orig);
                assert(p < old_dv.len());
                assert(!lex_le(old_dv[p as int], xv));
                lemma_lex_total(xv, old_dv[p as int]);
                if (p as int) < k - 1 {
                    lemma_lex_trans(xv, old_dv[p as int], orig);
                }
            }
            assert forall|u: int, v: int| 0 <= u < v < r.deep_view().len() implies lex_le(
                #[trigger] r.deep_view()[u],
                #[trigger] r.deep_view()[v],
            ) by {
                if u < p as int && v == p as int {
                } else if u == p as int {
                } else if v < p as int {
                    assert(r.deep_view()[u] == old_dv[u]);
                    assert(r.deep_view()[v] == old_dv[v]);
                } else if u < p as int && v > p as int {
                    assert(r.deep_view()[u] == old_dv[u]);
                    assert(r.deep_view()[v] == old_dv[v - 1]);
                } else {
                    assert(r.deep_view()[u] == old_dv[u - 1]);
                    assert(r.deep_view()[v] == old_dv[v - 1]);
                }
            }
            assert(old_dv.insert(p as int, xv).to_multiset() == old_dv.to_multiset().insert(xv));
            let ghost taken = lines.deep_view().take(i as int);
            assert(lines.deep_view().take(i as int + 1) =~= taken.push(
                lines.deep_view()[i as int],
            ));
            assert(taken.push(xv).to_multiset() == taken.to_multiset().insert(xv));
        }
        i = i + 1;
    }
    proof {
        assert(lines.deep_view().take(lines.len() as int) =~= lines.deep_view());
    }
    r
}

/// Two sorted duplicate-free line sequences with the same members are
/// identical: the sorted form of a set of lines is unique.
pub proof fn lemma_sorted_unique(x: Seq<Seq<char>>, y: Seq<Seq<char>>)
    requires
        sorted_lex(x),
        sorted_lex(y),
        x.no_duplicates(),
        y.no_duplicates(),
        forall|l: Seq<char>| x.contains(l) <==> y.contains(l),
    ensures
        x == y,
    decreases x.len(),
{
    if x.len() == 0 {
        if y.len() > 0 {
            assert(y.contains(y[0]));
            assert(x.contains(y[0]));
        }
        assert(x =~= y);
    } else {
        assert(x.contains(x[0]));
        assert(y.contains(x[0]));
        assert(y.len() > 0);
        assert(y.contains(y[0]));
        assert(x.contains(y[0]));
        let iy = choose|k: int| 0 <= k < y.len() && y[k] == x[0];
        let ix = choose|k: int| 0 <= k < x.len() && x[k] == y[0];
        if iy > 0 {
            assert(lex_le(y[0], y[iy]));
        }
        if ix > 0 {
            assert(lex_le(x[0], x[ix]));
        }
        lemma_lex_refl(x[0]);
        lemma_lex_antisym(x[0], y[0]);
        let xt = x.drop_first();
        let yt = y.drop_first();
        assert forall|l: Seq<char>| xt.contains(l) implies yt.contains(l) by {
            let k = choose|k: int| 0 <= k < xt.len() && xt[k] == l;
            assert(x[k + 1] == l);
            assert(x.contains(l));
            assert(y.contains(l));
            let m = choose|m: int| 0 <= m < y.len() && y[m] == l;
            assert(l != x[0]);
            assert(m != 0);
            assert(yt[m - 1] == l);
        }
        assert forall|l: Seq<char>| yt.contains(l) implies xt.contains(l) by {
            let k = choose|k: int| 0 <= k < yt.len() && yt[k] == l;
            assert(y[k + 1] == l);
            assert(y.contains(l));
            assert(x.contains(l));
            let m = choose|m: int| 0 <= m < x.len() && x[m] == l;
            assert(l != y[0]);
            assert(m != 0);
            assert(xt[m - 1] == l);
        }
        assert(sorted_lex(xt)) by {
            assert(forall|i: int, j: int|
                0 <= i < j < xt.len() ==> lex_le(#[trigger] xt[i], #[trigger] xt[j]))
            ;
        }
        assert(sorted_lex(yt)) by {
            assert(forall|i: int, j: int|
                0 <= i < j < yt.len() ==> lex_le(#[trigger] yt[i], #[trigger] yt[j]))
            ;
        }
        lemma_sorted_unique(xt, yt);
        assert(x =~= seq![x[0]] + xt);
        assert(y =~= seq![y[0]] + yt);
    }
}

/// The lines joined with a single newline between adjacent lines and no
/// trailing newline.
pub open spec fn join_lines(ls: Seq<Seq<char>>) -> Seq<char>
    decreases ls.len(),
{
    if ls.len() == 0 {
        Seq::empty()
    } else if ls.len() == 1 {
        ls[0]
    } else {
        join_lines(ls.drop_last()) + seq!['\n'] + ls.last()
    }
}

/// Joins lines with newline separators.
pub fn render_output(lines: &Vec<String>) -> (r: String)
    ensures
        r@ == join_lines(lines.deep_view()),
{
    let mut r = String::new();
    let mut i: usize = 0;
    proof {
        assert(lines.deep_view().take(0) =~= Seq::<Seq<char>>::empty());
        assert(r@ =~= join_lines(lines.deep_view().take(0)));
    }
    while i < lines.len()
        invariant
            0 <= i <= lines.len(),
            lines.deep_view().len() == lines.len(),
            r@ == join_lines(lines.deep_view().take(i as int)),
        decreases lines.len() - i,
    {
        let ghost old_view = r@;
        if i > 0 {
            r.append("\n");
            proof {
                reveal_strlit("\n");
                assert("\n"@ =~= seq!['\n']);
            }
        }
        r.append(lines[i].as_str());
        proof {
            let next = lines.deep_view().take(i as int + 1);
            assert(next.drop_last() =~= lines.deep_view().take(i as int));
            assert(next.last() == lines.deep_view()[i as int]);
            if i == 0 {
                assert(r@ =~= join_lines(next));
            } else {
                assert(r@ =~= old_view + seq!['\n'] + lines.deep_view()[i as int]);
            }
        }
        i = i + 1;
    }
    proof {
        assert(lines.deep_view().take(lines.len() as int) =~= lines.deep_view());
    }
    r
}

} // verus!
