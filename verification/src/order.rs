//! Byte-wise lexicographic ordering of parameter names and values, and a
//! verified sort of parameter lists.
//!
//! Parameters are compared by name first (plain byte ordering, not
//! locale-aware) and by value on equal names, which makes the order total, so
//! the sorted list — and with it the canonical query string — depends only on
//! which parameters are present, not on the order they arrived in.

use vstd::multiset::Multiset;
use vstd::prelude::*;
use vstd::relations::{sorted_by, total_ordering};
use vstd::seq_lib::lemma_sorted_unique;

verus! {

/// Byte-wise lexicographic order: `a` is no greater than `b`.
pub open spec fn lex_le(a: Seq<u8>, b: Seq<u8>) -> bool
    decreases a.len(),
{
    if a.len() == 0 {
        true
    } else if b.len() == 0 {
        false
    } else if a.first() < b.first() {
        true
    } else if a.first() > b.first() {
        false
    } else {
        lex_le(a.drop_first(), b.drop_first())
    }
}

pub proof fn lemma_lex_le_total(a: Seq<u8>, b: Seq<u8>)
    ensures
        lex_le(a, b) || lex_le(b, a),
    decreases a.len(),
{
    if a.len() == 0 || b.len() == 0 {
    } else if a.first() == b.first() {
        lemma_lex_le_total(a.drop_first(), b.drop_first());
    }
}

pub proof fn lemma_lex_le_antisymmetric(a: Seq<u8>, b: Seq<u8>)
    requires
        lex_le(a, b),
        lex_le(b, a),
    ensures
        a == b,
    decreases a.len(),
{
    if a.len() == 0 {
        assert(b.len() == 0);
        assert(a =~= b);
    } else {
        assert(b.len() > 0);
        assert(a.first() == b.first());
        lemma_lex_le_antisymmetric(a.drop_first(), b.drop_first());
        assert(a.drop_first().len() == a.len() - 1);
        assert(b.drop_first().len() == b.len() - 1);
        assert(a.len() == b.len());
        assert(a =~= b) by {
            assert forall|i: int| 0 <= i < a.len() implies a[i] == b[i] by {
                if i > 0 {
                    assert(a[i] == a.drop_first()[i - 1]);
                    assert(b[i] == b.drop_first()[i - 1]);
                    assert(a.drop_first()[i - 1] == b.drop_first()[i - 1]);
                }
            }
        }
    }
}

pub proof fn lemma_lex_le_transitive(a: Seq<u8>, b: Seq<u8>, c: Seq<u8>)
    requires
        lex_le(a, b),
        lex_le(b, c),
    ensures
        lex_le(a, c),
    decreases a.len(),
{
    if a.len() == 0 || b.len() == 0 || c.len() == 0 {
    } else if a.first() == b.first() && b.first() == c.first() {
        lemma_lex_le_transitive(a.drop_first(), b.drop_first(), c.drop_first());
    }
}

/// The order the canonical query string sorts by: parameter name first, with
/// ties broken by the value, both compared byte-wise.
pub open spec fn pair_le(p: (Seq<u8>, Seq<u8>), q: (Seq<u8>, Seq<u8>)) -> bool {
    if p.0 == q.0 {
        lex_le(p.1, q.1)
    } else {
        lex_le(p.0, q.0)
    }
}

/// [`pair_le`] as a first-class order, the shape the sorting lemmas take.
pub open spec fn pair_order() -> spec_fn((Seq<u8>, Seq<u8>), (Seq<u8>, Seq<u8>)) -> bool {
    |p: (Seq<u8>, Seq<u8>), q: (Seq<u8>, Seq<u8>)| pair_le(p, q)
}

pub proof fn lemma_pair_order_total()
    ensures
        total_ordering(pair_order()),
{
    let leq = pair_order();
    assert forall|p: (Seq<u8>, Seq<u8>)| #[trigger] leq(p, p) by {
        lemma_lex_le_total(p.1, p.1);
    }
    assert forall|p: (Seq<u8>, Seq<u8>), q: (Seq<u8>, Seq<u8>)|
        #[trigger] leq(p, q) && #[trigger] leq(q, p) implies p == q by {
        if p.0 == q.0 {
            lemma_lex_le_antisymmetric(p.1, q.1);
        } else {
            lemma_lex_le_antisymmetric(p.0, q.0);
        }
    }
    assert forall|p: (Seq<u8>, Seq<u8>), q: (Seq<u8>, Seq<u8>), r: (Seq<u8>, Seq<u8>)|
        #[trigger] leq(p, q) && #[trigger] leq(q, r) implies leq(p, r) by {
        lemma_pair_le_transitive(p, q, r);
    }
    assert forall|p: (Seq<u8>, Seq<u8>), q: (Seq<u8>, Seq<u8>)| #[trigger] leq(p, q) || #[trigger]
        leq(q, p) by {
        if p.0 == q.0 {
            lemma_lex_le_total(p.1, q.1);
        } else {
            lemma_lex_le_total(p.0, q.0);
        }
    }
}

proof fn lemma_pair_le_transitive(p: (Seq<u8>, Seq<u8>), q: (Seq<u8>, Seq<u8>), r: (
    Seq<u8>,
    Seq<u8>,
))
    requires
        pair_le(p, q),
        pair_le(q, r),
    ensures
        pair_le(p, r),
{
    if p.0 == q.0 && q.0 == r.0 {
        lemma_lex_le_transitive(p.1, q.1, r.1);
    } else if p.0 == q.0 {
        // names: p.0 == q.0 <= r.0, r.0 != q.0
    } else if q.0 == r.0 {
        // names: p.0 <= q.0 == r.0, p.0 != q.0
        if p.0 == r.0 {
            assert(false);
        }
    } else {
        lemma_lex_le_transitive(p.0, q.0, r.0);
        if p.0 == r.0 {
            lemma_lex_le_antisymmetric(p.0, q.0);
        }
    }
}

/// Compares two byte vectors in the byte-wise lexicographic order.
fn bytes_le(a: &Vec<u8>, b: &Vec<u8>) -> (r: bool)
    ensures
        r == lex_le(a@, b@),
{
    let mut i: usize = 0;
    let alen: usize = a.len();
    let blen: usize = b.len();
    proof {
        assert(a@.skip(0) =~= a@);
        assert(b@.skip(0) =~= b@);
    }
    loop
        invariant
            i <= alen,
            i <= blen,
            alen == a@.len(),
            blen == b@.len(),
            lex_le(a@, b@) == lex_le(a@.skip(i as int), b@.skip(i as int)),
        decreases alen - i,
    {
        if i == alen {
            return true;
        }
        if i == blen {
            return false;
        }
        let x: u8 = a[i];
        let y: u8 = b[i];
        proof {
            assert(a@.skip(i as int).first() == x);
            assert(b@.skip(i as int).first() == y);
            assert(a@.skip(i as int).drop_first() =~= a@.skip(i + 1));
            assert(b@.skip(i as int).drop_first() =~= b@.skip(i + 1));
        }
        if x < y {
            return true;
        }
        if x > y {
            return false;
        }
        i = i + 1;
    }
}

/// The parameter list a vector of byte-vector pairs stands for.
pub open spec fn pairs_view(v: Seq<(Vec<u8>, Vec<u8>)>) -> Seq<(Seq<u8>, Seq<u8>)> {
    v.map(|i: int, p: (Vec<u8>, Vec<u8>)| (p.0@, p.1@))
}

/// Decides [`pair_le`] on two parameters.
fn pair_le_exec(p: &(Vec<u8>, Vec<u8>), q: &(Vec<u8>, Vec<u8>)) -> (r: bool)
    ensures
        r == pair_le((p.0@, p.1@), (q.0@, q.1@)),
{
    let nle = bytes_le(&p.0, &q.0);
    let nge = bytes_le(&q.0, &p.0);
    if nle && nge {
        proof {
            lemma_lex_le_antisymmetric(p.0@, q.0@);
        }
        bytes_le(&p.1, &q.1)
    } else {
        proof {
            if p.0@ == q.0@ {
                lemma_lex_le_total(p.0@, p.0@);
            }
        }
        nle
    }
}

/// Inserts one parameter into a sorted list, keeping it sorted.
fn insert_sorted(out: &mut Vec<(Vec<u8>, Vec<u8>)>, x: (Vec<u8>, Vec<u8>))
    requires
        sorted_by(pairs_view(old(out)@), pair_order()),
    ensures
        sorted_by(pairs_view(final(out)@), pair_order()),
        pairs_view(final(out)@).to_multiset() == pairs_view(old(out)@).to_multiset().insert(
            (x.0@, x.1@),
        ),
{
    let ghost xv = (x.0@, x.1@);
    let ghost old_ov = pairs_view(out@);
    let mut j: usize = 0;
    #[verifier::loop_isolation(true)]
    loop
        invariant_except_break
            j <= out@.len(),
            forall|t: int| 0 <= t < j ==> pair_le(#[trigger] pairs_view(out@)[t], xv),
            pairs_view(out@) == old_ov,
            xv == (x.0@, x.1@),
        ensures
            j <= out@.len(),
            forall|t: int| 0 <= t < j ==> pair_le(#[trigger] pairs_view(out@)[t], xv),
            j < out@.len() ==> pair_le(xv, pairs_view(out@)[j as int]),
            pairs_view(out@) == old_ov,
        decreases out@.len() - j,
    {
        if j == out.len() {
            break ;
        }
        let keep_going = pair_le_exec(&out[j], &x);
        proof {
            assert(pairs_view(out@)[j as int] == (out@[j as int].0@, out@[j as int].1@));
        }
        if !keep_going {
            proof {
                let w = old_ov[j as int];
                assert(!pair_le(w, xv));
                if w.0 == xv.0 {
                    lemma_lex_le_total(w.1, xv.1);
                    assert(lex_le(xv.1, w.1));
                    assert(pair_le(xv, w));
                } else {
                    lemma_lex_le_total(w.0, xv.0);
                    assert(lex_le(xv.0, w.0));
                    assert(pair_le(xv, w));
                }
            }
            break ;
        }
        proof {
            assert(pair_le(old_ov[j as int], xv));
        }
        j = j + 1;
    }
    let ghost jj = j as int;
    out.insert(j, x);
    proof {
        let new_ov = pairs_view(out@);
        assert(new_ov =~= old_ov.insert(jj, xv)) by {
            assert forall|t: int| 0 <= t < new_ov.len() implies new_ov[t] == old_ov.insert(
                jj,
                xv,
            )[t] by {
                if t < jj {
                    assert(out@[t] == old(out)@[t]);
                } else if t == jj {
                    assert(out@[t] == x);
                } else {
                    assert(out@[t] == old(out)@[t - 1]);
                }
            }
        }
        let ins = old_ov.insert(jj, xv);
        assert(sorted_by(new_ov, pair_order())) by {
            assert forall|t1: int, t2: int|
                0 <= t1 < t2 < ins.len() implies #[trigger] pair_order()(ins[t1], ins[t2]) by {
                if t1 < jj && t2 < jj {
                    assert(ins[t1] == old_ov[t1] && ins[t2] == old_ov[t2]);
                    assert(pair_order()(old_ov[t1], old_ov[t2]));
                } else if t1 < jj && t2 == jj {
                    assert(ins[t1] == old_ov[t1] && ins[t2] == xv);
                    assert(pair_le(old_ov[t1], xv));
                } else if t1 < jj && t2 > jj {
                    assert(ins[t1] == old_ov[t1] && ins[t2] == old_ov[t2 - 1]);
                    assert(pair_order()(old_ov[t1], old_ov[t2 - 1]));
                } else if t1 == jj && t2 > jj {
                    assert(ins[t1] == xv && ins[t2] == old_ov[t2 - 1]);
                    assert(pair_le(xv, old_ov[jj]));
                    if t2 - 1 > jj {
                        assert(pair_order()(old_ov[jj], old_ov[t2 - 1]));
                        lemma_pair_le_transitive(xv, old_ov[jj], old_ov[t2 - 1]);
                    }
                } else {
                    assert(t1 > jj);
                    assert(ins[t1] == old_ov[t1 - 1] && ins[t2] == old_ov[t2 - 1]);
                    assert(pair_order()(old_ov[t1 - 1], old_ov[t2 - 1]));
                }
            }
        }
        assert(new_ov.to_multiset() == old_ov.to_multiset().insert(xv)) by {
            broadcast use vstd::seq_lib::group_to_multiset_ensures;

            assert(new_ov.remove(jj) =~= old_ov);
            assert(new_ov.remove(jj).to_multiset() == new_ov.to_multiset().remove(new_ov[jj]));
            assert(new_ov.contains(xv));
            assert(new_ov.to_multiset().count(xv) > 0);
            assert(new_ov.to_multiset() =~= old_ov.to_multiset().insert(xv));
        }
    }
}

/// Sorts a parameter list by [`pair_order`]; the result is exactly the
/// specification-level sort of the input.
pub fn sort_pairs(input: Vec<(Vec<u8>, Vec<u8>)>) -> (r: Vec<(Vec<u8>, Vec<u8>)>)
    ensures
        pairs_view(r@) == pairs_view(input@).sort_by(pair_order()),
{
    let ghost iview = pairs_view(input@);
    let mut out: Vec<(Vec<u8>, Vec<u8>)> = Vec::new();
    let mut rest: Vec<(Vec<u8>, Vec<u8>)> = input;
    proof {
        broadcast use vstd::seq_lib::group_to_multiset_ensures;
        broadcast use vstd::multiset::group_multiset_axioms;

        assert(pairs_view(out@).len() == 0);
        assert(pairs_view(out@).to_multiset().len() == 0);
        assert(pairs_view(out@).to_multiset() =~= Multiset::<(Seq<u8>, Seq<u8>)>::empty());
        assert(pairs_view(rest@) =~= iview);
        assert(pairs_view(out@).to_multiset().add(pairs_view(rest@).to_multiset())
            =~= iview.to_multiset());
    }
    loop
        invariant
            sorted_by(pairs_view(out@), pair_order()),
            pairs_view(out@).to_multiset().add(pairs_view(rest@).to_multiset())
                == iview.to_multiset(),
        decreases rest@.len(),
    {
        let ghost rv = pairs_view(rest@);
        let popped = rest.pop();
        match popped {
            None => {
                proof {
                    broadcast use vstd::seq_lib::group_to_multiset_ensures;
                    broadcast use vstd::multiset::group_multiset_axioms;

                    assert(rv.len() == 0);
                    assert(rv.to_multiset().len() == 0);
                    assert(rv.to_multiset() =~= Multiset::<(Seq<u8>, Seq<u8>)>::empty());
                    assert(pairs_view(out@).to_multiset() =~= iview.to_multiset());
                    lemma_pair_order_total();
                    iview.lemma_sort_by_ensures(pair_order());
                    lemma_sorted_unique(
                        pairs_view(out@),
                        iview.sort_by(pair_order()),
                        pair_order(),
                    );
                }
                return out;
            },
            Some(x) => {
                proof {
                    broadcast use vstd::seq_lib::group_to_multiset_ensures;
                    broadcast use vstd::multiset::group_multiset_axioms;

                    let xv = (x.0@, x.1@);
                    assert(pairs_view(rest@) =~= rv.drop_last());
                    assert(rv =~= rv.drop_last().push(xv));
                    assert(rv.to_multiset() == rv.drop_last().to_multiset().insert(xv));
                }
                insert_sorted(&mut out, x);
                proof {
                    broadcast use vstd::seq_lib::group_to_multiset_ensures;
                    broadcast use vstd::multiset::group_multiset_axioms;
                    broadcast use vstd::multiset::group_multiset_properties;

                    let xv = (x.0@, x.1@);
                    assert(pairs_view(out@).to_multiset().add(pairs_view(rest@).to_multiset())
                        =~= iview.to_multiset());
                }
            },
        }
    }
}

} // verus!
