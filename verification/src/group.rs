//! Grouping pairs by key, in key order.
//!
//! The reduce phase needs every value attached to a key, with the keys in
//! lexicographic order, so it can emit its records sorted without a separate
//! sort pass. The grouping structure is an association list kept strictly
//! sorted by key; inserting a pair appends its value to the key's group, or
//! opens a new group at the key's place in the order.

use crate::order::KeyOrder;
use crate::order::lemma_lex_asymmetric;
use crate::order::lemma_lex_irreflexive;
use crate::order::lemma_lex_transitive;
use crate::order::lemma_lex_trichotomy;
use crate::order::lex_lt;
use crate::order::str_compare;
use vstd::prelude::*;

verus! {

/// One key and every value seen for it, in encounter order.
pub struct Group {
    pub key: String,
    pub values: Vec<String>,
}

impl View for Group {
    type V = (Seq<char>, Seq<Seq<char>>);

    open spec fn view(&self) -> (Seq<char>, Seq<Seq<char>>) {
        (self.key@, self.values.deep_view())
    }
}

impl DeepView for Group {
    type V = (Seq<char>, Seq<Seq<char>>);

    open spec fn deep_view(&self) -> (Seq<char>, Seq<Seq<char>>) {
        self.view()
    }
}

/// Whether the groups' keys are strictly increasing: sorted, no duplicates.
pub open spec fn sorted_keys(gs: Seq<(Seq<char>, Seq<Seq<char>>)>) -> bool {
    forall|i: int, j: int|
        0 <= i < j < gs.len() ==> lex_lt(#[trigger] gs[i].0, #[trigger] gs[j].0)
}

/// Inserting one pair: the value joins its key's group, or a new group opens
/// at the key's place in the order.
pub open spec fn insert_pair_spec(
    gs: Seq<(Seq<char>, Seq<Seq<char>>)>,
    k: Seq<char>,
    v: Seq<char>,
) -> Seq<(Seq<char>, Seq<Seq<char>>)>
    decreases gs.len(),
{
    if gs.len() == 0 {
        seq![(k, seq![v])]
    } else if lex_lt(k, gs[0].0) {
        seq![(k, seq![v])] + gs
    } else if k == gs[0].0 {
        seq![(gs[0].0, gs[0].1.push(v))] + gs.drop_first()
    } else {
        seq![gs[0]] + insert_pair_spec(gs.drop_first(), k, v)
    }
}

/// Grouping a sequence of pairs, first to last, starting from `gs`.
pub open spec fn group_pairs_acc(
    gs: Seq<(Seq<char>, Seq<Seq<char>>)>,
    ps: Seq<(Seq<char>, Seq<char>)>,
) -> Seq<(Seq<char>, Seq<Seq<char>>)>
    decreases ps.len(),
{
    if ps.len() == 0 {
        gs
    } else {
        group_pairs_acc(insert_pair_spec(gs, ps[0].0, ps[0].1), ps.drop_first())
    }
}

/// The groups of a sequence of pairs: one group per distinct key, keys in
/// lexicographic order, each group's values in encounter order.
pub open spec fn group_pairs(ps: Seq<(Seq<char>, Seq<char>)>) -> Seq<
    (Seq<char>, Seq<Seq<char>>),
> {
    group_pairs_acc(seq![], ps)
}

/// Whether some group carries the key `k`.
pub open spec fn has_key(gs: Seq<(Seq<char>, Seq<Seq<char>>)>, k: Seq<char>) -> bool {
    exists|i: int| 0 <= i < gs.len() && (#[trigger] gs[i]).0 == k
}

/// The values of the first group carrying `k`, or the empty sequence.
pub open spec fn group_values(gs: Seq<(Seq<char>, Seq<Seq<char>>)>, k: Seq<char>) -> Seq<
    Seq<char>,
>
    decreases gs.len(),
{
    if gs.len() == 0 {
        seq![]
    } else if gs[0].0 == k {
        gs[0].1
    } else {
        group_values(gs.drop_first(), k)
    }
}

/// The values the pairs of `ps` carry for the key `k`, in order.
pub open spec fn values_of_key(ps: Seq<(Seq<char>, Seq<char>)>, k: Seq<char>) -> Seq<Seq<char>>
    decreases ps.len(),
{
    if ps.len() == 0 {
        seq![]
    } else {
        let rest = values_of_key(ps.drop_last(), k);
        if ps.last().0 == k {
            rest.push(ps.last().1)
        } else {
            rest
        }
    }
}

/// Whether some pair of `ps` carries the key `k`.
pub open spec fn pairs_have_key(ps: Seq<(Seq<char>, Seq<char>)>, k: Seq<char>) -> bool {
    exists|i: int| 0 <= i < ps.len() && (#[trigger] ps[i]).0 == k
}

/// The tail of a sorted group list is sorted.
pub proof fn lemma_sorted_tail(gs: Seq<(Seq<char>, Seq<Seq<char>>)>)
    requires
        sorted_keys(gs),
        gs.len() > 0,
    ensures
        sorted_keys(gs.drop_first()),
{
    assert(forall|i: int, j: int|
        0 <= i < j < gs.drop_first().len() ==> #[trigger] gs.drop_first()[i] == gs[i + 1]
            && #[trigger] gs.drop_first()[j] == gs[j + 1]);
}

/// In a sorted list whose first key is above `k`, no group carries `k`.
pub proof fn lemma_group_values_absent(gs: Seq<(Seq<char>, Seq<Seq<char>>)>, k: Seq<char>)
    requires
        sorted_keys(gs),
        gs.len() > 0 ==> lex_lt(k, gs[0].0),
    ensures
        group_values(gs, k) == Seq::<Seq<char>>::empty(),
        !has_key(gs, k),
    decreases gs.len(),
{
    if gs.len() == 0 {
        assert(group_values(gs, k) =~= Seq::<Seq<char>>::empty());
    } else {
        lemma_lex_irreflexive(k);
        assert(gs[0].0 != k);
        lemma_sorted_tail(gs);
        if gs.len() > 1 {
            assert(gs.drop_first()[0] == gs[1]);
            lemma_lex_transitive(k, gs[0].0, gs[1].0);
        }
        lemma_group_values_absent(gs.drop_first(), k);
        assert forall|i: int| 0 <= i < gs.len() implies (#[trigger] gs[i]).0 != k by {
            if i > 0 {
                assert(gs.drop_first()[i - 1] == gs[i]);
                assert(!has_key(gs.drop_first(), k));
            }
        }
    }
}

/// Inserting preserves sortedness, and touches exactly the key inserted: its
/// group gains the value at the end, every other group is unchanged.
pub proof fn lemma_insert_pair(gs: Seq<(Seq<char>, Seq<Seq<char>>)>, k: Seq<char>, v: Seq<char>)
    requires
        sorted_keys(gs),
    ensures
        sorted_keys(insert_pair_spec(gs, k, v)),
        group_values(insert_pair_spec(gs, k, v), k) == group_values(gs, k).push(v),
        forall|k2: Seq<char>|
            k2 != k ==> #[trigger] group_values(insert_pair_spec(gs, k, v), k2) == group_values(
                gs,
                k2,
            ),
        forall|k2: Seq<char>|
            #[trigger] has_key(insert_pair_spec(gs, k, v), k2) <==> (has_key(gs, k2) || k2 == k),
    decreases gs.len(),
{
    let r = insert_pair_spec(gs, k, v);
    if gs.len() == 0 {
        assert(r == seq![(k, seq![v])]);
        assert(r[0].0 == k);
        assert(r.drop_first() =~= Seq::<(Seq<char>, Seq<Seq<char>>)>::empty());
        assert(group_values(gs, k) =~= Seq::<Seq<char>>::empty());
        assert(group_values(r, k) =~= group_values(gs, k).push(v));
        assert forall|k2: Seq<char>| k2 != k implies #[trigger] group_values(r, k2)
            == group_values(gs, k2) by {
            assert(group_values(r, k2) == group_values(r.drop_first(), k2));
            assert(group_values(r.drop_first(), k2) =~= Seq::<Seq<char>>::empty());
            assert(group_values(gs, k2) =~= Seq::<Seq<char>>::empty());
        }
        assert forall|k2: Seq<char>| #[trigger] has_key(r, k2) <==> (has_key(gs, k2) || k2
            == k) by {
            if has_key(r, k2) {
                assert(r[0].0 == k);
            }
            if k2 == k {
                assert(r[0].0 == k2);
            }
        }
    } else if lex_lt(k, gs[0].0) {
        assert(r == seq![(k, seq![v])] + gs);
        assert(r[0] == (k, seq![v]));
        assert(r.drop_first() =~= gs);
        lemma_group_values_absent(gs, k);
        assert(group_values(r, k) == seq![v]);
        assert(group_values(gs, k).push(v) =~= seq![v]);
        lemma_lex_irreflexive(k);
        assert forall|i: int, j: int| 0 <= i < j < r.len() implies lex_lt(
            #[trigger] r[i].0,
            #[trigger] r[j].0,
        ) by {
            if i == 0 {
                assert(r[j] == gs[j - 1]);
                if j - 1 > 0 {
                    lemma_lex_transitive(k, gs[0].0, gs[j - 1].0);
                }
            } else {
                assert(r[i] == gs[i - 1]);
                assert(r[j] == gs[j - 1]);
            }
        }
        assert forall|k2: Seq<char>| k2 != k implies #[trigger] group_values(r, k2)
            == group_values(gs, k2) by {
            assert(r[0].0 == k);
            assert(group_values(r, k2) == group_values(r.drop_first(), k2));
        }
        assert forall|k2: Seq<char>| #[trigger] has_key(r, k2) <==> (has_key(gs, k2) || k2
            == k) by {
            if has_key(r, k2) {
                let i = choose|i: int| 0 <= i < r.len() && (#[trigger] r[i]).0 == k2;
                if i > 0 {
                    assert(gs[i - 1].0 == k2);
                }
            }
            if has_key(gs, k2) {
                let i = choose|i: int| 0 <= i < gs.len() && (#[trigger] gs[i]).0 == k2;
                assert(r[i + 1].0 == k2);
            }
            if k2 == k {
                assert(r[0].0 == k2);
            }
        }
    } else if k == gs[0].0 {
        assert(r == seq![(gs[0].0, gs[0].1.push(v))] + gs.drop_first());
        assert(r[0].0 == k);
        assert(r.drop_first() =~= gs.drop_first());
        assert(r.len() == gs.len());
        assert forall|i: int, j: int| 0 <= i < j < r.len() implies lex_lt(
            #[trigger] r[i].0,
            #[trigger] r[j].0,
        ) by {
            assert(r[j] == gs.drop_first()[j - 1]);
            assert(gs.drop_first()[j - 1] == gs[j]);
            if i > 0 {
                assert(r[i] == gs[i]);
            } else {
                assert(r[i].0 == gs[0].0);
            }
        }
        assert(group_values(r, k) == gs[0].1.push(v));
        assert forall|k2: Seq<char>| k2 != k implies #[trigger] group_values(r, k2)
            == group_values(gs, k2) by {
            assert(group_values(r, k2) == group_values(r.drop_first(), k2));
            assert(group_values(gs, k2) == group_values(gs.drop_first(), k2));
        }
        assert forall|k2: Seq<char>| #[trigger] has_key(r, k2) <==> (has_key(gs, k2) || k2
            == k) by {
            if has_key(r, k2) {
                let i = choose|i: int| 0 <= i < r.len() && (#[trigger] r[i]).0 == k2;
                assert(gs[i].0 == k2);
            }
            if has_key(gs, k2) {
                let i = choose|i: int| 0 <= i < gs.len() && (#[trigger] gs[i]).0 == k2;
                assert(r[i].0 == k2);
            }
        }
    } else {
        // k comes after the first key: neither below it nor equal to it.
        let rest = insert_pair_spec(gs.drop_first(), k, v);
        assert(r == seq![gs[0]] + rest);
        lemma_sorted_tail(gs);
        lemma_insert_pair(gs.drop_first(), k, v);
        lemma_lex_trichotomy(k, gs[0].0);
        assert(lex_lt(gs[0].0, k));
        assert forall|i: int, j: int| 0 <= i < j < r.len() implies lex_lt(
            #[trigger] r[i].0,
            #[trigger] r[j].0,
        ) by {
            if i == 0 {
                assert(r[j] == rest[j - 1]);
                assert(has_key(rest, rest[j - 1].0)) by {
                    assert((#[trigger] rest[j - 1]).0 == rest[j - 1].0);
                }
                if rest[j - 1].0 == k {
                    assert(lex_lt(gs[0].0, k));
                } else {
                    assert(has_key(gs.drop_first(), rest[j - 1].0));
                    let m = choose|m: int|
                        0 <= m < gs.drop_first().len() && (#[trigger] gs.drop_first()[m]).0
                            == rest[j - 1].0;
                    assert(gs.drop_first()[m] == gs[m + 1]);
                    assert(lex_lt(gs[0].0, gs[m + 1].0));
                }
            } else {
                assert(r[i] == rest[i - 1]);
                assert(r[j] == rest[j - 1]);
            }
        }
        assert(r.drop_first() =~= rest);
        assert(gs[0].0 != k);
        assert(group_values(r, k) == group_values(rest, k));
        assert(group_values(gs, k) == group_values(gs.drop_first(), k));
        assert forall|k2: Seq<char>| k2 != k implies #[trigger] group_values(r, k2)
            == group_values(gs, k2) by {
            if k2 != gs[0].0 {
                assert(group_values(r, k2) == group_values(rest, k2));
                assert(group_values(gs, k2) == group_values(gs.drop_first(), k2));
                assert(group_values(rest, k2) == group_values(gs.drop_first(), k2));
            }
        }
        assert forall|k2: Seq<char>| #[trigger] has_key(r, k2) <==> (has_key(gs, k2) || k2
            == k) by {
            if has_key(r, k2) {
                let i = choose|i: int| 0 <= i < r.len() && (#[trigger] r[i]).0 == k2;
                if i == 0 {
                    assert(gs[0].0 == k2);
                } else {
                    assert(rest[i - 1].0 == k2);
                    assert(has_key(rest, k2));
                    if k2 != k {
                        assert(has_key(gs.drop_first(), k2));
                        let m = choose|m: int|
                            0 <= m < gs.drop_first().len() && (#[trigger] gs.drop_first()[m]).0
                                == k2;
                        assert(gs[m + 1].0 == k2);
                    }
                }
            }
            if has_key(gs, k2) {
                let i = choose|i: int| 0 <= i < gs.len() && (#[trigger] gs[i]).0 == k2;
                if i == 0 {
                    assert(r[0].0 == k2);
                } else {
                    assert(gs.drop_first()[i - 1] == gs[i]);
                    assert(has_key(gs.drop_first(), k2));
                    assert(has_key(rest, k2));
                    let m = choose|m: int| 0 <= m < rest.len() && (#[trigger] rest[m]).0 == k2;
                    assert(r[m + 1].0 == k2);
                }
            }
            if k2 == k {
                assert(has_key(rest, k2));
                let m = choose|m: int| 0 <= m < rest.len() && (#[trigger] rest[m]).0 == k2;
                assert(r[m + 1].0 == k2);
            }
        }
    }
}

/// Grouping one more pair is one insertion into the groups so far.
pub proof fn lemma_group_acc_push(
    gs: Seq<(Seq<char>, Seq<Seq<char>>)>,
    ps: Seq<(Seq<char>, Seq<char>)>,
    p: (Seq<char>, Seq<char>),
)
    ensures
        group_pairs_acc(gs, ps.push(p)) == insert_pair_spec(group_pairs_acc(gs, ps), p.0, p.1),
    decreases ps.len(),
{
    if ps.len() == 0 {
        assert(ps.push(p)[0] == p);
        assert(ps.push(p).drop_first() =~= Seq::<(Seq<char>, Seq<char>)>::empty());
        assert(group_pairs_acc(gs, ps.push(p)) == group_pairs_acc(
            insert_pair_spec(gs, p.0, p.1),
            ps.push(p).drop_first(),
        ));
        assert(group_pairs_acc(insert_pair_spec(gs, p.0, p.1), ps.push(p).drop_first())
            == insert_pair_spec(gs, p.0, p.1));
        assert(group_pairs_acc(gs, ps) == gs);
    } else {
        assert(ps.push(p)[0] == ps[0]);
        assert(ps.push(p).drop_first() =~= ps.drop_first().push(p));
        lemma_group_acc_push(insert_pair_spec(gs, ps[0].0, ps[0].1), ps.drop_first(), p);
    }
}

/// The groups of any pair sequence are sorted, a key has a group exactly when
/// a pair carries it, and each group's values are the values of its key's
/// pairs in encounter order.
pub proof fn lemma_group_pairs(ps: Seq<(Seq<char>, Seq<char>)>, k: Seq<char>)
    ensures
        sorted_keys(group_pairs(ps)),
        has_key(group_pairs(ps), k) <==> pairs_have_key(ps, k),
        group_values(group_pairs(ps), k) == values_of_key(ps, k),
    decreases ps.len(),
{
    if ps.len() == 0 {
        assert(group_pairs(ps) == Seq::<(Seq<char>, Seq<Seq<char>>)>::empty()) by {
            assert(group_pairs_acc(seq![], ps) =~= Seq::<(Seq<char>, Seq<Seq<char>>)>::empty());
        }
        assert(group_values(group_pairs(ps), k) =~= Seq::<Seq<char>>::empty());
        assert(values_of_key(ps, k) =~= Seq::<Seq<char>>::empty());
    } else {
        let ps0 = ps.drop_last();
        let p = ps.last();
        lemma_group_pairs(ps0, k);
        lemma_group_acc_push(seq![], ps0, p);
        assert(ps0.push(p) =~= ps);
        assert(group_pairs(ps) == insert_pair_spec(group_pairs(ps0), p.0, p.1));
        lemma_insert_pair(group_pairs(ps0), p.0, p.1);
        if p.0 == k {
            assert(values_of_key(ps, k) == values_of_key(ps0, k).push(p.1));
            assert(group_values(group_pairs(ps), k) == group_values(group_pairs(ps0), k).push(
                p.1,
            ));
        } else {
            assert(values_of_key(ps, k) == values_of_key(ps0, k));
            assert(group_values(group_pairs(ps), k) == group_values(group_pairs(ps0), k));
        }
        assert(has_key(group_pairs(ps), k) <==> (has_key(group_pairs(ps0), k) || k == p.0));
        if pairs_have_key(ps, k) {
            let i = choose|i: int| 0 <= i < ps.len() && (#[trigger] ps[i]).0 == k;
            if i < ps0.len() {
                assert(ps0[i] == ps[i]);
                assert(pairs_have_key(ps0, k));
            } else {
                assert(p.0 == k);
            }
        }
        if pairs_have_key(ps0, k) {
            let i = choose|i: int| 0 <= i < ps0.len() && (#[trigger] ps0[i]).0 == k;
            assert(ps[i] == ps0[i]);
            assert(pairs_have_key(ps, k));
        }
        if p.0 == k {
            assert(ps[ps.len() - 1].0 == k);
            assert(pairs_have_key(ps, k));
        }
    }
}

/// Inserts one pair into a sorted group list.
pub fn insert_pair(groups: &mut Vec<Group>, key: String, value: String) -> (u: ())
    ensures
        final(groups).deep_view() == insert_pair_spec(old(groups).deep_view(), key@, value@),
{
    let ghost gs = old(groups).deep_view();
    let ghost kk = key@;
    let ghost vv = value@;
    let mut i: usize = 0;
    proof {
        assert(gs.take(0) =~= Seq::<(Seq<char>, Seq<Seq<char>>)>::empty());
        assert(gs.skip(0) =~= gs);
        assert(gs.take(0) + insert_pair_spec(gs.skip(0), kk, vv) =~= insert_pair_spec(
            gs.skip(0),
            kk,
            vv,
        ));
    }
    while i < groups.len()
        invariant
            0 <= i <= groups.len(),
            groups.deep_view() == gs,
            gs == old(groups).deep_view(),
            kk == key@,
            vv == value@,
            insert_pair_spec(gs, kk, vv) == gs.take(i as int) + insert_pair_spec(
                gs.skip(i as int),
                kk,
                vv,
            ),
        decreases groups.len() - i,
    {
        proof {
            assert(groups@[i as int].deep_view() == gs[i as int]);
            assert(gs.skip(i as int)[0] == gs[i as int]);
        }
        match str_compare(key.as_str(), groups[i].key.as_str()) {
            KeyOrder::Less => {
                let g = Group { key, values: vec![value] };
                proof {
                    assert(g.deep_view().1 =~= seq![vv]);
                    assert(g.deep_view() == (kk, seq![vv]));
                }
                groups.insert(i, g);
                proof {
                    assert(insert_pair_spec(gs.skip(i as int), kk, vv) == seq![(kk, seq![vv])]
                        + gs.skip(i as int));
                    assert(groups.deep_view() =~= gs.take(i as int) + (seq![(kk, seq![vv])]
                        + gs.skip(i as int)));
                }
                return ();
            },
            KeyOrder::Equal => {
                let mut g = groups.remove(i);
                proof {
                    assert(g.deep_view() == gs[i as int]);
                }
                g.values.push(value);
                proof {
                    assert(g.deep_view().1 =~= gs[i as int].1.push(vv));
                    assert(g.deep_view() == (gs[i as int].0, gs[i as int].1.push(vv)));
                }
                groups.insert(i, g);
                proof {
                    let head = gs.skip(i as int);
                    assert(insert_pair_spec(head, kk, vv) == seq![(head[0].0, head[0].1.push(vv))]
                        + head.drop_first());
                    assert(head.drop_first() =~= gs.skip(i as int + 1));
                    assert(groups.deep_view() =~= gs.take(i as int) + (seq![
                        (gs[i as int].0, gs[i as int].1.push(vv)),
                    ] + gs.skip(i as int + 1)));
                }
                return ();
            },
            KeyOrder::Greater => {
                proof {
                    lemma_lex_irreflexive(gs[i as int].0);
                    lemma_lex_asymmetric(kk, gs[i as int].0);
                    let head = gs.skip(i as int);
                    assert(insert_pair_spec(head, kk, vv) == seq![head[0]] + insert_pair_spec(
                        head.drop_first(),
                        kk,
                        vv,
                    ));
                    assert(head.drop_first() =~= gs.skip(i as int + 1));
                    assert(gs.take(i as int) + (seq![gs[i as int]] + insert_pair_spec(
                        gs.skip(i as int + 1),
                        kk,
                        vv,
                    )) =~= gs.take(i as int + 1) + insert_pair_spec(
                        gs.skip(i as int + 1),
                        kk,
                        vv,
                    ));
                }
                i = i + 1;
            },
        }
    }
    proof {
        assert(gs.skip(i as int).len() == 0);
        assert(insert_pair_spec(gs.skip(i as int), kk, vv) == seq![(kk, seq![vv])]);
    }
    let g = Group { key, values: vec![value] };
    proof {
        assert(g.deep_view().1 =~= seq![vv]);
        assert(g.deep_view() == (kk, seq![vv]));
    }
    groups.push(g);
    proof {
        assert(gs.take(gs.len() as int) =~= gs);
        assert(groups.deep_view() =~= gs.take(gs.len() as int) + seq![(kk, seq![vv])]);
    }
    ()
}

} // verus!
