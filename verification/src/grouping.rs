//! The grouping engine.
//!
//! One pass partitions a batch of candidates into classes of equal signature
//! at a given stage, keeps the order of first appearance within each class,
//! drops candidates without a signature, and returns only the classes with
//! two or more members: a singleton is provably unique under that signature.

use crate::candidate::{CandView, FileCandidate};
use crate::signature::{key_eq, signature, spec_signature, Key, KeyView, Stage};
use vstd::prelude::*;

verus! {

/// Whether a group is big enough to report: two or more members.
pub open spec fn spec_dup_pred() -> spec_fn(Seq<CandView>) -> bool {
    |g: Seq<CandView>| g.len() >= 2
}

/// Whether a candidate has the given signature at the given stage.
pub open spec fn spec_key_pred(st: Stage, k: KeyView) -> spec_fn(CandView) -> bool {
    |c: CandView| spec_signature(st, c) == Some(k)
}

/// The index of the first group whose members carry signature `k`, or -1.
/// A group's signature is the signature of its first member.
pub open spec fn spec_find_group(groups: Seq<Seq<CandView>>, st: Stage, k: KeyView) -> int
    decreases groups.len(),
{
    if groups.len() == 0 {
        -1
    } else if spec_signature(st, groups[0][0]) == Some(k) {
        0
    } else {
        let r = spec_find_group(groups.drop_first(), st, k);
        if r < 0 {
            -1
        } else {
            r + 1
        }
    }
}

/// Files one candidate into the partial grouping: appended to the group with
/// its signature, opening a new group for a fresh signature, dropped when it
/// has no signature at this stage.
pub open spec fn spec_insert(
    groups: Seq<Seq<CandView>>,
    st: Stage,
    c: CandView,
) -> Seq<Seq<CandView>> {
    match spec_signature(st, c) {
        None => groups,
        Some(k) => {
            let j = spec_find_group(groups, st, k);
            if j < 0 {
                groups.push(seq![c])
            } else {
                groups.update(j, groups[j].push(c))
            }
        },
    }
}

/// All equivalence classes of `s` under the stage's signature, in order of
/// first appearance, singletons included; candidates without a signature are
/// dropped.
pub open spec fn spec_raw_groups(s: Seq<CandView>, st: Stage) -> Seq<Seq<CandView>>
    decreases s.len(),
{
    if s.len() == 0 {
        Seq::empty()
    } else {
        spec_insert(spec_raw_groups(s.drop_last(), st), st, s.last())
    }
}

/// The groups one pass returns: the classes with two or more members.
pub open spec fn spec_dup_groups(s: Seq<CandView>, st: Stage) -> Seq<Seq<CandView>> {
    spec_raw_groups(s, st).filter(spec_dup_pred())
}

/// What `spec_find_group` returns: the first index whose group carries
/// signature `k`, and -1 exactly when no group does.
pub proof fn lemma_find_group_spec(groups: Seq<Seq<CandView>>, st: Stage, k: KeyView)
    ensures
        spec_find_group(groups, st, k) == -1 || (0 <= spec_find_group(groups, st, k)
            < groups.len()),
        spec_find_group(groups, st, k) >= 0 ==> spec_signature(
            st,
            groups[spec_find_group(groups, st, k)][0],
        ) == Some(k) && (forall|m: int|
            0 <= m < spec_find_group(groups, st, k) ==> spec_signature(st, groups[m][0])
                != Some(k)),
        spec_find_group(groups, st, k) == -1 ==> (forall|m: int|
            0 <= m < groups.len() ==> spec_signature(st, groups[m][0]) != Some(k)),
    decreases groups.len(),
{
    if groups.len() == 0 {
    } else if spec_signature(st, groups[0][0]) == Some(k) {
    } else {
        let rest = groups.drop_first();
        lemma_find_group_spec(rest, st, k);
        assert(forall|m: int| 0 <= m < rest.len() ==> rest[m] == groups[m + 1]);
        let r2 = spec_find_group(rest, st, k);
        if r2 >= 0 {
            assert(spec_signature(st, groups[r2 + 1][0]) == Some(k));
            assert forall|m: int| 0 <= m < r2 + 1 implies spec_signature(st, groups[m][0])
                != Some(k) by {
                if m >= 1 {
                    assert(spec_signature(st, rest[m - 1][0]) != Some(k));
                }
            }
        } else {
            assert forall|m: int| 0 <= m < groups.len() implies spec_signature(st, groups[m][0])
                != Some(k) by {
                if m >= 1 {
                    assert(spec_signature(st, rest[m - 1][0]) != Some(k));
                }
            }
        }
    }
}

/// Finds the first held key equal to `k`, if any.
fn find_key(keys: &Vec<Key>, k: &Key) -> (r: Option<usize>)
    ensures
        match r {
            Some(j) => j < keys@.len() && keys.deep_view()[j as int] == k@ && (forall|m: int|
                0 <= m < j ==> keys.deep_view()[m] != k@),
            None => forall|m: int| 0 <= m < keys@.len() ==> keys.deep_view()[m] != k@,
        },
{
    let mut j: usize = 0;
    while j < keys.len()
        invariant
            0 <= j <= keys@.len(),
            forall|m: int| 0 <= m < j ==> keys.deep_view()[m] != k@,
        decreases keys@.len() - j,
    {
        if key_eq(&keys[j], k) {
            return Some(j);
        }
        j = j + 1;
    }
    None
}

/// Copies a group of candidates; the copy has the same model.
pub(crate) fn clone_group(g: &Vec<FileCandidate>) -> (r: Vec<FileCandidate>)
    ensures
        r.deep_view() == g.deep_view(),
{
    let mut r: Vec<FileCandidate> = Vec::new();
    let mut i: usize = 0;
    while i < g.len()
        invariant
            0 <= i <= g@.len(),
            r.deep_view() == g.deep_view().take(i as int),
        decreases g@.len() - i,
    {
        let ghost prevr = r.deep_view();
        let c = g[i].clone();
        proof {
            assert(c.deep_view() == g.deep_view()[i as int]);
        }
        r.push(c);
        proof {
            assert(r.deep_view() =~= prevr.push(g.deep_view()[i as int]));
            assert(prevr.push(g.deep_view()[i as int]) =~= g.deep_view().take(i as int + 1));
        }
        i = i + 1;
    }
    proof {
        assert(g.deep_view().take(g@.len() as int) =~= g.deep_view());
    }
    r
}

/// The signature the members of a nonempty group share, as a key.
pub open spec fn spec_group_key(st: Stage, g: Seq<CandView>) -> KeyView
    recommends
        g.len() >= 1,
        spec_signature(st, g[0]) is Some,
{
    spec_signature(st, g[0])->Some_0
}

/// One unfolding step of `Seq::filter` at a pushed element.
pub proof fn lemma_filter_push<A>(s: Seq<A>, pred: spec_fn(A) -> bool, c: A)
    ensures
        s.push(c).filter(pred) == if pred(c) {
            s.filter(pred).push(c)
        } else {
            s.filter(pred)
        },
{
    reveal(Seq::filter);
    assert(s.push(c).drop_last() =~= s);
    assert(s.push(c).last() == c);
}

/// A sequence in which nothing satisfies the predicate filters to empty.
pub proof fn lemma_filter_none<A>(s: Seq<A>, pred: spec_fn(A) -> bool)
    requires
        forall|i: int| 0 <= i < s.len() ==> !pred(#[trigger] s[i]),
    ensures
        s.filter(pred) == Seq::<A>::empty(),
    decreases s.len(),
{
    reveal(Seq::filter);
    if s.len() > 0 {
        assert(forall|i: int| 0 <= i < s.drop_last().len() ==> s.drop_last()[i] == s[i]);
        lemma_filter_none(s.drop_last(), pred);
    }
}

/// Everything a filter keeps was in the source sequence.
pub proof fn lemma_filter_in_source<A>(s: Seq<A>, pred: spec_fn(A) -> bool)
    ensures
        forall|x: A| s.filter(pred).contains(x) ==> s.contains(x),
    decreases s.len(),
{
    reveal(Seq::filter);
    if s.len() > 0 {
        let s0 = s.drop_last();
        lemma_filter_in_source(s0, pred);
        assert forall|x: A| s.filter(pred).contains(x) implies s.contains(x) by {
            let f = s.filter(pred);
            let f0 = s0.filter(pred);
            if s0.contains(x) {
                let i0 = choose|i0: int| 0 <= i0 < s0.len() && s0[i0] == x;
                assert(s[i0] == x);
                assert(s.contains(x));
            }
            if pred(s.last()) {
                assert(f == f0.push(s.last()));
                let i = choose|i: int| 0 <= i < f.len() && f[i] == x;
                if i < f0.len() {
                    assert(f0[i] == x);
                    assert(f0.contains(x));
                    assert(s0.contains(x));
                } else {
                    assert(x == s.last());
                    assert(s[s.len() - 1] == x);
                }
            } else {
                assert(f == f0);
                assert(s0.contains(x));
            }
        }
    }
}

/// A pushed sequence keeps containing what it contained.
pub proof fn lemma_push_contains<A>(s: Seq<A>, c: A, x: A)
    requires
        s.contains(x),
    ensures
        s.push(c).contains(x),
{
    let i = choose|i: int| 0 <= i < s.len() && s[i] == x;
    assert(s.push(c)[i] == x);
}

/// What the raw grouping of a batch is: every class is nonempty, carries a
/// signature, equals the filter of the batch by that signature, classes have
/// pairwise distinct signatures, and every candidate with a signature lies
/// in some class.
pub proof fn lemma_raw_groups_spec(s: Seq<CandView>, st: Stage)
    ensures
        forall|j: int| 0 <= j < spec_raw_groups(s, st).len() ==> #[trigger] spec_raw_groups(
            s,
            st,
        )[j].len() >= 1,
        forall|j: int| 0 <= j < spec_raw_groups(s, st).len() ==> spec_signature(
            st,
            #[trigger] spec_raw_groups(s, st)[j][0],
        ) is Some,
        forall|j: int| 0 <= j < spec_raw_groups(s, st).len() ==> #[trigger] spec_raw_groups(
            s,
            st,
        )[j] == s.filter(spec_key_pred(st, spec_group_key(st, spec_raw_groups(s, st)[j]))),
        forall|j1: int, j2: int|
            0 <= j1 < j2 < spec_raw_groups(s, st).len() ==> spec_signature(
                st,
                #[trigger] spec_raw_groups(s, st)[j1][0],
            ) != spec_signature(st, #[trigger] spec_raw_groups(s, st)[j2][0]),
        forall|i: int|
            0 <= i < s.len() && (#[trigger] spec_signature(st, s[i])) is Some ==> exists|j: int|
                0 <= j < spec_raw_groups(s, st).len() && #[trigger] spec_raw_groups(
                    s,
                    st,
                )[j].contains(s[i]),
    decreases s.len(),
{
    if s.len() == 0 {
    } else {
        let s0 = s.drop_last();
        let c = s.last();
        lemma_raw_groups_spec(s0, st);
        let g0 = spec_raw_groups(s0, st);
        let g1 = spec_raw_groups(s, st);
        assert(s0.push(c) =~= s);
        match spec_signature(st, c) {
            None => {
                assert(g1 == g0);
                assert forall|j: int| 0 <= j < g1.len() implies #[trigger] g1[j] == s.filter(
                    spec_key_pred(st, spec_group_key(st, g1[j])),
                ) by {
                    let pk = spec_key_pred(st, spec_group_key(st, g0[j]));
                    lemma_filter_push(s0, pk, c);
                }
                assert forall|i: int|
                    0 <= i < s.len() && (#[trigger] spec_signature(st, s[i])) is Some implies exists|
                    j: int,
                |
                    0 <= j < g1.len() && #[trigger] g1[j].contains(s[i]) by {
                    assert(i < s0.len() && s0[i] == s[i]);
                }
            },
            Some(k) => {
                lemma_find_group_spec(g0, st, k);
                let fj = spec_find_group(g0, st, k);
                let pk = spec_key_pred(st, k);
                if fj >= 0 {
                    assert(g1 == g0.update(fj, g0[fj].push(c)));
                    assert(spec_group_key(st, g0[fj]) == k);
                    assert forall|j: int| 0 <= j < g1.len() implies #[trigger] g1[j] == s.filter(
                        spec_key_pred(st, spec_group_key(st, g1[j])),
                    ) by {
                        if j == fj {
                            assert(g1[j] == g0[fj].push(c));
                            assert(g1[j][0] == g0[fj][0]);
                            lemma_filter_push(s0, pk, c);
                            assert(s.filter(pk) == s0.filter(pk).push(c));
                        } else {
                            let kj = spec_group_key(st, g0[j]);
                            assert(g1[j] == g0[j]);
                            if j < fj {
                                assert(spec_signature(st, g0[j][0]) != Some(k));
                            } else {
                                assert(spec_signature(st, g0[j][0]) != spec_signature(
                                    st,
                                    g0[fj][0],
                                ));
                            }
                            assert(kj != k);
                            lemma_filter_push(s0, spec_key_pred(st, kj), c);
                        }
                    }
                    assert forall|i: int|
                        0 <= i < s.len() && (#[trigger] spec_signature(st, s[i])) is Some implies exists|
                        j: int,
                    |
                        0 <= j < g1.len() && #[trigger] g1[j].contains(s[i]) by {
                        if i < s0.len() {
                            let j = choose|j: int|
                                0 <= j < g0.len() && #[trigger] g0[j].contains(s0[i]);
                            if j == fj {
                                lemma_push_contains(g0[fj], c, s0[i]);
                                assert(g1[fj].contains(s[i]));
                            } else {
                                assert(g1[j].contains(s[i]));
                            }
                        } else {
                            assert(s[i] == c);
                            assert(g1[fj][g1[fj].len() - 1] == c);
                            assert(g1[fj].contains(c));
                        }
                    }
                } else {
                    assert(g1 == g0.push(seq![c]));
                    assert forall|i: int| 0 <= i < s0.len() implies !pk(#[trigger] s0[i]) by {
                        if spec_signature(st, s0[i]) == Some(k) {
                            let j = choose|j: int|
                                0 <= j < g0.len() && #[trigger] g0[j].contains(s0[i]);
                            let kj = spec_group_key(st, g0[j]);
                            let idx = choose|idx: int|
                                0 <= idx < g0[j].len() && g0[j][idx] == s0[i];
                            s0.lemma_filter_pred(spec_key_pred(st, kj), idx);
                            assert(spec_signature(st, s0[i]) == Some(kj));
                            assert(spec_signature(st, g0[j][0]) != Some(k));
                        }
                    }
                    lemma_filter_none(s0, pk);
                    lemma_filter_push(s0, pk, c);
                    assert(s.filter(pk) =~= seq![c]);
                    assert(g1[g0.len() as int] == seq![c]);
                    assert forall|j: int| 0 <= j < g1.len() implies #[trigger] g1[j] == s.filter(
                        spec_key_pred(st, spec_group_key(st, g1[j])),
                    ) by {
                        if j < g0.len() {
                            let kj = spec_group_key(st, g0[j]);
                            assert(g1[j] == g0[j]);
                            assert(spec_signature(st, g0[j][0]) != Some(k));
                            assert(kj != k);
                            lemma_filter_push(s0, spec_key_pred(st, kj), c);
                        } else {
                            assert(g1[j] == seq![c]);
                            assert(spec_group_key(st, g1[j]) == k);
                        }
                    }
                    assert forall|i: int|
                        0 <= i < s.len() && (#[trigger] spec_signature(st, s[i])) is Some implies exists|
                        j: int,
                    |
                        0 <= j < g1.len() && #[trigger] g1[j].contains(s[i]) by {
                        if i < s0.len() {
                            let j = choose|j: int|
                                0 <= j < g0.len() && #[trigger] g0[j].contains(s0[i]);
                            assert(g1[j].contains(s[i]));
                        } else {
                            assert(g1[g0.len() as int][0] == c);
                            assert(g1[g0.len() as int].contains(c));
                        }
                    }
                }
            },
        }
    }
}

/// Partitions the candidates by their signature at the given stage and
/// returns the classes with two or more members, in order of first
/// appearance, each keeping the input order of its members.
pub fn group_by(cands: &Vec<FileCandidate>, st: Stage) -> (groups: Vec<Vec<FileCandidate>>)
    ensures
        groups.deep_view() == spec_dup_groups(cands.deep_view(), st),
        forall|j: int| 0 <= j < groups.deep_view().len() ==> #[trigger] groups.deep_view()[j].len()
            >= 2,
{
    let ghost all = cands.deep_view();
    let mut raw: Vec<Vec<FileCandidate>> = Vec::new();
    let mut keys: Vec<Key> = Vec::new();
    let mut i: usize = 0;
    while i < cands.len()
        invariant
            0 <= i <= all.len(),
            all == cands.deep_view(),
            all.len() == cands@.len(),
            raw.deep_view() == spec_raw_groups(all.take(i as int), st),
            keys@.len() == raw@.len(),
            forall|j: int| 0 <= j < raw@.len() ==> #[trigger] raw.deep_view()[j].len() >= 1,
            forall|j: int| 0 <= j < raw@.len() ==> Some(#[trigger] keys.deep_view()[j])
                == spec_signature(st, raw.deep_view()[j][0]),
        decreases all.len() - i,
    {
        let ghost prev = raw.deep_view();
        let ghost cv = all[i as int];
        proof {
            assert(all.take(i as int + 1).drop_last() =~= all.take(i as int));
            assert(all.take(i as int + 1).last() == cv);
            assert(cv == cands@[i as int].deep_view());
        }
        match signature(&cands[i], st) {
            None => {
                proof {
                    assert(raw.deep_view() =~= spec_raw_groups(all.take(i as int + 1), st));
                }
            },
            Some(k) => {
                proof {
                    lemma_find_group_spec(prev, st, k@);
                }
                let c = cands[i].clone();
                match find_key(&keys, &k) {
                    Some(j) => {
                        proof {
                            assert(spec_signature(st, prev[j as int][0]) == Some(k@));
                            let r = spec_find_group(prev, st, k@);
                            if r == -1 {
                                assert(spec_signature(st, prev[j as int][0]) != Some(k@));
                            }
                            if 0 <= r < j {
                                assert(keys.deep_view()[r] != k@);
                                assert(Some(keys.deep_view()[r]) == spec_signature(
                                    st,
                                    prev[r][0],
                                ));
                            }
                            if r > j {
                                assert(spec_signature(st, prev[j as int][0]) != Some(k@));
                            }
                            assert(r == j);
                        }
                        let mut g = raw.remove(j);
                        let ghost rem = raw.deep_view();
                        proof {
                            assert(rem =~= prev.remove(j as int));
                            assert(g.deep_view() == prev[j as int]);
                        }
                        g.push(c);
                        proof {
                            assert(g.deep_view() =~= prev[j as int].push(cv));
                        }
                        let ghost gd = g.deep_view();
                        raw.insert(j, g);
                        proof {
                            assert(raw.deep_view() =~= rem.insert(j as int, gd));
                            assert(rem.insert(j as int, gd) =~= prev.update(j as int, gd));
                            assert(raw.deep_view() =~= spec_raw_groups(
                                all.take(i as int + 1),
                                st,
                            ));
                        }
                    },
                    None => {
                        proof {
                            assert forall|m: int| 0 <= m < prev.len() implies spec_signature(
                                st,
                                prev[m][0],
                            ) != Some(k@) by {
                                assert(keys.deep_view()[m] != k@);
                                assert(Some(keys.deep_view()[m]) == spec_signature(
                                    st,
                                    prev[m][0],
                                ));
                            }
                            assert(spec_find_group(prev, st, k@) == -1);
                        }
                        let ghost kk = k@;
                        let ghost oldkeys = keys.deep_view();
                        let mut g: Vec<FileCandidate> = Vec::new();
                        g.push(c);
                        proof {
                            assert(g.deep_view() =~= seq![cv]);
                        }
                        raw.push(g);
                        keys.push(k);
                        proof {
                            assert(keys.deep_view() =~= oldkeys.push(kk));
                            assert(raw.deep_view() =~= prev.push(seq![cv]));
                            assert(spec_signature(st, cv) == Some(kk));
                            assert(raw.deep_view() =~= spec_raw_groups(
                                all.take(i as int + 1),
                                st,
                            ));
                        }
                    },
                }
            },
        }
        i = i + 1;
    }
    proof {
        assert(all.take(all.len() as int) =~= all);
    }
    let ghost rawd = raw.deep_view();
    let ghost pred = spec_dup_pred();
    let mut groups: Vec<Vec<FileCandidate>> = Vec::new();
    let mut j: usize = 0;
    proof {
        reveal(Seq::filter);
        assert(groups.deep_view() =~= rawd.take(0).filter(pred));
    }
    while j < raw.len()
        invariant
            0 <= j <= rawd.len(),
            pred == spec_dup_pred(),
            rawd == raw.deep_view(),
            rawd.len() == raw@.len(),
            groups.deep_view() == rawd.take(j as int).filter(pred),
        decreases rawd.len() - j,
    {
        let ghost prev = groups.deep_view();
        proof {
            reveal(Seq::filter);
            assert(rawd.take(j as int + 1).drop_last() =~= rawd.take(j as int));
            assert(rawd.take(j as int + 1).last() == rawd[j as int]);
            let step = rawd.take(j as int + 1);
            assert(step.filter(pred) == if pred(step.last()) {
                step.drop_last().filter(pred).push(step.last())
            } else {
                step.drop_last().filter(pred)
            });
        }
        if raw[j].len() >= 2 {
            let g = clone_group(&raw[j]);
            groups.push(g);
            proof {
                assert(groups.deep_view() =~= prev.push(rawd[j as int]));
            }
        }
        proof {
            assert(groups.deep_view() =~= rawd.take(j as int + 1).filter(pred));
        }
        j = j + 1;
    }
    proof {
        assert(rawd.take(rawd.len() as int) =~= rawd);
        assert forall|m: int| 0 <= m < groups.deep_view().len() implies #[trigger] groups.deep_view()[m].len() >= 2 by {
            rawd.lemma_filter_pred(pred, m);
        }
    }
    groups
}

/// What one pass returns: every reported group has two or more members and
/// is exactly the subsequence of the batch carrying its shared signature.
pub proof fn lemma_dup_groups_spec(s: Seq<CandView>, st: Stage)
    ensures
        forall|j: int| 0 <= j < spec_dup_groups(s, st).len() ==> #[trigger] spec_dup_groups(
            s,
            st,
        )[j].len() >= 2,
        forall|j: int| 0 <= j < spec_dup_groups(s, st).len() ==> spec_signature(
            st,
            #[trigger] spec_dup_groups(s, st)[j][0],
        ) is Some,
        forall|j: int| 0 <= j < spec_dup_groups(s, st).len() ==> #[trigger] spec_dup_groups(
            s,
            st,
        )[j] == s.filter(spec_key_pred(st, spec_group_key(st, spec_dup_groups(s, st)[j]))),
{
    lemma_raw_groups_spec(s, st);
    let raw = spec_raw_groups(s, st);
    let dup = spec_dup_groups(s, st);
    lemma_filter_in_source(raw, spec_dup_pred());
    assert forall|j: int| 0 <= j < dup.len() implies #[trigger] dup[j].len() >= 2
        && spec_signature(st, dup[j][0]) is Some && dup[j] == s.filter(
        spec_key_pred(st, spec_group_key(st, dup[j])),
    ) by {
        raw.lemma_filter_pred(spec_dup_pred(), j);
        assert(dup.contains(dup[j]));
        assert(raw.contains(dup[j]));
        let j0 = choose|j0: int| 0 <= j0 < raw.len() && raw[j0] == dup[j];
        assert(raw[j0] == s.filter(spec_key_pred(st, spec_group_key(st, raw[j0]))));
    }
}

/// Two distinct candidates of a batch with the same signature end up
/// together in one reported group of that pass.
pub proof fn lemma_dup_groups_complete(s: Seq<CandView>, st: Stage, c1: CandView, c2: CandView)
    requires
        s.contains(c1),
        s.contains(c2),
        c1 != c2,
        spec_signature(st, c1) == spec_signature(st, c2),
        spec_signature(st, c1) is Some,
    ensures
        exists|j: int|
            0 <= j < spec_dup_groups(s, st).len() && (#[trigger] spec_dup_groups(s, st)[j]).contains(
                c1,
            ) && spec_dup_groups(s, st)[j].contains(c2),
{
    lemma_raw_groups_spec(s, st);
    let raw = spec_raw_groups(s, st);
    let k = spec_signature(st, c1)->Some_0;
    let pk = spec_key_pred(st, k);
    let i1 = choose|i1: int| 0 <= i1 < s.len() && s[i1] == c1;
    let j = choose|j: int| 0 <= j < raw.len() && #[trigger] raw[j].contains(c1);
    let kj = spec_group_key(st, raw[j]);
    let idx = choose|idx: int| 0 <= idx < raw[j].len() && raw[j][idx] == c1;
    s.lemma_filter_pred(spec_key_pred(st, kj), idx);
    assert(spec_signature(st, c1) == Some(kj));
    assert(kj == k);
    assert(raw[j] == s.filter(pk));
    let i2 = choose|i2: int| 0 <= i2 < s.len() && s[i2] == c2;
    s.lemma_filter_contains(pk, i2);
    assert(raw[j].contains(c2));
    let a = choose|a: int| 0 <= a < raw[j].len() && raw[j][a] == c1;
    let b = choose|b: int| 0 <= b < raw[j].len() && raw[j][b] == c2;
    assert(a != b);
    assert(raw[j].len() >= 2);
    raw.lemma_filter_contains(spec_dup_pred(), j);
    let jd = choose|jd: int|
        0 <= jd < spec_dup_groups(s, st).len() && spec_dup_groups(s, st)[jd] == raw[j];
    assert((#[trigger] spec_dup_groups(s, st)[jd]).contains(c1));
}

/// A nonempty batch whose members all share one signature forms a single
/// class.
pub proof fn lemma_raw_groups_uniform(g: Seq<CandView>, st: Stage)
    requires
        g.len() >= 1,
        spec_signature(st, g[0]) is Some,
        forall|m: int| 0 <= m < g.len() ==> spec_signature(st, #[trigger] g[m]) == spec_signature(
            st,
            g[0],
        ),
    ensures
        spec_raw_groups(g, st) == seq![g],
    decreases g.len(),
{
    let g0 = g.drop_last();
    let c = g.last();
    let k = spec_signature(st, g[0])->Some_0;
    if g.len() == 1 {
        assert(g =~= seq![c]);
        assert(spec_raw_groups(g0, st) == Seq::<Seq<CandView>>::empty());
        assert(spec_raw_groups(g, st) == spec_insert(Seq::empty(), st, c));
        assert(spec_find_group(Seq::empty(), st, k) == -1);
        assert(Seq::<Seq<CandView>>::empty().push(seq![c]) =~= seq![g]);
    } else {
        assert(g0[0] == g[0]);
        assert(forall|m: int| 0 <= m < g0.len() ==> g0[m] == g[m]);
        lemma_raw_groups_uniform(g0, st);
        assert(spec_raw_groups(g, st) == spec_insert(seq![g0], st, c));
        assert(spec_signature(st, c) == Some(k));
        assert(spec_signature(st, seq![g0][0][0]) == Some(k));
        assert(spec_find_group(seq![g0], st, k) == 0);
        assert(seq![g0].update(0, g0.push(c)) =~= seq![g0.push(c)]);
        assert(g0.push(c) =~= g);
        assert(seq![g0.push(c)] =~= seq![g]);
    }
}

/// A group already uniform under a stage, with two or more members, passes
/// that stage unchanged: re-grouping returns exactly that group.
pub proof fn lemma_dup_groups_uniform(g: Seq<CandView>, st: Stage)
    requires
        g.len() >= 2,
        spec_signature(st, g[0]) is Some,
        forall|m: int| 0 <= m < g.len() ==> spec_signature(st, #[trigger] g[m]) == spec_signature(
            st,
            g[0],
        ),
    ensures
        spec_dup_groups(g, st) == seq![g],
{
    lemma_raw_groups_uniform(g, st);
    reveal(Seq::filter);
    let raw = seq![g];
    assert(raw.drop_last() =~= Seq::<Seq<CandView>>::empty());
    assert(spec_dup_pred()(g));
    assert(raw.filter(spec_dup_pred()) == Seq::<Seq<CandView>>::empty().filter(
        spec_dup_pred(),
    ).push(g));
    assert(Seq::<Seq<CandView>>::empty().filter(spec_dup_pred()).push(g) =~= seq![g]);
}

} // verus!
