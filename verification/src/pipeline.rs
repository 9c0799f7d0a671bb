//! The progressive duplicate pipeline.
//!
//! A mode selects an ordered list of stages. Each stage re-partitions every
//! surviving group independently by its own signature and the resulting
//! subgroups, flattened in order, feed the next stage. Cheap signals run
//! first so that expensive content hashing only ever sees files that agreed
//! on everything cheaper.

use crate::candidate::{CandView, FileCandidate};
use crate::grouping::{
    group_by, lemma_dup_groups_complete, lemma_dup_groups_spec, lemma_dup_groups_uniform,
    lemma_filter_in_source, spec_dup_groups, spec_group_key, spec_key_pred,
};
use crate::signature::{sha1_of, spec_prefix, spec_signature, KeyView, Stage};
use vstd::prelude::*;

verus! {

/// The mode: which stages run, and in which order.
#[derive(Clone, Copy, PartialEq, Eq, Structural, Debug)]
pub enum Algorithm {
    /// Group by base name only.
    Name,
    /// Group by byte size only.
    Size,
    /// Group by base name, then by byte size.
    NameAndSize,
    /// Group by size, then by two bounded prefix hashes.
    FuzzyContent,
    /// Group by size, prefix hashes, then the full content hash.
    FullContent,
}

/// The ordered stages a mode enables.
pub open spec fn spec_stages_of(alg: Algorithm) -> Seq<Stage> {
    match alg {
        Algorithm::Name => seq![Stage::ByName],
        Algorithm::Size => seq![Stage::BySize],
        Algorithm::NameAndSize => seq![Stage::ByName, Stage::BySize],
        Algorithm::FuzzyContent => seq![
            Stage::BySize,
            Stage::ByPrefixHash(1024),
            Stage::ByPrefixHash(4096),
        ],
        Algorithm::FullContent => seq![
            Stage::BySize,
            Stage::ByPrefixHash(1024),
            Stage::ByPrefixHash(4096),
            Stage::ByPrefixHash(0),
        ],
    }
}

/// Builds the stage list of a mode.
pub fn stages_of(alg: Algorithm) -> (v: Vec<Stage>)
    ensures
        v@ == spec_stages_of(alg),
{
    let mut v: Vec<Stage> = Vec::new();
    match alg {
        Algorithm::Name => {
            v.push(Stage::ByName);
        },
        Algorithm::Size => {
            v.push(Stage::BySize);
        },
        Algorithm::NameAndSize => {
            v.push(Stage::ByName);
            v.push(Stage::BySize);
        },
        Algorithm::FuzzyContent => {
            v.push(Stage::BySize);
            v.push(Stage::ByPrefixHash(1024));
            v.push(Stage::ByPrefixHash(4096));
        },
        Algorithm::FullContent => {
            v.push(Stage::BySize);
            v.push(Stage::ByPrefixHash(1024));
            v.push(Stage::ByPrefixHash(4096));
            v.push(Stage::ByPrefixHash(0));
        },
    }
    proof {
        assert(v@ =~= spec_stages_of(alg));
    }
    v
}

/// One stage over all surviving groups: each group re-partitioned on its
/// own, all resulting subgroups flattened in order.
pub open spec fn spec_run_stage(gs: Seq<Seq<CandView>>, st: Stage) -> Seq<Seq<CandView>>
    decreases gs.len(),
{
    if gs.len() == 0 {
        Seq::empty()
    } else {
        spec_run_stage(gs.drop_last(), st) + spec_dup_groups(gs.last(), st)
    }
}

/// The stages applied in order, each feeding the next.
pub open spec fn spec_run_stages(gs: Seq<Seq<CandView>>, stages: Seq<Stage>) -> Seq<Seq<
    CandView,
>>
    decreases stages.len(),
{
    if stages.len() == 0 {
        gs
    } else {
        spec_run_stages(spec_run_stage(gs, stages[0]), stages.drop_first())
    }
}

/// The pipeline's final groups on a candidate set under a mode: the whole
/// set enters as one batch.
pub open spec fn spec_pipeline(s: Seq<CandView>, alg: Algorithm) -> Seq<Seq<CandView>> {
    spec_run_stages(seq![s], spec_stages_of(alg))
}

/// The progress observation after one stage: how many groups survive it.
pub struct StageReport {
    /// The stage that just ran.
    pub stage: Stage,
    /// How many candidate-duplicate groups survived it.
    pub groups: usize,
}

/// Appending a stage to the schedule runs it last.
pub proof fn lemma_run_stages_snoc(gs: Seq<Seq<CandView>>, stages: Seq<Stage>, st: Stage)
    ensures
        spec_run_stages(gs, stages.push(st)) == spec_run_stage(spec_run_stages(gs, stages), st),
    decreases stages.len(),
{
    if stages.len() == 0 {
        assert(stages.push(st)[0] == st);
        assert(stages.push(st).drop_first() =~= Seq::<Stage>::empty());
        assert(spec_run_stages(gs, stages.push(st)) == spec_run_stages(
            spec_run_stage(gs, st),
            Seq::<Stage>::empty(),
        ));
        assert(spec_run_stages(spec_run_stage(gs, st), Seq::<Stage>::empty())
            == spec_run_stage(gs, st));
        assert(spec_run_stages(gs, stages) == gs);
    } else {
        assert(stages.push(st)[0] == stages[0]);
        assert(stages.push(st).drop_first() =~= stages.drop_first().push(st));
        lemma_run_stages_snoc(spec_run_stage(gs, stages[0]), stages.drop_first(), st);
        assert(spec_run_stages(gs, stages.push(st)) == spec_run_stages(
            spec_run_stage(gs, stages[0]),
            stages.drop_first().push(st),
        ));
        assert(spec_run_stages(gs, stages) == spec_run_stages(
            spec_run_stage(gs, stages[0]),
            stages.drop_first(),
        ));
    }
}

/// Applies one stage to every group and flattens the surviving subgroups.
pub fn run_stage(groups: &Vec<Vec<FileCandidate>>, st: Stage) -> (out: Vec<Vec<FileCandidate>>)
    ensures
        out.deep_view() == spec_run_stage(groups.deep_view(), st),
{
    let ghost gsd = groups.deep_view();
    let mut out: Vec<Vec<FileCandidate>> = Vec::new();
    let mut i: usize = 0;
    while i < groups.len()
        invariant
            0 <= i <= gsd.len(),
            gsd == groups.deep_view(),
            gsd.len() == groups@.len(),
            out.deep_view() == spec_run_stage(gsd.take(i as int), st),
        decreases gsd.len() - i,
    {
        let ghost prev = out.deep_view();
        proof {
            assert(gsd.take(i as int + 1).drop_last() =~= gsd.take(i as int));
            assert(gsd.take(i as int + 1).last() == gsd[i as int]);
            assert(gsd[i as int] == groups@[i as int].deep_view());
        }
        let mut sub = group_by(&groups[i], st);
        let ghost subd = sub.deep_view();
        out.append(&mut sub);
        proof {
            assert(out.deep_view() =~= prev + subd);
            assert(out.deep_view() =~= spec_run_stage(gsd.take(i as int + 1), st));
        }
        i = i + 1;
    }
    proof {
        assert(gsd.take(gsd.len() as int) =~= gsd);
    }
    out
}

/// Runs the selected stages over the candidate set, with the whole set as
/// the one starting batch, and reports the surviving group count after each
/// stage.
pub fn find_duplicate_files(files: Vec<FileCandidate>, alg: Algorithm) -> (res: (
    Vec<Vec<FileCandidate>>,
    Vec<StageReport>,
))
    ensures
        res.0.deep_view() == spec_pipeline(files.deep_view(), alg),
        forall|j: int|
            0 <= j < res.0.deep_view().len() ==> (#[trigger] res.0.deep_view()[j]).len() >= 2,
        res.1@.len() == spec_stages_of(alg).len(),
        forall|i: int|
            0 <= i < res.1@.len() ==> (#[trigger] res.1@[i]).stage == spec_stages_of(alg)[i]
                && res.1@[i].groups as int == spec_run_stages(
                seq![files.deep_view()],
                spec_stages_of(alg).take(i + 1),
            ).len(),
{
    let ghost fsd = files.deep_view();
    let ghost allstages = spec_stages_of(alg);
    let stages = stages_of(alg);
    let mut cur: Vec<Vec<FileCandidate>> = Vec::new();
    cur.push(files);
    proof {
        assert(cur.deep_view() =~= seq![fsd]);
        assert(allstages.take(0) =~= Seq::<Stage>::empty());
    }
    let ghost init = cur.deep_view();
    let mut reports: Vec<StageReport> = Vec::new();
    let mut i: usize = 0;
    while i < stages.len()
        invariant
            0 <= i <= allstages.len(),
            stages@ == allstages,
            allstages.len() == stages@.len(),
            init == seq![fsd],
            cur.deep_view() == spec_run_stages(init, allstages.take(i as int)),
            reports@.len() == i,
            forall|m: int|
                0 <= m < i ==> (#[trigger] reports@[m]).stage == allstages[m]
                    && reports@[m].groups as int == spec_run_stages(
                    init,
                    allstages.take(m + 1),
                ).len(),
        decreases allstages.len() - i,
    {
        let st = stages[i];
        let next = run_stage(&cur, st);
        proof {
            assert(allstages.take(i as int + 1) =~= allstages.take(i as int).push(st));
            lemma_run_stages_snoc(init, allstages.take(i as int), st);
        }
        let count = next.len();
        cur = next;
        reports.push(StageReport { stage: st, groups: count });
        i = i + 1;
    }
    proof {
        assert(allstages.take(allstages.len() as int) =~= allstages);
        match alg {
            Algorithm::Name => assert(allstages.len() >= 1),
            Algorithm::Size => assert(allstages.len() >= 1),
            Algorithm::NameAndSize => assert(allstages.len() >= 1),
            Algorithm::FuzzyContent => assert(allstages.len() >= 1),
            Algorithm::FullContent => assert(allstages.len() >= 1),
        }
        lemma_run_stages_spec(init, allstages);
    }
    (cur, reports)
}

/// Every member of `g` also lies in `h`.
pub open spec fn spec_subgroup(g: Seq<CandView>, h: Seq<CandView>) -> bool {
    forall|x: CandView| g.contains(x) ==> h.contains(x)
}

/// All members of `g` carry one and the same signature at the stage.
pub open spec fn spec_uniform(g: Seq<CandView>, st: Stage) -> bool
    recommends
        g.len() >= 1,
{
    spec_signature(st, g[0]) is Some && (forall|m: int|
        0 <= m < g.len() ==> spec_signature(st, #[trigger] g[m]) == spec_signature(st, g[0]))
}

/// What one stage emits: no singleton ever (every group has two or more
/// members), every group is uniform under the stage's signature, and the
/// output refines the input partition: each emitted group draws all its
/// members from one single input group.
pub proof fn lemma_run_stage_spec(gs: Seq<Seq<CandView>>, st: Stage)
    ensures
        forall|j: int| 0 <= j < spec_run_stage(gs, st).len() ==> (#[trigger] spec_run_stage(
            gs,
            st,
        )[j]).len() >= 2,
        forall|j: int| 0 <= j < spec_run_stage(gs, st).len() ==> spec_uniform(
            #[trigger] spec_run_stage(gs, st)[j],
            st,
        ),
        forall|j: int|
            0 <= j < spec_run_stage(gs, st).len() ==> exists|j0: int|
                0 <= j0 < gs.len() && spec_subgroup(#[trigger] spec_run_stage(gs, st)[j], gs[j0]),
    decreases gs.len(),
{
    if gs.len() == 0 {
    } else {
        let gs0 = gs.drop_last();
        let last = gs.last();
        lemma_run_stage_spec(gs0, st);
        lemma_dup_groups_spec(last, st);
        let r0 = spec_run_stage(gs0, st);
        let d = spec_dup_groups(last, st);
        let r = spec_run_stage(gs, st);
        assert(r == r0 + d);
        assert forall|j: int|
            0 <= j < r.len() implies (#[trigger] r[j]).len() >= 2 && spec_uniform(r[j], st)
            && (exists|j0: int| 0 <= j0 < gs.len() && spec_subgroup(r[j], gs[j0])) by {
            if j < r0.len() {
                assert(r[j] == r0[j]);
                let j0 = choose|j0: int| 0 <= j0 < gs0.len() && spec_subgroup(r0[j], gs0[j0]);
                assert(gs[j0] == gs0[j0]);
                assert(spec_subgroup(r[j], gs[j0]));
            } else {
                let g = d[j - r0.len()];
                assert(r[j] == g);
                let k = spec_group_key(st, g);
                let pk = spec_key_pred(st, k);
                assert(g == last.filter(pk));
                assert forall|m: int| 0 <= m < g.len() implies spec_signature(
                    st,
                    #[trigger] g[m],
                ) == spec_signature(st, g[0]) by {
                    last.lemma_filter_pred(pk, m);
                    last.lemma_filter_pred(pk, 0);
                }
                lemma_filter_in_source(last, pk);
                assert(spec_subgroup(g, last));
                assert(gs[gs.len() - 1] == last);
                assert(spec_subgroup(r[j], gs[gs.len() - 1]));
            }
        }
    }
}

/// A subset of a uniform group is uniform.
pub proof fn lemma_uniform_subgroup(g: Seq<CandView>, h: Seq<CandView>, st: Stage)
    requires
        g.len() >= 1,
        h.len() >= 1,
        spec_subgroup(g, h),
        spec_uniform(h, st),
    ensures
        spec_uniform(g, st),
{
    assert forall|m: int| 0 <= m < g.len() implies spec_signature(st, #[trigger] g[m])
        == spec_signature(st, h[0]) by {
        assert(g.contains(g[m]));
        assert(h.contains(g[m]));
        let i = choose|i: int| 0 <= i < h.len() && h[i] == g[m];
        assert(spec_signature(st, h[i]) == spec_signature(st, h[0]));
    }
    assert(g.contains(g[0]));
}

/// What a whole schedule emits, when at least one stage runs: no singleton,
/// every group uniform under every scheduled stage, and every group drawn
/// from one single starting batch.
pub proof fn lemma_run_stages_spec(gs: Seq<Seq<CandView>>, ss: Seq<Stage>)
    requires
        ss.len() >= 1,
    ensures
        forall|j: int| 0 <= j < spec_run_stages(gs, ss).len() ==> (#[trigger] spec_run_stages(
            gs,
            ss,
        )[j]).len() >= 2,
        forall|j: int, t: int|
            0 <= j < spec_run_stages(gs, ss).len() && 0 <= t < ss.len() ==> spec_uniform(
                #[trigger] spec_run_stages(gs, ss)[j],
                #[trigger] ss[t],
            ),
        forall|j: int|
            0 <= j < spec_run_stages(gs, ss).len() ==> exists|j0: int|
                0 <= j0 < gs.len() && spec_subgroup(
                    #[trigger] spec_run_stages(gs, ss)[j],
                    gs[j0],
                ),
    decreases ss.len(),
{
    let r1 = spec_run_stage(gs, ss[0]);
    let rest = ss.drop_first();
    lemma_run_stage_spec(gs, ss[0]);
    let r = spec_run_stages(gs, ss);
    if ss.len() == 1 {
        assert(rest =~= Seq::<Stage>::empty());
        assert(spec_run_stages(r1, rest) == r1);
        assert(r == r1);
        assert(forall|t: int| 0 <= t < ss.len() ==> #[trigger] ss[t] == ss[0]);
    } else {
        lemma_run_stages_spec(r1, rest);
        assert(r == spec_run_stages(r1, rest));
        assert forall|j: int, t: int|
            0 <= j < r.len() && 0 <= t < ss.len() implies spec_uniform(
            #[trigger] r[j],
            #[trigger] ss[t],
        ) by {
            let j0 = choose|j0: int| 0 <= j0 < r1.len() && spec_subgroup(r[j], r1[j0]);
            if t == 0 {
                assert(spec_uniform(r1[j0], ss[0]));
                lemma_uniform_subgroup(r[j], r1[j0], ss[0]);
            } else {
                assert(rest[t - 1] == ss[t]);
                assert(spec_uniform(r[j], rest[t - 1]));
            }
        }
        assert forall|j: int| 0 <= j < r.len() implies exists|j0: int|
            0 <= j0 < gs.len() && spec_subgroup(#[trigger] r[j], gs[j0]) by {
            let j1 = choose|j1: int| 0 <= j1 < r1.len() && spec_subgroup(r[j], r1[j1]);
            let j0 = choose|j0: int| 0 <= j0 < gs.len() && spec_subgroup(r1[j1], gs[j0]);
            assert(spec_subgroup(r[j], gs[j0]));
        }
    }
}

/// A stage leaves untouched a partition whose groups are already uniform
/// under it and have two or more members each.
pub proof fn lemma_run_stage_fixed(gs: Seq<Seq<CandView>>, st: Stage)
    requires
        forall|j: int| 0 <= j < gs.len() ==> (#[trigger] gs[j]).len() >= 2,
        forall|j: int| 0 <= j < gs.len() ==> spec_uniform(#[trigger] gs[j], st),
    ensures
        spec_run_stage(gs, st) == gs,
    decreases gs.len(),
{
    if gs.len() == 0 {
        assert(spec_run_stage(gs, st) =~= gs);
    } else {
        let gs0 = gs.drop_last();
        let last = gs.last();
        assert(forall|j: int| 0 <= j < gs0.len() ==> gs0[j] == gs[j]);
        lemma_run_stage_fixed(gs0, st);
        assert(gs[gs.len() - 1] == last);
        lemma_dup_groups_uniform(last, st);
        assert(spec_run_stage(gs, st) == gs0 + seq![last]);
        assert(gs0 + seq![last] =~= gs);
    }
}

/// A schedule leaves untouched a partition already uniform under every one
/// of its stages, with two or more members per group.
pub proof fn lemma_run_stages_fixed(gs: Seq<Seq<CandView>>, ss: Seq<Stage>)
    requires
        forall|j: int| 0 <= j < gs.len() ==> (#[trigger] gs[j]).len() >= 2,
        forall|j: int, t: int|
            0 <= j < gs.len() && 0 <= t < ss.len() ==> spec_uniform(
                #[trigger] gs[j],
                #[trigger] ss[t],
            ),
    ensures
        spec_run_stages(gs, ss) == gs,
    decreases ss.len(),
{
    if ss.len() == 0 {
    } else {
        assert(forall|j: int| 0 <= j < gs.len() ==> spec_uniform(#[trigger] gs[j], ss[0]));
        lemma_run_stage_fixed(gs, ss[0]);
        let rest = ss.drop_first();
        assert(forall|t: int| 0 <= t < rest.len() ==> rest[t] == ss[t + 1]);
        lemma_run_stages_fixed(gs, rest);
    }
}

/// Running the pipeline again on its own unmodified output changes nothing:
/// the final groups are a fixed point of the schedule.
pub proof fn lemma_pipeline_idempotent(s: Seq<CandView>, alg: Algorithm)
    ensures
        spec_run_stages(spec_pipeline(s, alg), spec_stages_of(alg)) == spec_pipeline(s, alg),
{
    let ss = spec_stages_of(alg);
    match alg {
        Algorithm::Name => assert(ss.len() >= 1),
        Algorithm::Size => assert(ss.len() >= 1),
        Algorithm::NameAndSize => assert(ss.len() >= 1),
        Algorithm::FuzzyContent => assert(ss.len() >= 1),
        Algorithm::FullContent => assert(ss.len() >= 1),
    }
    lemma_run_stages_spec(seq![s], ss);
    lemma_run_stages_fixed(spec_pipeline(s, alg), ss);
}

/// A one-stage schedule is a single grouping pass on the whole batch.
pub proof fn lemma_single_stage(s: Seq<CandView>, st: Stage)
    ensures
        spec_run_stages(seq![s], seq![st]) == spec_dup_groups(s, st),
{
    let gs = seq![s];
    let ss = seq![st];
    assert(ss.drop_first() =~= Seq::<Stage>::empty());
    assert(spec_run_stages(gs, ss) == spec_run_stages(spec_run_stage(gs, ss[0]), ss.drop_first()));
    assert(spec_run_stages(spec_run_stage(gs, st), Seq::<Stage>::empty()) == spec_run_stage(
        gs,
        st,
    ));
    assert(gs.drop_last() =~= Seq::<Seq<CandView>>::empty());
    assert(spec_run_stage(Seq::<Seq<CandView>>::empty(), st) == Seq::<Seq<CandView>>::empty());
    assert(spec_run_stage(gs, st) == spec_run_stage(Seq::<Seq<CandView>>::empty(), st)
        + spec_dup_groups(s, st));
    assert(Seq::<Seq<CandView>>::empty() + spec_dup_groups(s, st) =~= spec_dup_groups(s, st));
}

/// Every group of one batch's pass appears among the stage's output groups.
pub proof fn lemma_run_stage_lift(gs: Seq<Seq<CandView>>, st: Stage, j: int)
    requires
        0 <= j < gs.len(),
    ensures
        forall|x: Seq<CandView>|
            spec_dup_groups(gs[j], st).contains(x) ==> spec_run_stage(gs, st).contains(x),
    decreases gs.len(),
{
    let r = spec_run_stage(gs, st);
    let gs0 = gs.drop_last();
    let r0 = spec_run_stage(gs0, st);
    let d = spec_dup_groups(gs.last(), st);
    assert(r == r0 + d);
    if j == gs.len() - 1 {
        assert(gs[j] == gs.last());
        assert forall|x: Seq<CandView>| d.contains(x) implies r.contains(x) by {
            let idx = choose|idx: int| 0 <= idx < d.len() && d[idx] == x;
            assert(r[r0.len() + idx] == x);
        }
    } else {
        assert(gs0[j] == gs[j]);
        lemma_run_stage_lift(gs0, st, j);
        assert forall|x: Seq<CandView>| spec_dup_groups(gs[j], st).contains(x) implies r.contains(
            x,
        ) by {
            assert(r0.contains(x));
            let idx = choose|idx: int| 0 <= idx < r0.len() && r0[idx] == x;
            assert(r[idx] == x);
        }
    }
}

/// Two distinct candidates sharing a batch, whose signatures agree and
/// exist at every scheduled stage, still share a group after the schedule.
pub proof fn lemma_run_stages_keeps_pair(
    gs: Seq<Seq<CandView>>,
    ss: Seq<Stage>,
    c1: CandView,
    c2: CandView,
)
    requires
        c1 != c2,
        exists|j: int|
            0 <= j < gs.len() && (#[trigger] gs[j]).contains(c1) && gs[j].contains(c2),
        forall|t: int|
            0 <= t < ss.len() ==> spec_signature(#[trigger] ss[t], c1) == spec_signature(
                ss[t],
                c2,
            ) && spec_signature(ss[t], c1) is Some,
    ensures
        exists|j: int|
            0 <= j < spec_run_stages(gs, ss).len() && (#[trigger] spec_run_stages(
                gs,
                ss,
            )[j]).contains(c1) && spec_run_stages(gs, ss)[j].contains(c2),
    decreases ss.len(),
{
    if ss.len() == 0 {
        assert(spec_run_stages(gs, ss) == gs);
        let j = choose|j: int|
            0 <= j < gs.len() && (#[trigger] gs[j]).contains(c1) && gs[j].contains(c2);
        assert((#[trigger] spec_run_stages(gs, ss)[j]).contains(c1) && spec_run_stages(
            gs,
            ss,
        )[j].contains(c2));
    } else {
        let st = ss[0];
        let j = choose|j: int|
            0 <= j < gs.len() && (#[trigger] gs[j]).contains(c1) && gs[j].contains(c2);
        lemma_dup_groups_complete(gs[j], st, c1, c2);
        let jj = choose|jj: int|
            0 <= jj < spec_dup_groups(gs[j], st).len() && (#[trigger] spec_dup_groups(
                gs[j],
                st,
            )[jj]).contains(c1) && spec_dup_groups(gs[j], st)[jj].contains(c2);
        let h = spec_dup_groups(gs[j], st)[jj];
        lemma_run_stage_lift(gs, st, j);
        let r1 = spec_run_stage(gs, st);
        assert(spec_dup_groups(gs[j], st).contains(h));
        assert(r1.contains(h));
        let jr = choose|jr: int| 0 <= jr < r1.len() && r1[jr] == h;
        assert((#[trigger] r1[jr]).contains(c1) && r1[jr].contains(c2));
        let rest = ss.drop_first();
        assert(forall|t: int| 0 <= t < rest.len() ==> #[trigger] rest[t] == ss[t + 1]);
        lemma_run_stages_keeps_pair(r1, rest, c1, c2);
        assert(spec_run_stages(gs, ss) == spec_run_stages(r1, rest));
        let r = spec_run_stages(r1, rest);
        let jf = choose|jf: int|
            0 <= jf < r.len() && (#[trigger] r[jf]).contains(c1) && r[jf].contains(c2);
        assert((#[trigger] spec_run_stages(gs, ss)[jf]).contains(c1) && spec_run_stages(
            gs,
            ss,
        )[jf].contains(c2));
    }
}

/// Name-only mode groups two distinct candidates of the set if and only if
/// their base names are equal, whatever their sizes or contents.
pub proof fn lemma_name_mode_groups(s: Seq<CandView>, c1: CandView, c2: CandView)
    requires
        s.contains(c1),
        s.contains(c2),
        c1 != c2,
    ensures
        (exists|j: int|
            0 <= j < spec_pipeline(s, Algorithm::Name).len() && (#[trigger] spec_pipeline(
                s,
                Algorithm::Name,
            )[j]).contains(c1) && spec_pipeline(s, Algorithm::Name)[j].contains(c2)) <==> c1.name
            == c2.name,
{
    let st = Stage::ByName;
    lemma_single_stage(s, st);
    let p = spec_pipeline(s, Algorithm::Name);
    assert(p == spec_dup_groups(s, st));
    if c1.name == c2.name {
        assert(spec_signature(st, c1) == Some(KeyView::Name(c1.name)));
        assert(spec_signature(st, c1) == spec_signature(st, c2));
        lemma_dup_groups_complete(s, st, c1, c2);
    }
    if exists|j: int|
        0 <= j < p.len() && (#[trigger] p[j]).contains(c1) && p[j].contains(c2) {
        let j = choose|j: int|
            0 <= j < p.len() && (#[trigger] p[j]).contains(c1) && p[j].contains(c2);
        lemma_dup_groups_spec(s, st);
        let k = spec_group_key(st, p[j]);
        let pk = spec_key_pred(st, k);
        assert(p[j] == s.filter(pk));
        let a = choose|a: int| 0 <= a < p[j].len() && p[j][a] == c1;
        let b = choose|b: int| 0 <= b < p[j].len() && p[j][b] == c2;
        s.lemma_filter_pred(pk, a);
        s.lemma_filter_pred(pk, b);
        assert(spec_signature(st, c1) == Some(k));
        assert(spec_signature(st, c2) == Some(k));
        assert(c1.name == c2.name);
    }
}

/// Size-only mode groups two distinct candidates of the set if and only if
/// both have a known byte size and the sizes are exactly equal.
pub proof fn lemma_size_mode_groups(s: Seq<CandView>, c1: CandView, c2: CandView)
    requires
        s.contains(c1),
        s.contains(c2),
        c1 != c2,
    ensures
        (exists|j: int|
            0 <= j < spec_pipeline(s, Algorithm::Size).len() && (#[trigger] spec_pipeline(
                s,
                Algorithm::Size,
            )[j]).contains(c1) && spec_pipeline(s, Algorithm::Size)[j].contains(c2)) <==> (
        c1.size is Some && c2.size == c1.size),
{
    let st = Stage::BySize;
    lemma_single_stage(s, st);
    let p = spec_pipeline(s, Algorithm::Size);
    assert(p == spec_dup_groups(s, st));
    if c1.size is Some && c2.size == c1.size {
        assert(spec_signature(st, c1) == Some(KeyView::Size(c1.size->Some_0)));
        assert(spec_signature(st, c1) == spec_signature(st, c2));
        lemma_dup_groups_complete(s, st, c1, c2);
    }
    if exists|j: int|
        0 <= j < p.len() && (#[trigger] p[j]).contains(c1) && p[j].contains(c2) {
        let j = choose|j: int|
            0 <= j < p.len() && (#[trigger] p[j]).contains(c1) && p[j].contains(c2);
        lemma_dup_groups_spec(s, st);
        let k = spec_group_key(st, p[j]);
        let pk = spec_key_pred(st, k);
        assert(p[j] == s.filter(pk));
        let a = choose|a: int| 0 <= a < p[j].len() && p[j][a] == c1;
        let b = choose|b: int| 0 <= b < p[j].len() && p[j][b] == c2;
        s.lemma_filter_pred(pk, a);
        s.lemma_filter_pred(pk, b);
        assert(spec_signature(st, c1) == Some(k));
        assert(spec_signature(st, c2) == Some(k));
        assert(c1.size is Some && c2.size == c1.size);
    }
}

/// Full-content mode keeps together two distinct candidates whose known
/// sizes agree and whose entire byte contents are identical: they end in
/// one final group however their names differ.
pub proof fn lemma_full_content_mode_complete(s: Seq<CandView>, c1: CandView, c2: CandView)
    requires
        s.contains(c1),
        s.contains(c2),
        c1 != c2,
        c1.size is Some,
        c2.size == c1.size,
        c1.content is Some,
        c2.content == c1.content,
    ensures
        exists|j: int|
            0 <= j < spec_pipeline(s, Algorithm::FullContent).len() && (#[trigger] spec_pipeline(
                s,
                Algorithm::FullContent,
            )[j]).contains(c1) && spec_pipeline(s, Algorithm::FullContent)[j].contains(c2),
{
    let ss = spec_stages_of(Algorithm::FullContent);
    let gs = seq![s];
    assert((#[trigger] gs[0]).contains(c1) && gs[0].contains(c2));
    assert forall|t: int|
        0 <= t < ss.len() implies spec_signature(#[trigger] ss[t], c1) == spec_signature(
        ss[t],
        c2,
    ) && spec_signature(ss[t], c1) is Some by {
        if t == 0 {
            assert(ss[t] == Stage::BySize);
        } else if t == 1 {
            assert(ss[t] == Stage::ByPrefixHash(1024));
        } else if t == 2 {
            assert(ss[t] == Stage::ByPrefixHash(4096));
        } else {
            assert(ss[t] == Stage::ByPrefixHash(0));
        }
    }
    lemma_run_stages_keeps_pair(gs, ss, c1, c2);
    let r = spec_run_stages(gs, ss);
    assert(spec_pipeline(s, Algorithm::FullContent) == r);
    let jf = choose|jf: int|
        0 <= jf < r.len() && (#[trigger] r[jf]).contains(c1) && r[jf].contains(c2);
    assert((#[trigger] spec_pipeline(s, Algorithm::FullContent)[jf]).contains(c1)
        && spec_pipeline(s, Algorithm::FullContent)[jf].contains(c2));
}

/// In full-content mode every final group is uniform in size and in the
/// SHA-1 digest of the entire content: its members all have a known size,
/// one and the same, and contents whose full digests coincide.
pub proof fn lemma_full_content_mode_sound(s: Seq<CandView>)
    ensures
        forall|j: int, m: int|
            #![trigger spec_pipeline(s, Algorithm::FullContent)[j][m]]
            0 <= j < spec_pipeline(s, Algorithm::FullContent).len() && 0 <= m < spec_pipeline(
                s,
                Algorithm::FullContent,
            )[j].len() ==> spec_pipeline(s, Algorithm::FullContent)[j][m].size is Some
                && spec_pipeline(s, Algorithm::FullContent)[j][m].size == spec_pipeline(
                s,
                Algorithm::FullContent,
            )[j][0].size && spec_pipeline(s, Algorithm::FullContent)[j][m].content is Some
                && spec_pipeline(s, Algorithm::FullContent)[j][0].content is Some && sha1_of(
                spec_pipeline(s, Algorithm::FullContent)[j][m].content->Some_0,
            ) == sha1_of(spec_pipeline(s, Algorithm::FullContent)[j][0].content->Some_0),
{
    let ss = spec_stages_of(Algorithm::FullContent);
    lemma_run_stages_spec(seq![s], ss);
    let p = spec_pipeline(s, Algorithm::FullContent);
    assert forall|j: int, m: int|
        #![trigger p[j][m]]
        0 <= j < p.len() && 0 <= m < p[j].len() implies p[j][m].size is Some && p[j][m].size
        == p[j][0].size && p[j][m].content is Some && p[j][0].content is Some && sha1_of(
        p[j][m].content->Some_0,
    ) == sha1_of(p[j][0].content->Some_0) by {
        let g = p[j];
        assert(ss[0] == Stage::BySize);
        assert(ss[3] == Stage::ByPrefixHash(0));
        assert(spec_uniform(g, Stage::BySize));
        assert(spec_uniform(g, Stage::ByPrefixHash(0)));
        assert(spec_signature(Stage::BySize, g[m]) == spec_signature(Stage::BySize, g[0]));
        assert(spec_signature(Stage::ByPrefixHash(0), g[m]) == spec_signature(
            Stage::ByPrefixHash(0),
            g[0],
        ));
        assert(spec_prefix(g[m].content->Some_0, 0) == g[m].content->Some_0);
        assert(spec_prefix(g[0].content->Some_0, 0) == g[0].content->Some_0);
    }
}

} // verus!
