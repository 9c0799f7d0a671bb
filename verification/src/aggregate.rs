//! The result aggregator.
//!
//! Each final group is summed to its total byte size and keyed by it: when
//! two distinct groups total the same exact size, only the first-inserted
//! one is retained. Entries are kept ordered by descending total, and the
//! summary counts the retained groups and their combined size.

use crate::candidate::{CandView, FileCandidate};
use crate::grouping::clone_group;
use vstd::prelude::*;

verus! {

/// The total byte size of a group: the sum of its members' known sizes;
/// a member without a readable size contributes nothing.
pub open spec fn spec_group_total(g: Seq<CandView>) -> int
    decreases g.len(),
{
    if g.len() == 0 {
        0
    } else {
        spec_group_total(g.drop_last()) + (match g.last().size {
            Some(sz) => sz as int,
            None => 0,
        })
    }
}

/// One reported entry: a duplicate group and its total byte size.
pub struct ReportEntry {
    /// The sum of the group members' sizes.
    pub total: u64,
    /// The group's members, in pipeline order.
    pub files: Vec<FileCandidate>,
}

impl View for ReportEntry {
    type V = (u64, Seq<CandView>);

    open spec fn view(&self) -> (u64, Seq<CandView>) {
        (self.total, self.files.deep_view())
    }
}

impl DeepView for ReportEntry {
    type V = (u64, Seq<CandView>);

    open spec fn deep_view(&self) -> (u64, Seq<CandView>) {
        self.view()
    }
}

/// Whether some entry already carries this exact total.
pub open spec fn spec_has_total(entries: Seq<(u64, Seq<CandView>)>, total: u64) -> bool {
    exists|i: int| 0 <= i < entries.len() && (#[trigger] entries[i]).0 == total
}

/// Files one group into the report: dropped when its exact total is already
/// a key (the first-inserted group per total wins), else placed so that the
/// entries stay ordered by descending total.
pub open spec fn spec_insert_entry(
    entries: Seq<(u64, Seq<CandView>)>,
    total: u64,
    g: Seq<CandView>,
) -> Seq<(u64, Seq<CandView>)>
    decreases entries.len(),
{
    if entries.len() == 0 {
        seq![(total, g)]
    } else if entries[0].0 == total {
        entries
    } else if entries[0].0 < total {
        seq![(total, g)] + entries
    } else {
        seq![entries[0]] + spec_insert_entry(entries.drop_first(), total, g)
    }
}

/// The report built from the final groups, in their order.
pub open spec fn spec_aggregate(groups: Seq<Seq<CandView>>) -> Seq<(u64, Seq<CandView>)>
    decreases groups.len(),
{
    if groups.len() == 0 {
        Seq::empty()
    } else {
        spec_insert_entry(
            spec_aggregate(groups.drop_last()),
            spec_group_total(groups.last()) as u64,
            groups.last(),
        )
    }
}

/// The combined size of the report: the sum of the retained totals.
pub open spec fn spec_report_total(entries: Seq<(u64, Seq<CandView>)>) -> int
    decreases entries.len(),
{
    if entries.len() == 0 {
        0
    } else {
        spec_report_total(entries.drop_last()) + entries.last().0 as int
    }
}

/// A group's total is never negative.
pub proof fn lemma_group_total_nonneg(g: Seq<CandView>)
    ensures
        spec_group_total(g) >= 0,
    decreases g.len(),
{
    if g.len() > 0 {
        lemma_group_total_nonneg(g.drop_last());
    }
}

/// A prefix of a group never totals more than the whole group.
pub proof fn lemma_group_total_prefix(g: Seq<CandView>, i: int)
    requires
        0 <= i <= g.len(),
    ensures
        spec_group_total(g.take(i)) <= spec_group_total(g),
    decreases g.len() - i,
{
    if i == g.len() {
        assert(g.take(i) =~= g);
    } else {
        assert(g.take(i + 1).drop_last() =~= g.take(i));
        assert(g.take(i + 1).last() == g[i]);
        lemma_group_total_prefix(g, i + 1);
    }
}

/// Sums the known sizes of a group's members.
pub fn group_total(g: &Vec<FileCandidate>) -> (total: u64)
    requires
        spec_group_total(g.deep_view()) <= u64::MAX,
    ensures
        total as int == spec_group_total(g.deep_view()),
{
    let ghost gd = g.deep_view();
    let mut total: u64 = 0;
    let mut i: usize = 0;
    while i < g.len()
        invariant
            0 <= i <= gd.len(),
            gd == g.deep_view(),
            gd.len() == g@.len(),
            spec_group_total(gd) <= u64::MAX,
            total as int == spec_group_total(gd.take(i as int)),
        decreases gd.len() - i,
    {
        proof {
            assert(gd.take(i as int + 1).drop_last() =~= gd.take(i as int));
            assert(gd.take(i as int + 1).last() == gd[i as int]);
            assert(gd[i as int] == g@[i as int].deep_view());
            lemma_group_total_prefix(gd, i as int + 1);
            lemma_group_total_nonneg(gd.take(i as int));
        }
        match g[i].size {
            Some(sz) => {
                total = total + sz;
            },
            None => {},
        }
        i = i + 1;
    }
    proof {
        assert(gd.take(gd.len() as int) =~= gd);
    }
    total
}

/// Where the scan stopped is where the spec files the group: at an equal
/// total nothing changes; else the entry enters at that position.
pub proof fn lemma_insert_entry_at(
    entries: Seq<(u64, Seq<CandView>)>,
    total: u64,
    g: Seq<CandView>,
    pos: int,
)
    requires
        0 <= pos <= entries.len(),
        forall|m: int| 0 <= m < pos ==> (#[trigger] entries[m]).0 > total,
        pos < entries.len() ==> entries[pos].0 <= total,
    ensures
        pos < entries.len() && entries[pos].0 == total ==> spec_insert_entry(entries, total, g)
            == entries,
        (pos == entries.len() || entries[pos].0 < total) ==> spec_insert_entry(entries, total, g)
            == entries.insert(pos, (total, g)),
    decreases entries.len(),
{
    if entries.len() == 0 {
        assert(spec_insert_entry(entries, total, g) =~= entries.insert(0, (total, g)));
    } else if pos == 0 {
        if entries[0].0 == total {
        } else {
            assert(entries[0].0 < total);
            assert(seq![(total, g)] + entries =~= entries.insert(0, (total, g)));
        }
    } else {
        assert(entries[0].0 > total);
        let rest = entries.drop_first();
        assert(forall|m: int| 0 <= m < rest.len() ==> rest[m] == entries[m + 1]);
        lemma_insert_entry_at(rest, total, g, pos - 1);
        if pos < entries.len() && entries[pos].0 == total {
            assert(spec_insert_entry(rest, total, g) == rest);
            assert(seq![entries[0]] + rest =~= entries);
        } else {
            assert(spec_insert_entry(rest, total, g) == rest.insert(pos - 1, (total, g)));
            assert(seq![entries[0]] + rest.insert(pos - 1, (total, g)) =~= entries.insert(
                pos,
                (total, g),
            ));
        }
    }
}

/// Builds the report from the final groups: one entry per distinct total,
/// first group in wins, ordered by descending total.
pub fn aggregate_groups(groups: &Vec<Vec<FileCandidate>>) -> (entries: Vec<ReportEntry>)
    requires
        forall|j: int|
            0 <= j < groups.deep_view().len() ==> spec_group_total(
                #[trigger] groups.deep_view()[j],
            ) <= u64::MAX,
    ensures
        entries.deep_view() == spec_aggregate(groups.deep_view()),
{
    let ghost gd = groups.deep_view();
    let mut entries: Vec<ReportEntry> = Vec::new();
    let mut j: usize = 0;
    while j < groups.len()
        invariant
            0 <= j <= gd.len(),
            gd == groups.deep_view(),
            gd.len() == groups@.len(),
            forall|m: int|
                0 <= m < gd.len() ==> spec_group_total(#[trigger] gd[m]) <= u64::MAX,
            entries.deep_view() == spec_aggregate(gd.take(j as int)),
        decreases gd.len() - j,
    {
        let ghost prev = entries.deep_view();
        proof {
            assert(gd.take(j as int + 1).drop_last() =~= gd.take(j as int));
            assert(gd.take(j as int + 1).last() == gd[j as int]);
            assert(gd[j as int] == groups@[j as int].deep_view());
        }
        let total = group_total(&groups[j]);
        let mut pos: usize = 0;
        while pos < entries.len() && entries[pos].total > total
            invariant
                0 <= pos <= entries@.len(),
                entries.deep_view() == prev,
                forall|m: int| 0 <= m < pos ==> (#[trigger] prev[m]).0 > total,
            decreases entries@.len() - pos,
        {
            proof {
                assert(prev[pos as int].0 == entries@[pos as int].total);
            }
            pos = pos + 1;
        }
        proof {
            assert(pos < prev.len() ==> prev[pos as int].0 <= total);
        }
        let mut skip = false;
        if pos < entries.len() {
            if entries[pos].total == total {
                skip = true;
            }
        }
        proof {
            lemma_insert_entry_at(prev, total, gd[j as int], pos as int);
        }
        if skip {
            proof {
                assert(entries.deep_view() =~= spec_aggregate(gd.take(j as int + 1)));
            }
        } else {
            let files = clone_group(&groups[j]);
            entries.insert(pos, ReportEntry { total, files });
            proof {
                assert(entries.deep_view() =~= prev.insert(pos as int, (total, gd[j as int])));
                assert(entries.deep_view() =~= spec_aggregate(gd.take(j as int + 1)));
            }
        }
        j = j + 1;
    }
    proof {
        assert(gd.take(gd.len() as int) =~= gd);
    }
    entries
}

/// A prefix of the report never totals more than the whole report.
pub proof fn lemma_report_total_prefix(entries: Seq<(u64, Seq<CandView>)>, i: int)
    requires
        0 <= i <= entries.len(),
    ensures
        spec_report_total(entries.take(i)) <= spec_report_total(entries),
    decreases entries.len() - i,
{
    if i == entries.len() {
        assert(entries.take(i) =~= entries);
    } else {
        assert(entries.take(i + 1).drop_last() =~= entries.take(i));
        assert(entries.take(i + 1).last() == entries[i]);
        lemma_report_total_prefix(entries, i + 1);
    }
}

/// The report is never negative in total.
pub proof fn lemma_report_total_nonneg(entries: Seq<(u64, Seq<CandView>)>)
    ensures
        spec_report_total(entries) >= 0,
    decreases entries.len(),
{
    if entries.len() > 0 {
        lemma_report_total_nonneg(entries.drop_last());
    }
}

/// The summary line's numbers: how many groups are reported and how much
/// space they occupy together.
pub fn report_summary(entries: &Vec<ReportEntry>) -> (res: (usize, u64))
    requires
        spec_report_total(entries.deep_view()) <= u64::MAX,
    ensures
        res.0 == entries@.len(),
        res.1 as int == spec_report_total(entries.deep_view()),
{
    let ghost ed = entries.deep_view();
    let mut total: u64 = 0;
    let mut i: usize = 0;
    while i < entries.len()
        invariant
            0 <= i <= ed.len(),
            ed == entries.deep_view(),
            ed.len() == entries@.len(),
            spec_report_total(ed) <= u64::MAX,
            total as int == spec_report_total(ed.take(i as int)),
        decreases ed.len() - i,
    {
        proof {
            assert(ed.take(i as int + 1).drop_last() =~= ed.take(i as int));
            assert(ed.take(i as int + 1).last() == ed[i as int]);
            assert(ed[i as int].0 == entries@[i as int].total);
            lemma_report_total_prefix(ed, i as int + 1);
            lemma_report_total_nonneg(ed.take(i as int));
        }
        total = total + entries[i].total;
        i = i + 1;
    }
    proof {
        assert(ed.take(ed.len() as int) =~= ed);
    }
    (entries.len(), total)
}

/// The report's entries are strictly descending in total, so each total is
/// a key held by at most one entry.
pub proof fn lemma_insert_entry_sorted(
    entries: Seq<(u64, Seq<CandView>)>,
    total: u64,
    g: Seq<CandView>,
)
    requires
        forall|i1: int, i2: int|
            0 <= i1 < i2 < entries.len() ==> (#[trigger] entries[i1]).0 > (
            #[trigger] entries[i2]).0,
    ensures
        forall|i1: int, i2: int|
            0 <= i1 < i2 < spec_insert_entry(entries, total, g).len() ==> (
            #[trigger] spec_insert_entry(entries, total, g)[i1]).0 > (#[trigger] spec_insert_entry(
                entries,
                total,
                g,
            )[i2]).0,
        forall|i: int|
            0 <= i < spec_insert_entry(entries, total, g).len() ==> (#[trigger] spec_insert_entry(
                entries,
                total,
                g,
            )[i]).0 == total || spec_has_total(entries, spec_insert_entry(entries, total, g)[i].0),
    decreases entries.len(),
{
    let r = spec_insert_entry(entries, total, g);
    if entries.len() == 0 {
    } else if entries[0].0 == total {
        assert forall|i: int| 0 <= i < r.len() implies (#[trigger] r[i]).0 == total
            || spec_has_total(entries, r[i].0) by {
            assert(entries[i].0 == entries[i].0);
        }
    } else if entries[0].0 < total {
        assert(r == seq![(total, g)] + entries);
        assert forall|i: int| 0 <= i < r.len() implies (#[trigger] r[i]).0 == total
            || spec_has_total(entries, r[i].0) by {
            if i >= 1 {
                assert(r[i] == entries[i - 1]);
            }
        }
    } else {
        let rest = entries.drop_first();
        assert(forall|m: int| 0 <= m < rest.len() ==> rest[m] == entries[m + 1]);
        lemma_insert_entry_sorted(rest, total, g);
        let rr = spec_insert_entry(rest, total, g);
        assert(r == seq![entries[0]] + rr);
        assert forall|i: int| 0 <= i < r.len() implies (#[trigger] r[i]).0 == total
            || spec_has_total(entries, r[i].0) by {
            if i >= 1 {
                assert(r[i] == rr[i - 1]);
                if rr[i - 1].0 != total {
                    assert(spec_has_total(rest, rr[i - 1].0));
                    let m = choose|m: int| 0 <= m < rest.len() && (#[trigger] rest[m]).0 == rr[
                        i - 1].0;
                    assert(entries[m + 1].0 == rr[i - 1].0);
                }
            }
        }
        assert forall|i1: int, i2: int| 0 <= i1 < i2 < r.len() implies (#[trigger] r[i1]).0 > (
        #[trigger] r[i2]).0 by {
            if i1 >= 1 {
                assert(r[i1] == rr[i1 - 1] && r[i2] == rr[i2 - 1]);
            } else {
                assert(r[i2] == rr[i2 - 1]);
                if rr[i2 - 1].0 == total {
                    assert(entries[0].0 > total);
                } else {
                    assert(spec_has_total(rest, rr[i2 - 1].0));
                    let m = choose|m: int| 0 <= m < rest.len() && (#[trigger] rest[m]).0 == rr[
                        i2 - 1].0;
                    assert(entries[0].0 > entries[m + 1].0);
                }
            }
        }
    }
}

/// The aggregated report is ordered by strictly descending total size.
pub proof fn lemma_aggregate_sorted(groups: Seq<Seq<CandView>>)
    ensures
        forall|i1: int, i2: int|
            0 <= i1 < i2 < spec_aggregate(groups).len() ==> (#[trigger] spec_aggregate(
                groups,
            )[i1]).0 > (#[trigger] spec_aggregate(groups)[i2]).0,
    decreases groups.len(),
{
    if groups.len() > 0 {
        lemma_aggregate_sorted(groups.drop_last());
        lemma_insert_entry_sorted(
            spec_aggregate(groups.drop_last()),
            spec_group_total(groups.last()) as u64,
            groups.last(),
        );
    }
}

} // verus!
