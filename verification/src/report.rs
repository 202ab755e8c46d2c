//! The final report: one line per agent identity that has an entry, in
//! ascending identity order, so the output of a run is deterministic even
//! though the registry itself implies no order.

use vstd::prelude::*;
use crate::registry::PhaseCounts;
use crate::registry::StatsRegistry;

verus! {

/// One line of the final report: an agent's identity and its counters.
#[derive(Clone, Copy, PartialEq, Eq, Structural, Debug)]
pub struct ReportLine {
    pub id: usize,
    pub eats: u64,
    pub thinks: u64,
}

/// The report of the entries `s`: the lines for the present entries of
/// `s`, lowest identity first, absent entries skipped.
pub open spec fn report_of(s: Seq<Option<PhaseCounts>>) -> Seq<ReportLine>
    decreases s.len(),
{
    if s.len() == 0 {
        Seq::empty()
    } else {
        report_of(s.drop_last()) + match s.last() {
            Some(c) => seq![
                ReportLine { id: (s.len() - 1) as usize, eats: c.eats, thinks: c.thinks },
            ],
            None => Seq::empty(),
        }
    }
}

/// Builds the final report of `reg`: exactly its present entries, as
/// `report_of` describes them.
pub fn report(reg: &StatsRegistry) -> (lines: Vec<ReportLine>)
    ensures
        lines@ == report_of(reg.entries()),
{
    let mut lines: Vec<ReportLine> = Vec::new();
    let n = reg.len();
    let mut i: usize = 0;
    while i < n
        invariant
            i <= n,
            n == reg.n(),
            lines@ == report_of(reg.entries().take(i as int)),
        decreases n - i,
    {
        match reg.entry_at(i) {
            Some(c) => {
                lines.push(ReportLine { id: i, eats: c.eats, thinks: c.thinks });
            },
            None => {},
        }
        proof {
            let pre = reg.entries().take(i as int);
            let cur = reg.entries().take(i as int + 1);
            assert(cur.drop_last() =~= pre);
            assert(cur.last() == reg.entries()[i as int]);
        }
        i = i + 1;
    }
    proof {
        assert(reg.entries().take(n as int) =~= reg.entries());
    }
    lines
}

/// Every line of a report names an identity below the population size.
pub proof fn lemma_report_ids_bounded(s: Seq<Option<PhaseCounts>>)
    requires
        s.len() <= usize::MAX,
    ensures
        forall|k: int| 0 <= k < report_of(s).len() ==> #[trigger] report_of(s)[k].id < s.len(),
    decreases s.len(),
{
    if s.len() > 0 {
        lemma_report_ids_bounded(s.drop_last());
        assert forall|k: int|
            0 <= k < report_of(s).len() implies #[trigger] report_of(s)[k].id < s.len() by {
            let pre = report_of(s.drop_last());
            if k < pre.len() {
                assert(report_of(s)[k] == pre[k]);
            }
        }
    }
}

/// Law: a report is sound — every line restates the present entry of the
/// identity it names, unchanged.
pub proof fn lemma_report_sound(s: Seq<Option<PhaseCounts>>, k: int)
    requires
        s.len() <= usize::MAX,
        0 <= k < report_of(s).len(),
    ensures
        s[report_of(s)[k].id as int] == Some(
            PhaseCounts { eats: report_of(s)[k].eats, thinks: report_of(s)[k].thinks },
        ),
    decreases s.len(),
{
    let pre = report_of(s.drop_last());
    if s.len() > 0 {
        if k < pre.len() {
            lemma_report_sound(s.drop_last(), k);
            lemma_report_ids_bounded(s.drop_last());
            assert(report_of(s)[k] == pre[k]);
            assert(s.drop_last()[pre[k].id as int] == s[pre[k].id as int]);
        }
    }
}

/// Law: a report is complete — every present entry is restated by a line
/// naming its identity.
pub proof fn lemma_report_complete(s: Seq<Option<PhaseCounts>>, id: int)
    requires
        s.len() <= usize::MAX,
        0 <= id < s.len(),
        s[id] is Some,
    ensures
        exists|k: int|
            0 <= k < report_of(s).len() && (#[trigger] report_of(s)[k]).id == id,
    decreases s.len(),
{
    if id == s.len() - 1 {
        let k = report_of(s).len() - 1;
        assert(report_of(s)[k].id == id);
    } else {
        lemma_report_complete(s.drop_last(), id);
        let k = choose|k: int|
            0 <= k < report_of(s.drop_last()).len()
                && (#[trigger] report_of(s.drop_last())[k]).id == id;
        assert(report_of(s)[k] == report_of(s.drop_last())[k]);
        assert(report_of(s)[k].id == id);
    }
}

/// Law: a report lists identities in strictly ascending order, so the
/// order of the final output is deterministic.
pub proof fn lemma_report_ascending(s: Seq<Option<PhaseCounts>>)
    requires
        s.len() <= usize::MAX,
    ensures
        forall|a: int, b: int|
            0 <= a < b < report_of(s).len() ==> #[trigger] report_of(s)[a].id
                < #[trigger] report_of(s)[b].id,
    decreases s.len(),
{
    if s.len() > 0 {
        lemma_report_ascending(s.drop_last());
        lemma_report_ids_bounded(s.drop_last());
        assert forall|a: int, b: int|
            0 <= a < b < report_of(s).len() implies #[trigger] report_of(s)[a].id
            < #[trigger] report_of(s)[b].id by {
            let pre = report_of(s.drop_last());
            if b < pre.len() {
                assert(report_of(s)[a] == pre[a]);
                assert(report_of(s)[b] == pre[b]);
            } else {
                assert(report_of(s)[a] == pre[a]);
                assert(pre[a].id < s.drop_last().len());
            }
        }
    }
}

} // verus!
