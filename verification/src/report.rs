//! The aggregator: after all cases have run, the recorded mismatches become
//! one ordered failure report — cases in file order, and within a case the
//! mismatches in the order the test logic declared them.  The report's
//! non-emptiness is the sole success or failure signal for a whole run.

use vstd::prelude::*;

use crate::case::CaseView;
use crate::case::DiffView;
use crate::case::TestCase;
use crate::parse::case_views;

verus! {

/// Text of one mismatch record.  The field labels keep the report format
/// this engine has always produced: the `expected:` label shows the value
/// that was stored before the run, `actual:` the freshly computed one.
pub open spec fn diff_text(d: DiffView) -> Seq<char> {
    "PARAM MISMATCH: "@ + d.param + "\nexpected: "@ + d.previous + "\nactual: "@ + d.computed
        + "\n"@
}

/// Text of a run of mismatch records.
pub open spec fn diffs_text(ds: Seq<DiffView>) -> Seq<char>
    decreases ds.len(),
{
    if ds.len() == 0 {
        Seq::empty()
    } else {
        diff_text(ds[0]) + diffs_text(ds.drop_first())
    }
}

/// A case's part of the report: a case-level marker when anything
/// mismatched, then its mismatch records.
pub open spec fn case_report(c: CaseView) -> Seq<char> {
    if c.diffs.len() > 0 {
        "CASE FAILED: "@ + c.name + "\n"@ + diffs_text(c.diffs)
    } else {
        Seq::empty()
    }
}

/// The whole report, cases in order.
pub open spec fn report_text(cs: Seq<CaseView>) -> Seq<char>
    decreases cs.len(),
{
    if cs.len() == 0 {
        Seq::empty()
    } else {
        case_report(cs[0]) + report_text(cs.drop_first())
    }
}

pub proof fn lemma_diffs_text_push(ds: Seq<DiffView>, d: DiffView)
    ensures
        diffs_text(ds.push(d)) =~= diffs_text(ds) + diff_text(d),
    decreases ds.len(),
{
    reveal_with_fuel(diffs_text, 2);
    if ds.len() == 0 {
        assert(ds.push(d)[0] == d);
        assert(ds.push(d).drop_first() =~= Seq::<DiffView>::empty());
        assert(diffs_text(ds.push(d)) =~= diff_text(d));
        assert(diffs_text(ds) + diff_text(d) =~= diff_text(d));
    } else {
        assert(ds.push(d)[0] == ds[0]);
        assert(ds.push(d).drop_first() =~= ds.drop_first().push(d));
        lemma_diffs_text_push(ds.drop_first(), d);
        assert(diffs_text(ds.push(d)) =~= diffs_text(ds) + diff_text(d));
    }
}

pub proof fn lemma_report_text_push(cs: Seq<CaseView>, c: CaseView)
    ensures
        report_text(cs.push(c)) =~= report_text(cs) + case_report(c),
    decreases cs.len(),
{
    reveal_with_fuel(report_text, 2);
    if cs.len() == 0 {
        assert(cs.push(c)[0] == c);
        assert(cs.push(c).drop_first() =~= Seq::<CaseView>::empty());
        assert(report_text(cs.push(c)) =~= case_report(c));
        assert(report_text(cs) + case_report(c) =~= case_report(c));
    } else {
        assert(cs.push(c)[0] == cs[0]);
        assert(cs.push(c).drop_first() =~= cs.drop_first().push(c));
        lemma_report_text_push(cs.drop_first(), c);
        assert(report_text(cs.push(c)) =~= report_text(cs) + case_report(c));
    }
}

/// The report is empty exactly when no case recorded a mismatch.
pub proof fn lemma_report_empty(cs: Seq<CaseView>)
    ensures
        report_text(cs).len() == 0 <==> (forall|i: int|
            0 <= i < cs.len() ==> (#[trigger] cs[i]).diffs.len() == 0),
    decreases cs.len(),
{
    reveal_strlit("CASE FAILED: ");
    if cs.len() > 0 {
        lemma_report_empty(cs.drop_first());
        if report_text(cs).len() == 0 {
            assert(case_report(cs[0]).len() == 0);
            assert(cs[0].diffs.len() == 0);
            assert forall|i: int| 0 <= i < cs.len() implies (#[trigger] cs[i]).diffs.len()
                == 0 by {
                if i > 0 {
                    assert(cs.drop_first()[i - 1] == cs[i]);
                }
            }
        } else {
            if forall|i: int| 0 <= i < cs.len() ==> (#[trigger] cs[i]).diffs.len() == 0 {
                assert(cs[0].diffs.len() == 0);
                assert(case_report(cs[0]).len() == 0);
                assert forall|i: int|
                    0 <= i < cs.drop_first().len() implies (#[trigger] cs.drop_first()[i]).diffs.len()
                    == 0 by {
                    assert(cs.drop_first()[i] == cs[i + 1]);
                }
                assert(report_text(cs.drop_first()).len() == 0);
                assert(false);
            }
        }
    }
}

/// Build the failure report for the cases, in order.
pub fn build_report(cases: &Vec<TestCase>) -> (r: String)
    ensures
        r@ == report_text(case_views(cases@)),
{
    let n = cases.len();
    let mut out = String::new();
    let mut i: usize = 0;
    proof {
        assert(case_views(cases@).take(0) =~= Seq::<CaseView>::empty());
    }
    while i < n
        invariant
            i <= n,
            n == cases@.len(),
            out@ == report_text(case_views(cases@).take(i as int)),
        decreases n - i,
    {
        let ghost done = case_views(cases@).take(i as int);
        let ghost cv = case_views(cases@)[i as int];
        let c = &cases[i];
        proof {
            assert(cv == c@);
        }
        if !c.diffs.is_empty() {
            out.append("CASE FAILED: ");
            out.append(c.name.as_str());
            out.append("\n");
            let m = c.diffs.len();
            let mut j: usize = 0;
            proof {
                assert(cv.diffs.take(0) =~= Seq::<DiffView>::empty());
                assert(diffs_text(cv.diffs.take(0)) =~= Seq::<char>::empty());
                assert(out@ =~= report_text(done) + "CASE FAILED: "@ + cv.name + "\n"@
                    + diffs_text(cv.diffs.take(0)));
            }
            while j < m
                invariant
                    j <= m,
                    m == cv.diffs.len(),
                    cv == case_views(cases@)[i as int],
                    0 <= i < cases@.len(),
                    c == &cases[i as int],
                    cv == c@,
                    cv.diffs.len() == c.diffs@.len(),
                    done == case_views(cases@).take(i as int),
                    out@ == report_text(done) + "CASE FAILED: "@ + cv.name + "\n"@ + diffs_text(
                        cv.diffs.take(j as int),
                    ),
                decreases m - j,
            {
                out.append("PARAM MISMATCH: ");
                out.append(c.diffs[j].param.as_str());
                out.append("\nexpected: ");
                out.append(c.diffs[j].previous.as_str());
                out.append("\nactual: ");
                out.append(c.diffs[j].computed.as_str());
                out.append("\n");
                proof {
                    assert(cv.diffs[j as int] == c.diffs@[j as int]@);
                    lemma_diffs_text_push(cv.diffs.take(j as int), cv.diffs[j as int]);
                    assert(cv.diffs.take(j + 1) =~= cv.diffs.take(j as int).push(
                        cv.diffs[j as int],
                    ));
                    assert(out@ =~= report_text(done) + "CASE FAILED: "@ + cv.name + "\n"@
                        + diffs_text(cv.diffs.take(j + 1)));
                }
                j = j + 1;
            }
            proof {
                lemma_report_text_push(done, cv);
                assert(cv.diffs.take(cv.diffs.len() as int) =~= cv.diffs);
                assert(out@ =~= report_text(done) + case_report(cv));
                assert(case_views(cases@).take(i + 1) =~= done.push(cv));
                assert(out@ =~= report_text(case_views(cases@).take(i + 1)));
            }
        } else {
            proof {
                lemma_report_text_push(done, cv);
                assert(case_report(cv) =~= Seq::<char>::empty());
                assert(out@ =~= report_text(done) + case_report(cv));
                assert(case_views(cases@).take(i + 1) =~= done.push(cv));
                assert(out@ =~= report_text(case_views(cases@).take(i + 1)));
            }
        }
        i = i + 1;
    }
    proof {
        assert(case_views(cases@).take(n as int) =~= case_views(cases@));
    }
    out
}

} // verus!
