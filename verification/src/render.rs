//! The writer: serializes cases back into the grammar the parser accepts.
//!
//! For each case: the header line, then each parameter block that came from
//! the file, in first-insertion order — header line, the stored value, one
//! newline, the parameter marker line — then the case marker line and a
//! blank line.  Writing reflects whatever values are currently stored, not
//! the diff outcome.

use vstd::prelude::*;

use crate::case::CaseView;
use crate::case::TestCase;
use crate::parse::case_views;

verus! {

/// Text of one parameter block.
pub open spec fn param_text(p: (Seq<char>, Seq<char>)) -> Seq<char> {
    "["@ + p.0 + "]\n"@ + p.1 + "\n-----------\n"@
}

/// Text of a run of parameter blocks.
pub open spec fn params_text(ps: Seq<(Seq<char>, Seq<char>)>) -> Seq<char>
    decreases ps.len(),
{
    if ps.len() == 0 {
        Seq::empty()
    } else {
        param_text(ps[0]) + params_text(ps.drop_first())
    }
}

/// Text of one case: header, the parameter blocks that came from the file,
/// the case marker, a blank line.
pub open spec fn case_text(c: CaseView) -> Seq<char> {
    "["@ + c.name + "]\n"@ + params_text(c.params.take(c.n_parsed as int)) + "===========\n\n"@
}

/// Text of a sequence of cases, in order.
pub open spec fn render_text(cs: Seq<CaseView>) -> Seq<char>
    decreases cs.len(),
{
    if cs.len() == 0 {
        Seq::empty()
    } else {
        case_text(cs[0]) + render_text(cs.drop_first())
    }
}

pub proof fn lemma_params_text_push(ps: Seq<(Seq<char>, Seq<char>)>, p: (Seq<char>, Seq<char>))
    ensures
        params_text(ps.push(p)) =~= params_text(ps) + param_text(p),
    decreases ps.len(),
{
    reveal_with_fuel(params_text, 2);
    if ps.len() == 0 {
        assert(ps.push(p)[0] == p);
        assert(ps.push(p).drop_first() =~= Seq::<(Seq<char>, Seq<char>)>::empty());
        assert(params_text(ps.push(p)) =~= param_text(p));
        assert(params_text(ps) + param_text(p) =~= param_text(p));
    } else {
        assert(ps.push(p)[0] == ps[0]);
        assert(ps.push(p).drop_first() =~= ps.drop_first().push(p));
        lemma_params_text_push(ps.drop_first(), p);
        assert(params_text(ps.push(p)) =~= params_text(ps) + param_text(p));
    }
}

pub proof fn lemma_render_text_push(cs: Seq<CaseView>, c: CaseView)
    ensures
        render_text(cs.push(c)) =~= render_text(cs) + case_text(c),
    decreases cs.len(),
{
    reveal_with_fuel(render_text, 2);
    if cs.len() == 0 {
        assert(cs.push(c)[0] == c);
        assert(cs.push(c).drop_first() =~= Seq::<CaseView>::empty());
        assert(render_text(cs.push(c)) =~= case_text(c));
        assert(render_text(cs) + case_text(c) =~= case_text(c));
    } else {
        assert(cs.push(c)[0] == cs[0]);
        assert(cs.push(c).drop_first() =~= cs.drop_first().push(c));
        lemma_render_text_push(cs.drop_first(), c);
        assert(render_text(cs.push(c)) =~= render_text(cs) + case_text(c));
    }
}

/// Serialize the cases, in order.
pub fn render(cases: &Vec<TestCase>) -> (r: String)
    requires
        forall|i: int|
            0 <= i < cases@.len() ==> (#[trigger] case_views(cases@)[i]).n_parsed <= case_views(
                cases@,
            )[i].params.len(),
    ensures
        r@ == render_text(case_views(cases@)),
{
    let n = cases.len();
    let mut out = String::new();
    let mut i: usize = 0;
    proof {
        assert(case_views(cases@).take(0) =~= Seq::<CaseView>::empty());
    }
    while i < n
        invariant
            i <= n,
            n == cases@.len(),
            forall|k: int|
                0 <= k < cases@.len() ==> (#[trigger] case_views(cases@)[k]).n_parsed
                    <= case_views(cases@)[k].params.len(),
            out@ == render_text(case_views(cases@).take(i as int)),
        decreases n - i,
    {
        let ghost done = case_views(cases@).take(i as int);
        let ghost cv = case_views(cases@)[i as int];
        let c = &cases[i];
        proof {
            assert(cv == c@);
        }
        out.append("[");
        out.append(c.name.as_str());
        out.append("]\n");
        let m = c.n_parsed;
        let mut j: usize = 0;
        proof {
            assert(cv.params.take(0) =~= Seq::<(Seq<char>, Seq<char>)>::empty());
            assert(params_text(cv.params.take(0)) =~= Seq::<char>::empty());
            assert(out@ =~= render_text(done) + "["@ + cv.name + "]\n"@ + params_text(
                cv.params.take(0),
            ));
        }
        while j < m
            invariant
                j <= m,
                m == cv.n_parsed,
                cv == case_views(cases@)[i as int],
                0 <= i < cases@.len(),
                c == &cases[i as int],
                cv == c@,
                cv.n_parsed <= cv.params.len(),
                cv.params.len() == c.params@.len(),
                done == case_views(cases@).take(i as int),
                out@ == render_text(done) + "["@ + cv.name + "]\n"@ + params_text(
                    cv.params.take(j as int),
                ),
            decreases m - j,
        {
            out.append("[");
            out.append(c.params[j].0.as_str());
            out.append("]\n");
            out.append(c.params[j].1.as_str());
            out.append("\n-----------\n");
            proof {
                assert(cv.params[j as int] == (c.params@[j as int].0@, c.params@[j as int].1@));
                lemma_params_text_push(cv.params.take(j as int), cv.params[j as int]);
                assert(cv.params.take(j + 1) =~= cv.params.take(j as int).push(
                    cv.params[j as int],
                ));
                assert(out@ =~= render_text(done) + "["@ + cv.name + "]\n"@ + params_text(
                    cv.params.take(j + 1),
                ));
            }
            j = j + 1;
        }
        out.append("===========\n\n");
        proof {
            lemma_render_text_push(done, cv);
            assert(case_views(cases@).take(i + 1) =~= done.push(cv));
            assert(out@ =~= render_text(done) + case_text(cv));
            assert(out@ =~= render_text(case_views(cases@).take(i + 1)));
        }
        i = i + 1;
    }
    proof {
        assert(case_views(cases@).take(n as int) =~= case_views(cases@));
    }
    out
}

} // verus!
